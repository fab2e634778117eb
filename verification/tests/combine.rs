use travel_ura::combine::PredictionsCombinator;
use travel_ura::prediction::{Prediction, Predictions};
use travel_ura::time::datetime_from_millis;

fn prediction(stop: &str, trip: u64, millis: i64) -> Prediction {
    Prediction {
        stop_point_name: stop.to_string(),
        line_name: format!("L{}", trip),
        destination_text: format!("D{}", trip),
        trip_id: trip,
        estimated_time: datetime_from_millis(millis),
    }
}

fn stop(name: &str, captured: i64, visits: &[(u64, i64)]) -> Predictions {
    Predictions {
        time: datetime_from_millis(captured),
        predictions: visits.iter().map(|&(trip, millis)| prediction(name, trip, millis)).collect(),
    }
}

fn trips(result: &Predictions) -> Vec<u64> {
    result.predictions.iter().map(|p| p.trip_id).collect()
}

fn sorted(mut trips: Vec<u64>) -> Vec<u64> {
    trips.sort();
    trips
}

#[test]
fn no_stop_gives_no_result() {
    assert_eq!(Vec::<Predictions>::new().intersect(true), None);
    assert_eq!(Vec::<Predictions>::new().intersect(false), None);
}

#[test]
fn no_common_trip_gives_an_empty_result() {
    let a = stop("A", 1000, &[(1, 10), (2, 20)]);
    let b = stop("B", 2000, &[(3, 15), (4, 25)]);
    let result = vec![a, b].intersect(false).unwrap();
    assert_eq!(result.time, datetime_from_millis(1000));
    assert!(result.predictions.is_empty());
}

#[test]
fn two_stops_in_order() {
    let a = stop("A", 1000, &[(1, 10), (2, 20)]);
    let b = stop("B", 2000, &[(1, 15), (3, 5)]);
    let result = vec![a, b].intersect(true).unwrap();
    assert_eq!(result, Predictions { time: datetime_from_millis(1000), predictions: vec![prediction("A", 1, 10)] });
}

#[test]
fn single_stop_is_sorted_by_time() {
    let a = stop("A", 7, &[(1, 30), (2, 10), (3, 20)]);
    for ordered in [true, false] {
        let result = vec![stop("A", 7, &[(1, 30), (2, 10), (3, 20)])].intersect(ordered).unwrap();
        assert_eq!(result.time, a.time);
        assert_eq!(result.predictions, vec![prediction("A", 2, 10), prediction("A", 3, 20), prediction("A", 1, 30)]);
    }
}

#[test]
fn single_empty_stop_gives_an_empty_result() {
    let result = vec![stop("A", 7, &[])].intersect(true).unwrap();
    assert_eq!(result, Predictions { time: datetime_from_millis(7), predictions: vec![] });
}

#[test]
fn result_holds_the_predictions_of_the_first_stop() {
    let a = stop("A", 1000, &[(1, 10), (2, 20), (3, 30)]);
    let b = stop("B", 2000, &[(3, 35), (1, 15), (2, 25)]);
    let c = stop("C", 3000, &[(2, 40), (3, 50), (1, 60)]);
    let result = vec![a, b, c].intersect(true).unwrap();
    assert_eq!(result.time, datetime_from_millis(1000));
    assert_eq!(result.predictions, vec![prediction("A", 1, 10), prediction("A", 2, 20), prediction("A", 3, 30)]);
}

#[test]
fn result_is_sorted_by_the_time_at_the_first_stop() {
    let a = stop("A", 0, &[(1, 50), (2, 40), (3, 30), (4, 20), (5, 10)]);
    let b = stop("B", 0, &[(1, 60), (2, 70), (3, 80), (4, 90), (5, 100)]);
    let result = vec![a, b].intersect(true).unwrap();
    assert_eq!(trips(&result), vec![5, 4, 3, 2, 1]);
    let times: Vec<i64> = result.predictions.iter().map(|p| p.estimated_time.secs() * 1000 + i64::from(p.estimated_time.subsec_nanos() / 1_000_000)).collect();
    assert_eq!(times, vec![10, 20, 30, 40, 50]);
}

#[test]
fn equal_times_pass_the_order_check() {
    let a = stop("A", 0, &[(1, 10)]);
    let b = stop("B", 0, &[(1, 10)]);
    assert_eq!(trips(&vec![a, b].intersect(true).unwrap()), vec![1]);
}

#[test]
fn earlier_at_a_later_stop_is_dropped_when_ordered() {
    let result = vec![stop("A", 0, &[(1, 10), (2, 20)]), stop("B", 0, &[(1, 9), (2, 21)])].intersect(true).unwrap();
    assert_eq!(trips(&result), vec![2]);
    let unordered = vec![stop("A", 0, &[(1, 10), (2, 20)]), stop("B", 0, &[(1, 9), (2, 21)])].intersect(false).unwrap();
    assert_eq!(trips(&unordered), vec![1, 2]);
}

#[test]
fn order_is_checked_against_the_first_stop() {
    // Trip 1 is at B later than at C, but at both no earlier than at A.
    let a = stop("A", 0, &[(1, 10)]);
    let b = stop("B", 0, &[(1, 30)]);
    let c = stop("C", 0, &[(1, 20)]);
    assert_eq!(trips(&vec![a, b, c].intersect(true).unwrap()), vec![1]);
}

#[test]
fn dropped_trip_does_not_come_back() {
    let a = stop("A", 0, &[(1, 10), (2, 20)]);
    let b = stop("B", 0, &[(2, 30)]);
    let c = stop("C", 0, &[(1, 40), (2, 50)]);
    assert_eq!(trips(&vec![a, b, c].intersect(true).unwrap()), vec![2]);
}

#[test]
fn result_trips_are_in_every_stop() {
    let sets = || {
        vec![
            stop("A", 0, &[(1, 10), (2, 20), (3, 30), (4, 40)]),
            stop("B", 0, &[(2, 25), (3, 20), (4, 45), (5, 50)]),
            stop("C", 0, &[(4, 60), (2, 70), (6, 80), (3, 90)]),
        ]
    };
    for ordered in [true, false] {
        let result = sets().intersect(ordered).unwrap();
        for p in &result.predictions {
            for set in sets() {
                assert!(set.predictions.iter().any(|q| q.trip_id == p.trip_id));
            }
        }
    }
    assert_eq!(trips(&sets().intersect(false).unwrap()), vec![2, 3, 4]);
    assert_eq!(trips(&sets().intersect(true).unwrap()), vec![2, 4]);
}

#[test]
fn unordered_trips_do_not_depend_on_the_order_of_the_stops() {
    let a = || stop("A", 0, &[(1, 10), (2, 20), (3, 30)]);
    let b = || stop("B", 0, &[(3, 5), (2, 25), (4, 1)]);
    let c = || stop("C", 0, &[(2, 2), (3, 3), (5, 4)]);
    let expected = vec![2u64, 3];
    for sets in [vec![a(), b(), c()], vec![a(), c(), b()], vec![b(), a(), c()], vec![b(), c(), a()], vec![c(), a(), b()], vec![c(), b(), a()]] {
        assert_eq!(sorted(trips(&sets.intersect(false).unwrap())), expected);
    }
}

#[test]
fn reversed_stops_drop_every_trip_when_ordered() {
    let a = || stop("A", 0, &[(1, 10), (2, 20), (3, 30)]);
    let b = || stop("B", 0, &[(1, 11), (2, 21), (3, 31)]);
    let c = || stop("C", 0, &[(1, 12), (2, 22), (3, 32)]);
    assert_eq!(trips(&vec![a(), b(), c()].intersect(true).unwrap()), vec![1, 2, 3]);
    let reversed = vec![c(), b(), a()].intersect(true).unwrap();
    assert_eq!(reversed.time, datetime_from_millis(0));
    assert!(reversed.predictions.is_empty());
    assert_eq!(sorted(trips(&vec![c(), b(), a()].intersect(false).unwrap())), vec![1, 2, 3]);
}

#[test]
fn set_combined_with_itself_is_the_set_by_time() {
    let set = || stop("A", 99, &[(3, 30), (1, 10), (2, 20)]);
    let expected = vec![prediction("A", 1, 10), prediction("A", 2, 20), prediction("A", 3, 30)];
    for times in 1..5 {
        for ordered in [true, false] {
            let sets: Vec<Predictions> = (0..times).map(|_| set()).collect();
            let result = sets.intersect(ordered).unwrap();
            assert_eq!(result.time, datetime_from_millis(99));
            assert_eq!(result.predictions, expected);
        }
    }
}

#[test]
fn capture_time_is_that_of_the_first_stop() {
    let result = vec![stop("A", -500, &[(1, 10)]), stop("B", 12345, &[(1, 20)])].intersect(true).unwrap();
    assert_eq!(result.time, datetime_from_millis(-500));
    let swapped = vec![stop("B", 12345, &[(1, 20)]), stop("A", -500, &[(1, 10)])].intersect(false).unwrap();
    assert_eq!(swapped.time, datetime_from_millis(12345));
}

#[test]
fn equal_times_all_stay() {
    let a = stop("A", 0, &[(1, 10), (2, 10), (3, 5), (4, 10)]);
    let b = stop("B", 0, &[(4, 10), (3, 10), (2, 10), (1, 10)]);
    let result = vec![a, b].intersect(true).unwrap();
    assert_eq!(result.predictions[0], prediction("A", 3, 5));
    assert_eq!(sorted(trips(&result)), vec![1, 2, 3, 4]);
    assert!(result.predictions.iter().skip(1).all(|p| p.estimated_time == datetime_from_millis(10)));
}

// What the source does with two records of one trip in one set is not
// settled; these two show what this library makes of it.
#[test]
fn repeated_trip_in_the_first_stop_counts_with_its_last_record() {
    let a = stop("A", 0, &[(1, 10), (2, 20), (1, 30)]);
    let b = stop("B", 0, &[(1, 25), (2, 25)]);
    let result = vec![a, b].intersect(true).unwrap();
    assert_eq!(result.predictions, vec![prediction("A", 2, 20)]);
    let a = stop("A", 0, &[(1, 10), (2, 20), (1, 30)]);
    let unordered = vec![a].intersect(false).unwrap();
    assert_eq!(unordered.predictions, vec![prediction("A", 2, 20), prediction("A", 1, 30)]);
}

#[test]
fn repeated_trip_in_a_later_stop_passes_with_any_record() {
    let a = stop("A", 0, &[(1, 10)]);
    let b = stop("B", 0, &[(1, 5), (1, 15)]);
    assert_eq!(trips(&vec![a, b].intersect(true).unwrap()), vec![1]);
    let a = stop("A", 0, &[(1, 10)]);
    let b = stop("B", 0, &[(1, 15), (1, 5)]);
    assert_eq!(trips(&vec![a, b].intersect(true).unwrap()), vec![1]);
    let a = stop("A", 0, &[(1, 10)]);
    let b = stop("B", 0, &[(1, 5), (1, 6)]);
    assert!(vec![a, b].intersect(true).unwrap().predictions.is_empty());
}

#[test]
fn many_trips_come_out_sorted() {
    let visits: Vec<(u64, i64)> = (0..200u64).map(|trip| (trip, ((trip * 7919) % 1009) as i64 - 500)).collect();
    let later: Vec<(u64, i64)> = visits.iter().rev().map(|&(trip, millis)| (trip, millis + 1)).collect();
    let result = vec![stop("A", 0, &visits), stop("B", 0, &later)].intersect(true).unwrap();
    assert_eq!(result.predictions.len(), 200);
    assert!(result.predictions.windows(2).all(|w| w[0].estimated_time.le(&w[1].estimated_time)));
    assert_eq!(sorted(trips(&result)), (0..200u64).collect::<Vec<u64>>());
}
