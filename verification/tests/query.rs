use travel_ura::combine::PredictionsCombinator;
use travel_ura::error::Error;
use travel_ura::prediction::{Prediction, Predictions};
use travel_ura::query::collect_outcomes;
use travel_ura::request::{Reply, Request};
use travel_ura::time::datetime_from_millis;

fn set(captured: i64, trips: &[(u64, i64)]) -> Predictions {
    Predictions {
        time: datetime_from_millis(captured),
        predictions: trips
            .iter()
            .map(|&(trip, millis)| Prediction {
                stop_point_name: "S".to_string(),
                line_name: "L".to_string(),
                destination_text: "D".to_string(),
                trip_id: trip,
                estimated_time: datetime_from_millis(millis),
            })
            .collect(),
    }
}

#[test]
fn outcomes_without_an_error_are_all_kept_in_order() {
    let outcomes = vec![Ok(set(1, &[(1, 10)])), Ok(set(2, &[])), Ok(set(3, &[(2, 20), (3, 30)]))];
    assert_eq!(collect_outcomes(outcomes), Ok(vec![set(1, &[(1, 10)]), set(2, &[]), set(3, &[(2, 20), (3, 30)])]));
}

#[test]
fn no_outcome_is_no_set() {
    assert_eq!(collect_outcomes(vec![]), Ok(vec![]));
}

#[test]
fn first_error_in_the_order_of_the_stops_is_the_outcome() {
    let outcomes = vec![
        Ok(set(1, &[(1, 10)])),
        Err(Error::BadStopPointName("Nirgendwo".to_string())),
        Ok(set(3, &[])),
        Err(Error::UnknownStatus(500)),
    ];
    assert_eq!(collect_outcomes(outcomes), Err(Error::BadStopPointName("Nirgendwo".to_string())));
    assert_eq!(collect_outcomes(vec![Err(Error::FeedFormat), Err(Error::UnknownStatus(404))]), Err(Error::FeedFormat));
    let last = vec![Ok(set(1, &[])), Err(Error::Transport("timed out".to_string()))];
    assert_eq!(collect_outcomes(last), Err(Error::Transport("timed out".to_string())));
}

#[test]
fn two_feeds_from_lines_to_text() {
    let lines = |texts: &[&str]| texts.iter().map(|t| t.to_string()).collect::<Vec<String>>();
    let first = Reply::Answer {
        status: 200,
        lines: lines(&[
            "[4,\"1.0\",1458000000000]",
            "[1,\"Bushof\",\"33\",\"Fuchserde\",1,1458000600000]",
            "[1,\"Bushof\",\"3A\",\"Uniklinik\",2,1458001200000]",
        ]),
    };
    let second = Reply::Answer {
        status: 200,
        lines: lines(&[
            "[4,\"1.0\",1458000001000]",
            "[1,\"Elisenbrunnen\",\"33\",\"Fuchserde\",1,1458000900000]",
            "[1,\"Elisenbrunnen\",\"11\",\"Hoern\",3,1458000300000]",
        ]),
    };
    let outcomes = vec![
        Request::with_stop_point_name("Bushof".to_string()).receive(first),
        Request::with_stop_point_name("Elisenbrunnen".to_string()).receive(second),
    ];
    let combined = collect_outcomes(outcomes).unwrap().intersect(true).unwrap();
    assert_eq!(combined.time, datetime_from_millis(1_458_000_000_000));
    assert_eq!(combined.predictions.len(), 1);
    assert_eq!(combined.predictions[0].trip_id, 1);
    assert_eq!(combined.predictions[0].stop_point_name, "Bushof");
    assert_eq!(combined.format(false), " 10min   33 Fuchserde\n");
    assert_eq!(combined.format(true), "10min 33 Fuchserde\n");
}

#[test]
fn one_failed_stop_fails_the_query() {
    let lines = vec!["[4,\"1.0\",1458000000000]".to_string()];
    let outcomes = vec![
        Request::with_stop_point_name("Bushof".to_string()).receive(Reply::Answer { status: 200, lines }),
        Request::with_stop_point_name("Nirgendwo".to_string()).receive(Reply::Answer { status: 416, lines: vec![] }),
    ];
    assert_eq!(collect_outcomes(outcomes), Err(Error::BadStopPointName("Nirgendwo".to_string())));
}
