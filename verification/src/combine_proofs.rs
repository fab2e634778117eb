//! What holds of every combined result.

use vstd::prelude::*;
use crate::combine::by_trip;
use crate::combine::common_trips;
use crate::combine::is_intersection;
use crate::combine::lemma_by_trip;
use crate::combine::lists;
use crate::combine::passes;
use crate::combine::sorted_by_time;
use crate::combine::visits;
use crate::prediction::PredictionView;
use crate::prediction::PredictionsView;
use crate::prediction::TripId;
use crate::prediction::distinct_trips;

verus! {

/// The trips of which the predictions hold one.
pub open spec fn trips_of(predictions: Seq<PredictionView>) -> Set<TripId> {
    Set::new(|trip: TripId| visits(predictions, trip))
}

/// Whether every trip is expected at each stop strictly later than at
/// every stop before it.
pub open spec fn strictly_later_along(sets: Seq<PredictionsView>) -> bool {
    forall|i: int, j: int, p: int, q: int|
        0 <= i < j < sets.len() && 0 <= p < sets[i].predictions.len() && 0 <= q
            < sets[j].predictions.len() && (#[trigger] sets[i].predictions[p]).trip_id
            == (#[trigger] sets[j].predictions[q]).trip_id
            ==> sets[i].predictions[p].estimated_time < sets[j].predictions[q].estimated_time
}

/// A trip that passes a stop is one of the trips of that stop.
proof fn lemma_passes_visits(
    predictions: Seq<PredictionView>,
    trip: TripId,
    time: int,
    ordered: bool,
)
    requires
        passes(predictions, trip, time, ordered),
    ensures
        visits(predictions, trip),
{
    let i = choose|i: int|
        0 <= i < predictions.len() && (#[trigger] predictions[i]).trip_id == trip && (ordered
            ==> time <= predictions[i].estimated_time);
    assert(predictions[i].trip_id == trip);
}

/// Every common trip is a trip of every set.
pub proof fn lemma_common_trips_visit_every_set(sets: Seq<PredictionsView>, ordered: bool)
    requires
        sets.len() > 0,
    ensures
        forall|trip: TripId, i: int|
            common_trips(sets, ordered).contains_key(trip) && 0 <= i < sets.len()
                ==> #[trigger] visits(sets[i].predictions, trip),
{
    let first = by_trip(sets[0].predictions);
    lemma_by_trip(sets[0].predictions);
    assert forall|trip: TripId, i: int|
        common_trips(sets, ordered).contains_key(trip) && 0 <= i
            < sets.len() implies #[trigger] visits(sets[i].predictions, trip) by {
        assert(first.contains_key(trip));
        if i > 0 {
            assert(passes(sets[i].predictions, trip, first[trip].estimated_time, ordered));
            lemma_passes_visits(sets[i].predictions, trip, first[trip].estimated_time, ordered);
        }
    }
}

/// Every trip of a combined result is a trip of every set that went into
/// it.
pub proof fn lemma_result_visits_every_set(
    sets: Seq<PredictionsView>,
    ordered: bool,
    combined: PredictionsView,
)
    requires
        is_intersection(sets, ordered, Some(combined)),
    ensures
        forall|j: int, i: int|
            0 <= j < combined.predictions.len() && 0 <= i < sets.len() ==> visits(
                (#[trigger] sets[i]).predictions,
                (#[trigger] combined.predictions[j]).trip_id,
            ),
{
    lemma_common_trips_visit_every_set(sets, ordered);
    assert forall|j: int, i: int|
        0 <= j < combined.predictions.len() && 0 <= i < sets.len() implies visits(
        (#[trigger] sets[i]).predictions,
        (#[trigger] combined.predictions[j]).trip_id,
    ) by {
        assert(common_trips(sets, ordered).contains_key(combined.predictions[j].trip_id));
    }
}

/// The trips of a listing are the keys of the map that it lists.
pub proof fn lemma_listed_trips(predictions: Seq<PredictionView>, trips: Map<TripId, PredictionView>)
    requires
        lists(predictions, trips),
    ensures
        trips_of(predictions) == trips.dom(),
{
    assert forall|trip: TripId| visits(predictions, trip) implies trips.contains_key(trip) by {
        let i = choose|i: int|
            0 <= i < predictions.len() && (#[trigger] predictions[i]).trip_id == trip;
        assert(trips.contains_key(predictions[i].trip_id));
    }
    assert(trips_of(predictions) =~= trips.dom());
}

/// Without regard to order, the common trips are those that every set
/// holds.
pub proof fn lemma_unordered_common_trips(sets: Seq<PredictionsView>)
    requires
        sets.len() > 0,
    ensures
        forall|trip: TripId|
            common_trips(sets, false).contains_key(trip) <==> forall|i: int|
                0 <= i < sets.len() ==> visits((#[trigger] sets[i]).predictions, trip),
{
    let first = by_trip(sets[0].predictions);
    lemma_by_trip(sets[0].predictions);
    lemma_common_trips_visit_every_set(sets, false);
    assert forall|trip: TripId|
        (forall|i: int|
            0 <= i < sets.len() ==> visits(
                (#[trigger] sets[i]).predictions,
                trip,
            )) implies common_trips(sets, false).contains_key(trip) by {
        assert(visits(sets[0].predictions, trip));
        assert(first.contains_key(trip));
        assert forall|i: int| 1 <= i < sets.len() implies passes(
            (#[trigger] sets[i]).predictions,
            trip,
            first[trip].estimated_time,
            false,
        ) by {
            assert(visits(sets[i].predictions, trip));
            let k = choose|k: int|
                0 <= k < sets[i].predictions.len() && (#[trigger] sets[i].predictions[k]).trip_id
                    == trip;
            assert(sets[i].predictions[k].trip_id == trip);
        }
    }
}

/// Where the order of the visits is not asked for, the trips of the result
/// do not depend on the order of the stops: two sequences that hold the same
/// sets, each as often as the other, give results of the same trips.
pub proof fn lemma_unordered_trips_of_permutation(
    sets: Seq<PredictionsView>,
    permuted: Seq<PredictionsView>,
    result: Option<PredictionsView>,
    permuted_result: Option<PredictionsView>,
)
    requires
        sets.to_multiset() == permuted.to_multiset(),
        is_intersection(sets, false, result),
        is_intersection(permuted, false, permuted_result),
    ensures
        result is Some <==> permuted_result is Some,
        result is Some ==> trips_of(result->0.predictions) == trips_of(
            permuted_result->0.predictions,
        ),
{
    broadcast use vstd::seq_lib::to_multiset_len, vstd::seq_lib::to_multiset_contains;

    assert(sets.len() == sets.to_multiset().len());
    assert(permuted.len() == permuted.to_multiset().len());
    if result is Some {
        lemma_unordered_common_trips(sets);
        lemma_unordered_common_trips(permuted);
        lemma_listed_trips(result->0.predictions, common_trips(sets, false));
        lemma_listed_trips(permuted_result->0.predictions, common_trips(permuted, false));
        assert forall|trip: TripId|
            common_trips(sets, false).contains_key(trip) <==> common_trips(
                permuted,
                false,
            ).contains_key(trip) by {
            if common_trips(sets, false).contains_key(trip) {
                assert forall|i: int| 0 <= i < permuted.len() implies visits(
                    (#[trigger] permuted[i]).predictions,
                    trip,
                ) by {
                    assert(permuted.contains(permuted[i]));
                    assert(permuted.to_multiset().count(permuted[i]) > 0);
                    assert(sets.contains(permuted[i]));
                    let k = choose|k: int| 0 <= k < sets.len() && sets[k] == permuted[i];
                    assert(visits(sets[k].predictions, trip));
                }
            }
            if common_trips(permuted, false).contains_key(trip) {
                assert forall|i: int| 0 <= i < sets.len() implies visits(
                    (#[trigger] sets[i]).predictions,
                    trip,
                ) by {
                    assert(sets.contains(sets[i]));
                    assert(sets.to_multiset().count(sets[i]) > 0);
                    assert(permuted.contains(sets[i]));
                    let k = choose|k: int| 0 <= k < permuted.len() && permuted[k] == sets[i];
                    assert(visits(permuted[k].predictions, trip));
                }
            }
        }
        assert(common_trips(sets, false).dom() =~= common_trips(permuted, false).dom());
    }
}

/// Where every trip is expected at each stop strictly later than at the
/// stops before it, asking for the visits in the opposite order of the stops
/// leaves no trip: the result for the reversed sequence of two or more stops
/// is empty.
pub proof fn lemma_reversed_stops_leave_no_trip(
    sets: Seq<PredictionsView>,
    reversed_result: Option<PredictionsView>,
)
    requires
        sets.len() >= 2,
        strictly_later_along(sets),
        is_intersection(sets.reverse(), true, reversed_result),
    ensures
        reversed_result matches Some(combined) && combined.predictions.len() == 0,
{
    let reversed = sets.reverse();
    let combined = reversed_result->0;
    let last = sets.len() - 1;
    assert(reversed[0] == sets[last]);
    assert(reversed[1] == sets[last - 1]);
    let first = by_trip(reversed[0].predictions);
    lemma_by_trip(reversed[0].predictions);
    assert forall|trip: TripId| !common_trips(reversed, true).contains_key(trip) by {
        if common_trips(reversed, true).contains_key(trip) {
            let found = first[trip];
            assert(sets[last].predictions.contains(found));
            let q = choose|q: int|
                0 <= q < sets[last].predictions.len() && sets[last].predictions[q] == found;
            assert(passes(reversed[1].predictions, trip, found.estimated_time, true));
            let earlier = sets[last - 1].predictions;
            let p = choose|p: int|
                0 <= p < earlier.len() && (#[trigger] earlier[p]).trip_id == trip
                    && found.estimated_time <= earlier[p].estimated_time;
            assert(sets[last - 1].predictions[p].trip_id == sets[last].predictions[q].trip_id);
            assert(false);
        }
    }
    if combined.predictions.len() > 0 {
        assert(common_trips(reversed, true).contains_key(combined.predictions[0].trip_id));
    }
}

/// Two sequences that list the same trips hold the same predictions, each
/// as often as the other.
pub proof fn lemma_listings_agree(
    one: Seq<PredictionView>,
    other: Seq<PredictionView>,
    trips: Map<TripId, PredictionView>,
)
    requires
        lists(one, trips),
        lists(other, trips),
    ensures
        one.to_multiset() == other.to_multiset(),
{
    broadcast use vstd::seq_lib::to_multiset_contains;

    lemma_listing_holds_nothing_twice(one, trips);
    lemma_listing_holds_nothing_twice(other, trips);
    one.lemma_multiset_has_no_duplicates();
    other.lemma_multiset_has_no_duplicates();
    assert forall|x: PredictionView| one.to_multiset().count(x) == other.to_multiset().count(
        x,
    ) by {
        if one.contains(x) {
            lemma_listing_holds(one, other, trips, x);
        }
        if other.contains(x) {
            lemma_listing_holds(other, one, trips, x);
        }
        assert(one.contains(x) <==> one.to_multiset().count(x) > 0);
        assert(other.contains(x) <==> other.to_multiset().count(x) > 0);
        assert(one.to_multiset().contains(x) <==> one.to_multiset().count(x) > 0);
        assert(other.to_multiset().contains(x) <==> other.to_multiset().count(x) > 0);
    }
    assert(one.to_multiset() =~= other.to_multiset());
}

/// What one listing of the trips holds, another holds too.
proof fn lemma_listing_holds(
    one: Seq<PredictionView>,
    other: Seq<PredictionView>,
    trips: Map<TripId, PredictionView>,
    x: PredictionView,
)
    requires
        lists(one, trips),
        lists(other, trips),
        one.contains(x),
    ensures
        other.contains(x),
{
    let i = choose|i: int| 0 <= i < one.len() && one[i] == x;
    assert(trips.contains_key(one[i].trip_id));
    assert(visits(other, x.trip_id));
    let j = choose|j: int| 0 <= j < other.len() && (#[trigger] other[j]).trip_id == x.trip_id;
    assert(other[j] == trips[other[j].trip_id]);
}

/// A listing holds no prediction twice.
proof fn lemma_listing_holds_nothing_twice(
    predictions: Seq<PredictionView>,
    trips: Map<TripId, PredictionView>,
)
    requires
        lists(predictions, trips),
    ensures
        predictions.no_duplicates(),
{
    assert forall|i: int, j: int|
        0 <= i < predictions.len() && 0 <= j < predictions.len() && i
            != j implies predictions[i] != predictions[j] by {
        if i < j {
            assert(predictions[i].trip_id != predictions[j].trip_id);
        } else {
            assert(predictions[j].trip_id != predictions[i].trip_id);
        }
    }
}

/// Predictions of which no two are of one trip list their own trips.
pub proof fn lemma_distinct_trips_list_themselves(predictions: Seq<PredictionView>)
    requires
        distinct_trips(predictions),
    ensures
        lists(predictions, by_trip(predictions)),
{
    let trips = by_trip(predictions);
    lemma_by_trip(predictions);
    assert forall|i: int| 0 <= i < predictions.len() implies trips.contains_key(
        (#[trigger] predictions[i]).trip_id,
    ) && trips[predictions[i].trip_id] == predictions[i] by {
        assert(visits(predictions, predictions[i].trip_id));
        assert(trips.contains_key(predictions[i].trip_id));
        let found = trips[predictions[i].trip_id];
        assert(predictions.contains(found));
        let k = choose|k: int| 0 <= k < predictions.len() && predictions[k] == found;
        assert(predictions[k].trip_id == predictions[i].trip_id);
        assert(k == i);
    }
}

/// What combining gives is settled but for the order of trips of equal
/// time: two results for the same sets have the same capture time and hold
/// the same predictions.
pub proof fn lemma_intersection_is_settled(
    sets: Seq<PredictionsView>,
    ordered: bool,
    one: Option<PredictionsView>,
    other: Option<PredictionsView>,
)
    requires
        is_intersection(sets, ordered, one),
        is_intersection(sets, ordered, other),
    ensures
        one is Some <==> other is Some,
        one is Some ==> one->0.time == other->0.time && one->0.predictions.to_multiset()
            == other->0.predictions.to_multiset(),
{
    if one is Some {
        lemma_listings_agree(
            one->0.predictions,
            other->0.predictions,
            common_trips(sets, ordered),
        );
    }
}

/// Combining a set with itself, however often, gives the set back by
/// ascending time: where no two of its predictions are of one trip, the
/// result holds exactly its predictions.
pub proof fn lemma_repeated_set(
    set: PredictionsView,
    times: nat,
    ordered: bool,
    result: Option<PredictionsView>,
)
    requires
        times >= 1,
        distinct_trips(set.predictions),
        is_intersection(Seq::new(times, |i: int| set), ordered, result),
    ensures
        result matches Some(combined) && combined.time == set.time && sorted_by_time(
            combined.predictions,
        ) && combined.predictions.to_multiset() == set.predictions.to_multiset(),
{
    let sets = Seq::new(times, |i: int| set);
    let given = set.predictions;
    let first = by_trip(given);
    lemma_by_trip(given);
    assert(sets[0] == set);
    assert forall|trip: TripId| first.contains_key(trip) implies common_trips(
        sets,
        ordered,
    ).contains_key(trip) by {
        let found = first[trip];
        assert(given.contains(found));
        let k = choose|k: int| 0 <= k < given.len() && given[k] == found;
        assert(given[k].trip_id == trip);
        assert(passes(given, trip, found.estimated_time, ordered));
        assert forall|i: int| 1 <= i < sets.len() implies passes(
            (#[trigger] sets[i]).predictions,
            trip,
            found.estimated_time,
            ordered,
        ) by {
            assert(sets[i] == set);
        }
    }
    assert(common_trips(sets, ordered) =~= first);
    lemma_distinct_trips_list_themselves(given);
    lemma_listings_agree(result->0.predictions, given, first);
}

} // verus!
