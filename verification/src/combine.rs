//! The trips that visit every stop of a list, and when.
//!
//! One set of predictions is given per stop, in the order of the stops. A
//! trip is kept where every set holds it; with `ordered`, only where it is
//! expected at each later stop no earlier than at the first.

use std::collections::HashMap;
use vstd::prelude::*;
use vstd::std_specs::hash::group_hash_axioms;
use vstd::std_specs::hash::spec_keys_iter;
use vstd::std_specs::iter::IteratorSpec;
use crate::prediction::Prediction;
use crate::prediction::PredictionView;
use crate::prediction::Predictions;
use crate::prediction::PredictionsView;
use crate::prediction::TripId;
use crate::prediction::distinct_trips;
use crate::prediction::prediction_views;
use crate::combine_proofs::lemma_result_visits_every_set;

verus! {

/// Whether one of the predictions is of the trip.
pub open spec fn visits(predictions: Seq<PredictionView>, trip: TripId) -> bool {
    exists|i: int| 0 <= i < predictions.len() && (#[trigger] predictions[i]).trip_id == trip
}

/// The predictions by their trip. Where several are of one trip, the last
/// of them stands for it.
pub open spec fn by_trip(predictions: Seq<PredictionView>) -> Map<TripId, PredictionView>
    decreases predictions.len(),
{
    if predictions.len() == 0 {
        Map::empty()
    } else {
        by_trip(predictions.drop_last()).insert(predictions.last().trip_id, predictions.last())
    }
}

/// Whether a trip that is expected at the first stop at `time` passes a
/// later stop with these predictions: one of them is of the trip and, with
/// `ordered`, is no earlier than `time`.
pub open spec fn passes(
    predictions: Seq<PredictionView>,
    trip: TripId,
    time: int,
    ordered: bool,
) -> bool {
    exists|i: int|
        0 <= i < predictions.len() && (#[trigger] predictions[i]).trip_id == trip && (ordered
            ==> time <= predictions[i].estimated_time)
}

/// Of the trips in `carried`, those that pass the stop with these
/// predictions, each with the prediction that `carried` has for it.
pub open spec fn retained(
    carried: Map<TripId, PredictionView>,
    predictions: Seq<PredictionView>,
    ordered: bool,
) -> Map<TripId, PredictionView> {
    Map::new(
        |trip: TripId|
            carried.contains_key(trip) && passes(
                predictions,
                trip,
                carried[trip].estimated_time,
                ordered,
            ),
        |trip: TripId| carried[trip],
    )
}

/// The trips that visit every stop: those of the first set that pass every
/// later one, each with the prediction that the first set has for it.
pub open spec fn common_trips(sets: Seq<PredictionsView>, ordered: bool) -> Map<
    TripId,
    PredictionView,
>
    recommends
        sets.len() > 0,
{
    let first = by_trip(sets[0].predictions);
    Map::new(
        |trip: TripId|
            first.contains_key(trip) && forall|i: int|
                1 <= i < sets.len() ==> passes(
                    (#[trigger] sets[i]).predictions,
                    trip,
                    first[trip].estimated_time,
                    ordered,
                ),
        |trip: TripId| first[trip],
    )
}

/// Whether the sequence holds the prediction of each trip of the map, and
/// nothing else, and no trip twice.
pub open spec fn lists(predictions: Seq<PredictionView>, trips: Map<TripId, PredictionView>) -> bool {
    &&& forall|i: int|
        0 <= i < predictions.len() ==> trips.contains_key((#[trigger] predictions[i]).trip_id)
            && trips[predictions[i].trip_id] == predictions[i]
    &&& forall|trip: TripId| trips.contains_key(trip) ==> visits(predictions, trip)
    &&& distinct_trips(predictions)
}

/// Whether the predictions stand by ascending time.
pub open spec fn sorted_by_time(predictions: Seq<PredictionView>) -> bool {
    forall|i: int, j: int|
        0 <= i <= j < predictions.len() ==> (#[trigger] predictions[i]).estimated_time
            <= (#[trigger] predictions[j]).estimated_time
}

/// Whether `result` is what combining the sets gives: nothing for no set at
/// all; else the common trips by ascending time, with the capture time of
/// the first set. Trips of equal time may stand in any order.
pub open spec fn is_intersection(
    sets: Seq<PredictionsView>,
    ordered: bool,
    result: Option<PredictionsView>,
) -> bool {
    match result {
        None => sets.len() == 0,
        Some(combined) => {
            &&& sets.len() > 0
            &&& combined.time == sets[0].time
            &&& sorted_by_time(combined.predictions)
            &&& lists(combined.predictions, common_trips(sets, ordered))
        },
    }
}

/// The views of the predictions that a map holds, under the same keys.
spec fn map_views(map: Map<TripId, Prediction>) -> Map<TripId, PredictionView> {
    map.map_values(|p: Prediction| p@)
}

/// `passes` over one more prediction.
proof fn lemma_passes_step(predictions: Seq<PredictionView>, n: int, ordered: bool)
    requires
        0 <= n < predictions.len(),
    ensures
        forall|trip: TripId, time: int|
            #[trigger] passes(predictions.take(n + 1), trip, time, ordered) <==> passes(
                predictions.take(n),
                trip,
                time,
                ordered,
            ) || (predictions[n].trip_id == trip && (ordered ==> time
                <= predictions[n].estimated_time)),
{
    let shorter = predictions.take(n);
    let longer = predictions.take(n + 1);
    assert forall|trip: TripId, time: int| #[trigger]
        passes(longer, trip, time, ordered) <==> passes(shorter, trip, time, ordered) || (
        predictions[n].trip_id == trip && (ordered ==> time
            <= predictions[n].estimated_time)) by {
        if passes(longer, trip, time, ordered) {
            let i = choose|i: int|
                0 <= i < longer.len() && (#[trigger] longer[i]).trip_id == trip && (ordered
                    ==> time <= longer[i].estimated_time);
            if i < n {
                assert(shorter[i] == longer[i]);
            }
        }
        if passes(shorter, trip, time, ordered) {
            let i = choose|i: int|
                0 <= i < shorter.len() && (#[trigger] shorter[i]).trip_id == trip && (ordered
                    ==> time <= shorter[i].estimated_time);
            assert(longer[i] == shorter[i]);
        }
        if predictions[n].trip_id == trip && (ordered ==> time <= predictions[n].estimated_time) {
            assert(longer[n] == predictions[n]);
        }
    }
}

/// The map from each trip of the predictions to the last prediction of it.
fn seed(predictions: Vec<Prediction>) -> (map: HashMap<TripId, Prediction>)
    ensures
        map_views(map@) == by_trip(prediction_views(predictions@)),
{
    broadcast use group_hash_axioms;

    let ghost views = prediction_views(predictions@);
    let mut map: HashMap<TripId, Prediction> = HashMap::new();
    assert(map_views(map@) =~= by_trip(views.take(0)));
    for p in it: predictions
        invariant
            it.seq() == predictions@,
            views == prediction_views(predictions@),
            map_views(map@) == by_trip(views.take(it.index() as int)),
    {
        let ghost before = map@;
        let ghost n = it.index() as int;
        map.insert(p.trip_id, p);
        proof {
            assert(views.take(n + 1).drop_last() =~= views.take(n));
            assert(views.take(n + 1).last() == p@);
            assert(map_views(before.insert(p.trip_id, p)) =~= map_views(before).insert(
                p.trip_id,
                p@,
            ));
        }
    }
    assert(views.take(views.len() as int) =~= views);
    map
}

/// Of the trips in `carried`, those that pass the stop with these
/// predictions.
fn retain(
    carried: HashMap<TripId, Prediction>,
    predictions: &Vec<Prediction>,
    ordered: bool,
) -> (kept: HashMap<TripId, Prediction>)
    ensures
        map_views(kept@) == retained(
            map_views(carried@),
            prediction_views(predictions@),
            ordered,
        ),
{
    broadcast use group_hash_axioms;

    let ghost whole = map_views(carried@);
    let ghost views = prediction_views(predictions@);
    let mut rest = carried;
    let mut kept: HashMap<TripId, Prediction> = HashMap::new();
    assert(map_views(kept@) =~= retained(whole, views.take(0), ordered));
    assert(map_views(rest@) =~= whole.remove_keys(retained(whole, views.take(0), ordered).dom()));
    let mut n: usize = 0;
    while n < predictions.len()
        invariant
            n <= predictions.len(),
            views == prediction_views(predictions@),
            map_views(kept@) == retained(whole, views.take(n as int), ordered),
            map_views(rest@) == whole.remove_keys(
                retained(whole, views.take(n as int), ordered).dom(),
            ),
        decreases predictions.len() - n,
    {
        let p = &predictions[n];
        let ghost shorter = retained(whole, views.take(n as int), ordered);
        let ghost longer = retained(whole, views.take(n + 1), ordered);
        let ghost kept_before = kept@;
        let ghost rest_before = rest@;
        proof {
            lemma_passes_step(views, n as int, ordered);
            assert(views[n as int] == p@);
        }
        match rest.remove(&p.trip_id) {
            Some(pred) => {
                proof {
                    assert(rest_before.contains_key(p.trip_id) && rest_before[p.trip_id] == pred);
                    assert(map_views(rest_before).contains_key(p.trip_id));
                    assert(map_views(rest_before)[p.trip_id] == pred@);
                    assert(whole.contains_key(p.trip_id) && whole[p.trip_id] == pred@);
                    assert(!shorter.contains_key(p.trip_id));
                }
                // A trip that fails here goes back to the rest: a further
                // prediction of it at this stop may still let it pass.
                if !ordered || pred.estimated_time.le(&p.estimated_time) {
                    kept.insert(p.trip_id, pred);
                    proof {
                        assert(longer =~= shorter.insert(p.trip_id, pred@));
                        assert(map_views(kept@) =~= map_views(kept_before).insert(
                            p.trip_id,
                            pred@,
                        ));
                        assert(map_views(rest@) =~= map_views(rest_before).remove(p.trip_id));
                        assert(map_views(rest@) =~= whole.remove_keys(longer.dom()));
                    }
                } else {
                    rest.insert(p.trip_id, pred);
                    proof {
                        assert(rest@ =~= rest_before);
                        assert(longer =~= shorter);
                    }
                }
            },
            None => {
                proof {
                    assert(!map_views(rest_before).contains_key(p.trip_id));
                    assert(whole.contains_key(p.trip_id) ==> shorter.contains_key(p.trip_id));
                    assert(longer =~= shorter);
                }
            },
        }
        n += 1;
    }
    assert(views.take(n as int) =~= views);
    kept
}

/// Every key of `by_trip` is a trip of the predictions, and the other way
/// round; each prediction in it is one of them, under its own trip.
pub proof fn lemma_by_trip(predictions: Seq<PredictionView>)
    ensures
        forall|trip: TripId| #[trigger]
            by_trip(predictions).contains_key(trip) <==> visits(predictions, trip),
        forall|trip: TripId| #[trigger]
            by_trip(predictions).contains_key(trip) ==> by_trip(predictions)[trip].trip_id == trip
                && predictions.contains(by_trip(predictions)[trip]),
    decreases predictions.len(),
{
    if predictions.len() > 0 {
        let shorter = predictions.drop_last();
        let last = predictions.last();
        lemma_by_trip(shorter);
        assert forall|trip: TripId| #[trigger]
            by_trip(predictions).contains_key(trip) <==> visits(predictions, trip) by {
            if visits(predictions, trip) {
                let i = choose|i: int|
                    0 <= i < predictions.len() && (#[trigger] predictions[i]).trip_id == trip;
                if i < shorter.len() {
                    assert(shorter[i] == predictions[i]);
                    assert(visits(shorter, trip));
                    assert(by_trip(shorter).contains_key(trip));
                }
            }
            if by_trip(predictions).contains_key(trip) && trip != last.trip_id {
                assert(by_trip(shorter).contains_key(trip));
                assert(visits(shorter, trip));
                let i = choose|i: int|
                    0 <= i < shorter.len() && (#[trigger] shorter[i]).trip_id == trip;
                assert(predictions[i] == shorter[i]);
            }
            if trip == last.trip_id {
                assert(predictions[predictions.len() - 1].trip_id == trip);
            }
        }
        assert forall|trip: TripId| #[trigger]
            by_trip(predictions).contains_key(trip) implies by_trip(predictions)[trip].trip_id
            == trip && predictions.contains(by_trip(predictions)[trip]) by {
            if trip == last.trip_id {
                assert(predictions[predictions.len() - 1] == last);
            } else {
                assert(by_trip(shorter).contains_key(trip));
                let found = by_trip(shorter)[trip];
                assert(shorter.contains(found));
                let i = choose|i: int| 0 <= i < shorter.len() && shorter[i] == found;
                assert(predictions[i] == found);
            }
        }
    }
}

/// The common trips of one more set are those of the sets before it that
/// pass it.
proof fn lemma_common_trips_step(sets: Seq<PredictionsView>, n: int, ordered: bool)
    requires
        1 <= n < sets.len(),
    ensures
        common_trips(sets.take(n + 1), ordered) == retained(
            common_trips(sets.take(n), ordered),
            sets[n].predictions,
            ordered,
        ),
{
    let shorter = sets.take(n);
    let longer = sets.take(n + 1);
    let first = by_trip(sets[0].predictions);
    assert(shorter[0] == sets[0] && longer[0] == sets[0]);
    let carried = common_trips(shorter, ordered);
    assert forall|trip: TripId|
        common_trips(longer, ordered).contains_key(trip) <==> #[trigger] retained(
            carried,
            sets[n].predictions,
            ordered,
        ).contains_key(trip) by {
        if first.contains_key(trip) {
            let time = first[trip].estimated_time;
            if common_trips(longer, ordered).contains_key(trip) {
                assert forall|i: int| 1 <= i < shorter.len() implies passes(
                    (#[trigger] shorter[i]).predictions,
                    trip,
                    time,
                    ordered,
                ) by {
                    assert(longer[i] == shorter[i]);
                }
                assert(longer[n] == sets[n]);
            }
            if retained(carried, sets[n].predictions, ordered).contains_key(trip) {
                assert forall|i: int| 1 <= i < longer.len() implies passes(
                    (#[trigger] longer[i]).predictions,
                    trip,
                    time,
                    ordered,
                ) by {
                    if i < n {
                        assert(longer[i] == shorter[i]);
                    } else {
                        assert(longer[i] == sets[n]);
                    }
                }
            }
        }
    }
    assert(common_trips(longer, ordered) =~= retained(carried, sets[n].predictions, ordered));
}

/// Inserting the prediction of a further trip keeps a listing a listing.
proof fn lemma_lists_insert(
    predictions: Seq<PredictionView>,
    trips: Map<TripId, PredictionView>,
    at: int,
    p: PredictionView,
)
    requires
        lists(predictions, trips),
        !trips.contains_key(p.trip_id),
        0 <= at <= predictions.len(),
    ensures
        lists(predictions.insert(at, p), trips.insert(p.trip_id, p)),
{
    let longer = predictions.insert(at, p);
    let more = trips.insert(p.trip_id, p);
    assert forall|i: int| 0 <= i < longer.len() implies more.contains_key(
        (#[trigger] longer[i]).trip_id,
    ) && more[longer[i].trip_id] == longer[i] by {
        if i < at {
            assert(longer[i] == predictions[i]);
        } else if i > at {
            assert(longer[i] == predictions[i - 1]);
        }
    }
    assert forall|trip: TripId| more.contains_key(trip) implies visits(longer, trip) by {
        if trip == p.trip_id {
            assert(longer[at] == p);
        } else {
            assert(visits(predictions, trip));
            let i = choose|i: int|
                0 <= i < predictions.len() && (#[trigger] predictions[i]).trip_id == trip;
            if i < at {
                assert(longer[i] == predictions[i]);
            } else {
                assert(longer[i + 1] == predictions[i]);
            }
        }
    }
    assert forall|i: int, j: int| 0 <= i < j < longer.len() implies (#[trigger] longer[i]).trip_id
        != (#[trigger] longer[j]).trip_id by {
        let a = if i < at { i } else { i - 1 };
        let b = if j < at { j } else { j - 1 };
        if i != at {
            assert(longer[i] == predictions[a]);
        }
        if j != at {
            assert(longer[j] == predictions[b]);
        }
    }
}

/// Puts `p` into predictions that stand by ascending time, behind those that
/// are no later than it, and returns its place.
fn insert_by_time(predictions: &mut Vec<Prediction>, p: Prediction) -> (at: usize)
    requires
        sorted_by_time(prediction_views(old(predictions)@)),
    ensures
        at <= old(predictions)@.len(),
        final(predictions)@ == old(predictions)@.insert(at as int, p),
        sorted_by_time(prediction_views(final(predictions)@)),
{
    let ghost before = predictions@;
    let mut at: usize = predictions.len();
    while at > 0 && !predictions[at - 1].estimated_time.le(&p.estimated_time)
        invariant
            at <= predictions.len(),
            predictions@ == before,
            forall|j: int| at <= j < before.len() ==> p@.estimated_time < (#[trigger] before[j])@.estimated_time,
        decreases at,
    {
        at -= 1;
    }
    predictions.insert(at, p);
    proof {
        let views = prediction_views(before);
        let longer = prediction_views(predictions@);
        assert(longer =~= views.insert(at as int, p@));
        assert forall|i: int, j: int| 0 <= i <= j < longer.len() implies (#[trigger] longer[i]).estimated_time
            <= (#[trigger] longer[j]).estimated_time by {
            let a = if i < at { i } else { i - 1 };
            let b = if j < at { j } else { j - 1 };
            if i != at {
                assert(longer[i] == views[a]);
            }
            if j != at {
                assert(longer[j] == views[b]);
            }
            if i < at && j == at {
                assert(views[i].estimated_time <= views[at - 1].estimated_time);
            }
        }
    }
    at
}

/// The keys of a map, each once, in the order in which the map hands them
/// out.
fn keys_of(map: &HashMap<TripId, Prediction>) -> (keys: Vec<TripId>)
    ensures
        keys@.no_duplicates(),
        keys@.to_set() == map@.dom(),
{
    broadcast use group_hash_axioms;

    let ghost all: Seq<TripId> = spec_keys_iter(map).remaining().unref();
    let mut keys: Vec<TripId> = Vec::new();
    for key in it: map.keys()
        invariant
            it.seq().unref() == all,
            keys@ == all.take(it.index() as int),
    {
        keys.push(*key);
    }
    assert(keys@ =~= all);
    keys
}

/// Whether `trip` is among the first `n` of the keys.
spec fn drawn(keys: Seq<TripId>, n: int, trip: TripId) -> bool {
    exists|j: int| 0 <= j < n && #[trigger] keys[j] == trip
}

/// The part of `whole` under the first `n` of the keys.
spec fn drawn_part(
    whole: Map<TripId, PredictionView>,
    keys: Seq<TripId>,
    n: int,
) -> Map<TripId, PredictionView> {
    Map::new(
        |trip: TripId| whole.contains_key(trip) && drawn(keys, n, trip),
        |trip: TripId| whole[trip],
    )
}

/// The part of `whole` under none of the first `n` of the keys.
spec fn undrawn_part(
    whole: Map<TripId, PredictionView>,
    keys: Seq<TripId>,
    n: int,
) -> Map<TripId, PredictionView> {
    Map::new(
        |trip: TripId| whole.contains_key(trip) && !drawn(keys, n, trip),
        |trip: TripId| whole[trip],
    )
}

/// The predictions of a map, by ascending time.
fn drain_by_time(map: HashMap<TripId, Prediction>) -> (predictions: Vec<Prediction>)
    requires
        forall|trip: TripId| #[trigger]
            map@.contains_key(trip) ==> map@[trip].trip_id == trip,
    ensures
        sorted_by_time(prediction_views(predictions@)),
        lists(prediction_views(predictions@), map_views(map@)),
{
    broadcast use group_hash_axioms;

    let ghost whole = map_views(map@);
    let keys = keys_of(&map);
    let mut rest = map;
    let mut predictions: Vec<Prediction> = Vec::new();
    let mut n: usize = 0;
    assert(map_views(rest@) =~= undrawn_part(whole, keys@, 0));
    assert(lists(prediction_views(predictions@), drawn_part(whole, keys@, 0)));
    while n < keys.len()
        invariant
            n <= keys.len(),
            keys@.no_duplicates(),
            keys@.to_set() == whole.dom(),
            forall|trip: TripId| #[trigger]
                whole.contains_key(trip) ==> whole[trip].trip_id == trip,
            map_views(rest@) == undrawn_part(whole, keys@, n as int),
            sorted_by_time(prediction_views(predictions@)),
            lists(prediction_views(predictions@), drawn_part(whole, keys@, n as int)),
        decreases keys.len() - n,
    {
        let key = keys[n];
        let ghost done = drawn_part(whole, keys@, n as int);
        let ghost more = drawn_part(whole, keys@, n + 1);
        let ghost rest_before = rest@;
        let ghost listed = prediction_views(predictions@);
        proof {
            assert(whole.contains_key(key));
            assert(!drawn(keys@, n as int, key));
            assert(map_views(rest_before).contains_key(key));
            assert forall|trip: TripId| drawn(keys@, n + 1, trip) <==> drawn(keys@, n as int, trip)
                || trip == key by {
                if drawn(keys@, n + 1, trip) {
                    let j = choose|j: int| 0 <= j < n + 1 && #[trigger] keys@[j] == trip;
                    if j < n {
                        assert(drawn(keys@, n as int, trip));
                    }
                }
                if drawn(keys@, n as int, trip) {
                    let j = choose|j: int| 0 <= j < n && #[trigger] keys@[j] == trip;
                    assert(keys@[j] == trip);
                }
                if trip == key {
                    assert(keys@[n as int] == trip);
                }
            }
        }
        match rest.remove(&key) {
            Some(p) => {
                proof {
                    assert(map_views(rest_before)[key] == p@);
                    assert(p@.trip_id == key);
                }
                let at: usize = insert_by_time(&mut predictions, p);
                proof {
                    assert(prediction_views(predictions@) =~= listed.insert(at as int, p@));
                    lemma_lists_insert(listed, done, at as int, p@);
                    assert(more =~= done.insert(key, p@));
                    assert(map_views(rest@) =~= map_views(rest_before).remove(key));
                    assert(map_views(rest@) =~= undrawn_part(whole, keys@, n + 1));
                }
            },
            None => {
                proof {
                    assert(!rest_before.contains_key(key));
                    assert(false);
                }
            },
        }
        n += 1;
    }
    proof {
        assert forall|trip: TripId| whole.contains_key(trip) implies drawn(
            keys@,
            n as int,
            trip,
        ) by {
            assert(keys@.to_set().contains(trip));
            assert(keys@.contains(trip));
            let j = choose|j: int| 0 <= j < keys@.len() && keys@[j] == trip;
            assert(keys@[j] == trip);
        }
        assert(whole =~= drawn_part(whole, keys@, n as int));
    }
    predictions
}

/// The views of the sets of predictions, in the same order.
pub open spec fn set_views(sets: Seq<Predictions>) -> Seq<PredictionsView> {
    sets.map_values(|s: Predictions| s@)
}

/// The view of a result that may be absent.
pub open spec fn optional_view(result: Option<Predictions>) -> Option<PredictionsView> {
    match result {
        Some(predictions) => Some(predictions@),
        None => None,
    }
}

/// Combines the predictions of several stops into those of the trips that
/// visit them all.
pub trait PredictionsCombinator: Sized {
    /// The sets of predictions that `self` holds, one per stop, in the order
    /// of the stops.
    spec fn stop_sets(self) -> Seq<PredictionsView>;

    /// The trips that visit every stop, by ascending time at the first stop;
    /// `None` where there is no stop at all.
    ///
    /// With `ordered`, a trip is kept only where it is expected at every
    /// later stop no earlier than at the first.
    fn intersect(self, ordered: bool) -> (result: Option<Predictions>)
        ensures
            is_intersection(self.stop_sets(), ordered, optional_view(result)),
            result matches Some(combined) ==> forall|j: int, i: int|
                0 <= j < combined@.predictions.len() && 0 <= i < self.stop_sets().len()
                    ==> visits(
                    (#[trigger] self.stop_sets()[i]).predictions,
                    (#[trigger] combined@.predictions[j]).trip_id,
                ),
    ;
}

impl PredictionsCombinator for Vec<Predictions> {
    open spec fn stop_sets(self) -> Seq<PredictionsView> {
        set_views(self@)
    }

    fn intersect(self, ordered: bool) -> (result: Option<Predictions>) {
        let ghost all = set_views(self@);
        let mut later = self;
        if later.len() == 0 {
            return None;
        }
        let first = later.remove(0);
        let time = first.time;
        let mut carried = seed(first.predictions);
        proof {
            assert(all[0] == first@);
            assert(all.take(1)[0] == all[0]);
            assert(map_views(carried@) =~= common_trips(all.take(1), ordered));
        }
        let mut n: usize = 0;
        while n < later.len()
            invariant
                n <= later.len(),
                all.len() == later.len() + 1,
                forall|i: int| 0 <= i < later.len() ==> (#[trigger] later@[i])@ == all[i + 1],
                map_views(carried@) == common_trips(all.take(n + 1), ordered),
            decreases later.len() - n,
        {
            proof {
                lemma_common_trips_step(all, n + 1, ordered);
                assert(later@[n as int]@ == all[n + 1]);
            }
            carried = retain(carried, &later[n].predictions, ordered);
            n += 1;
        }
        proof {
            assert(all.take(n + 1) =~= all);
            lemma_by_trip(all[0].predictions);
            assert forall|trip: TripId| #[trigger]
                carried@.contains_key(trip) implies carried@[trip].trip_id == trip by {
                assert(map_views(carried@).contains_key(trip));
                assert(map_views(carried@)[trip] == carried@[trip]@);
                assert(by_trip(all[0].predictions).contains_key(trip));
            }
        }
        let predictions = drain_by_time(carried);
        let combined = Predictions { time, predictions };
        proof {
            lemma_result_visits_every_set(all, ordered, combined@);
        }
        Some(combined)
    }
}

} // verus!
