//! Predictions and the snapshot that one query returns.

use vstd::prelude::*;
use crate::time::Timestamp;

verus! {

/// Identifies one vehicle journey; it is the same at every stop that the
/// journey visits.
pub type TripId = u64;

/// One vehicle's predicted visit to one stop.
#[derive(Clone, Debug, PartialEq, Eq)]
pub struct Prediction {
    /// The stop at which the visit is predicted.
    pub stop_point_name: String,
    /// The label of the service or route.
    pub line_name: String,
    /// The destination, as shown to passengers.
    pub destination_text: String,
    /// The journey that makes the visit.
    pub trip_id: TripId,
    /// When the vehicle is expected at the stop.
    pub estimated_time: Timestamp,
}

/// A [`Prediction`] with its texts as sequences of characters and its time
/// as nanoseconds since the epoch.
pub struct PredictionView {
    pub stop_point_name: Seq<char>,
    pub line_name: Seq<char>,
    pub destination_text: Seq<char>,
    pub trip_id: TripId,
    pub estimated_time: int,
}

impl View for Prediction {
    type V = PredictionView;

    open spec fn view(&self) -> PredictionView {
        PredictionView {
            stop_point_name: self.stop_point_name@,
            line_name: self.line_name@,
            destination_text: self.destination_text@,
            trip_id: self.trip_id,
            estimated_time: self.estimated_time@,
        }
    }
}

/// The predictions of one query, with the moment at which the source
/// computed them.
#[derive(Debug, PartialEq, Eq)]
pub struct Predictions {
    /// The moment of capture, from which the minutes until arrival count.
    pub time: Timestamp,
    /// The predictions, in the order in which they were received or, in a
    /// combined result, by ascending time.
    pub predictions: Vec<Prediction>,
}

/// A [`Predictions`] as a capture time in nanoseconds since the epoch and a
/// sequence of prediction views.
pub struct PredictionsView {
    pub time: int,
    pub predictions: Seq<PredictionView>,
}

/// The views of a sequence of predictions, in the same order.
pub open spec fn prediction_views(predictions: Seq<Prediction>) -> Seq<PredictionView> {
    predictions.map_values(|p: Prediction| p@)
}

/// Whether no two of the predictions are of one trip. A feed is meant to
/// hold each trip once; a combined result always does.
pub open spec fn distinct_trips(predictions: Seq<PredictionView>) -> bool {
    forall|i: int, j: int|
        0 <= i < j < predictions.len() ==> (#[trigger] predictions[i]).trip_id
            != (#[trigger] predictions[j]).trip_id
}

impl View for Predictions {
    type V = PredictionsView;

    open spec fn view(&self) -> PredictionsView {
        PredictionsView {
            time: self.time@,
            predictions: prediction_views(self.predictions@),
        }
    }
}

} // verus!
