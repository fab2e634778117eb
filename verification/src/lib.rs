//! Which bus trips will visit all of a list of stops, and when.
//!
//! One prediction feed is read per stop; the feeds are then reconciled into a
//! single schedule that holds only the trips common to every stop.

pub mod combine;
pub mod combine_proofs;
pub mod error;
pub mod feed;
pub mod format;
pub mod prediction;
pub mod query;
pub mod record;
pub mod request;
pub mod time;

pub use crate::combine::PredictionsCombinator;
pub use crate::error::Error;
pub use crate::feed::parse_feed;
pub use crate::prediction::Prediction;
pub use crate::prediction::Predictions;
pub use crate::prediction::TripId;
pub use crate::query::collect_outcomes;
pub use crate::request::Reply;
pub use crate::request::Request;
pub use crate::time::datetime_from_millis;
pub use crate::time::Timestamp;
