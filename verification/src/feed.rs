//! From the lines of a feed to a set of predictions.
//!
//! A feed is a sequence of lines, each the text of one JSON array. The first
//! line describes the feed and carries the moment of capture; every further
//! line is one prediction.

use vstd::prelude::*;
use crate::error::Error;
use crate::error::ErrorView;
use crate::prediction::Prediction;
use crate::prediction::PredictionView;
use crate::prediction::Predictions;
use crate::prediction::PredictionsView;
use crate::prediction::prediction_views;
use crate::record::Field;
use crate::record::FieldView;
use crate::record::json_array;
use crate::record::parse_record;
use crate::record::record_view;
use crate::time::datetime_from_millis;
use crate::time::Timestamp;

verus! {

/// The capture time that a feed's first record holds, in nanoseconds since
/// the epoch: its third element, an integer count of milliseconds. `None`
/// where the record has no such element.
pub open spec fn capture_time_of(record: Seq<FieldView>) -> Option<int> {
    if record.len() >= 3 && record[2].as_i64 is Some {
        Some(record[2].as_i64->0 * 1_000_000)
    } else {
        None
    }
}

/// The prediction that a record holds: stop, line and destination as strings
/// in its second to fourth element, the trip as an unsigned integer in its
/// fifth, the time as an integer count of milliseconds in its sixth. `None`
/// where the record is shorter or an element is not of that kind.
pub open spec fn prediction_of(record: Seq<FieldView>) -> Option<PredictionView> {
    if record.len() >= 6 && record[1].as_str is Some && record[2].as_str is Some
        && record[3].as_str is Some && record[4].as_u64 is Some && record[5].as_i64 is Some {
        Some(
            PredictionView {
                stop_point_name: record[1].as_str->0,
                line_name: record[2].as_str->0,
                destination_text: record[3].as_str->0,
                trip_id: record[4].as_u64->0,
                estimated_time: record[5].as_i64->0 * 1_000_000,
            },
        )
    } else {
        None
    }
}

/// The predictions that a feed's records hold: the capture time from the
/// first record, one prediction from each further record, in their order.
/// `None` where there is no first record or any record is not of its form.
pub open spec fn feed_of(records: Seq<Seq<FieldView>>) -> Option<PredictionsView> {
    if records.len() >= 1 && capture_time_of(records[0]) is Some && (forall|i: int|
        1 <= i < records.len() ==> (#[trigger] prediction_of(records[i])) is Some) {
        Some(
            PredictionsView {
                time: capture_time_of(records[0])->0,
                predictions: Seq::new(
                    (records.len() - 1) as nat,
                    |i: int| prediction_of(records[i + 1])->0,
                ),
            },
        )
    } else {
        None
    }
}

/// The predictions that a feed's lines hold: those of its records, where
/// every line is the text of one JSON array; else `None`.
pub open spec fn feed_of_lines(lines: Seq<Seq<char>>) -> Option<PredictionsView> {
    if forall|i: int| 0 <= i < lines.len() ==> (#[trigger] json_array(lines[i])) is Some {
        feed_of(Seq::new(lines.len(), |i: int| json_array(lines[i])->0))
    } else {
        None
    }
}

/// A feed whose first line is not the text of a JSON array, or is one of
/// fewer than three elements, holds no predictions, whatever follows.
pub proof fn lemma_malformed_metadata(lines: Seq<Seq<char>>)
    requires
        lines.len() > 0,
        json_array(lines[0]) is None || json_array(lines[0])->0.len() < 3,
    ensures
        feed_of_lines(lines) is None,
{
    if json_array(lines[0]) is Some {
        let records = Seq::new(lines.len(), |i: int| json_array(lines[i])->0);
        assert(capture_time_of(records[0]) is None);
    }
}

/// A feed without a line holds no predictions.
pub proof fn lemma_empty_feed()
    ensures
        feed_of_lines(Seq::empty()) is None,
{
}

/// The views of the records of a feed, in the same order.
pub open spec fn record_views(records: Seq<Vec<Field>>) -> Seq<Seq<FieldView>> {
    records.map_values(|r: Vec<Field>| record_view(r@))
}

/// The texts of the lines of a feed, in the same order.
pub open spec fn line_views(lines: Seq<String>) -> Seq<Seq<char>> {
    lines.map_values(|l: String| l@)
}

/// The capture time that the first record of a feed holds.
///
/// Fails with [`Error::FeedFormat`] exactly where the record has fewer than
/// three elements or its third is no integer that fits `i64`.
pub fn capture_time(record: &Vec<Field>) -> (res: Result<Timestamp, Error>)
    ensures
        match res {
            Ok(time) => capture_time_of(record_view(record@)) == Some(time@),
            Err(e) => e@ == ErrorView::FeedFormat && capture_time_of(record_view(record@)) is None,
        },
{
    if record.len() < 3 {
        return Err(Error::FeedFormat);
    }
    match record[2].as_i64 {
        Some(millis) => Ok(datetime_from_millis(millis)),
        None => Err(Error::FeedFormat),
    }
}

/// The prediction that one record of a feed holds.
///
/// Fails with [`Error::FeedFormat`] exactly where the record has fewer than
/// six elements or one of them is not of the kind that its place asks for.
pub fn prediction_from_record(record: &Vec<Field>) -> (res: Result<Prediction, Error>)
    ensures
        match res {
            Ok(p) => prediction_of(record_view(record@)) == Some(p@),
            Err(e) => e@ == ErrorView::FeedFormat && prediction_of(record_view(record@)) is None,
        },
{
    if record.len() < 6 {
        return Err(Error::FeedFormat);
    }
    match (
        &record[1].as_str,
        &record[2].as_str,
        &record[3].as_str,
        record[4].as_u64,
        record[5].as_i64,
    ) {
        (Some(stop), Some(line), Some(destination), Some(trip_id), Some(millis)) => Ok(
            Prediction {
                stop_point_name: stop.clone(),
                line_name: line.clone(),
                destination_text: destination.clone(),
                trip_id,
                estimated_time: datetime_from_millis(millis),
            },
        ),
        _ => Err(Error::FeedFormat),
    }
}

/// The predictions that the records of a feed hold.
///
/// Fails with [`Error::FeedFormat`] exactly where `feed_of` gives `None`:
/// there is no record at all, the first holds no capture time, or a further
/// one holds no prediction.
pub fn feed_from_records(records: &Vec<Vec<Field>>) -> (res: Result<Predictions, Error>)
    ensures
        match res {
            Ok(p) => feed_of(record_views(records@)) == Some(p@),
            Err(e) => e@ == ErrorView::FeedFormat && feed_of(record_views(records@)) is None,
        },
{
    if records.len() == 0 {
        return Err(Error::FeedFormat);
    }
    let time = match capture_time(&records[0]) {
        Ok(time) => time,
        Err(e) => {
            return Err(e);
        },
    };
    let ghost views = record_views(records@);
    let mut predictions: Vec<Prediction> = Vec::new();
    let mut i: usize = 1;
    while i < records.len()
        invariant
            1 <= i <= records.len(),
            views == record_views(records@),
            predictions@.len() == i - 1,
            forall|j: int| 1 <= j < i ==> prediction_of(views[j]) == Some(#[trigger] predictions@[j - 1]@),
        decreases records.len() - i,
    {
        match prediction_from_record(&records[i]) {
            Ok(p) => {
                predictions.push(p);
            },
            Err(e) => {
                assert(prediction_of(views[i as int]) is None);
                return Err(e);
            },
        }
        i += 1;
    }
    let res = Predictions { time, predictions };
    proof {
        assert forall|j: int| 1 <= j < views.len() implies (#[trigger] prediction_of(
            views[j],
        )) is Some by {
            assert(prediction_of(views[j]) == Some(predictions@[j - 1]@));
        }
        assert(res@.predictions =~= feed_of(views)->0.predictions) by {
            assert forall|j: int| 0 <= j < predictions@.len() implies res@.predictions[j]
                == prediction_of(views[j + 1])->0 by {
                assert(prediction_of(views[j + 1]) == Some(predictions@[j + 1 - 1]@));
            }
        }
    }
    Ok(res)
}

/// The predictions that the lines of a feed hold.
///
/// Fails with [`Error::FeedFormat`] exactly where `feed_of_lines` gives
/// `None`: a line is not the text of one JSON array, or the records are not
/// those of a feed.
pub fn parse_feed(lines: &Vec<String>) -> (res: Result<Predictions, Error>)
    ensures
        match res {
            Ok(p) => feed_of_lines(line_views(lines@)) == Some(p@),
            Err(e) => e@ == ErrorView::FeedFormat && feed_of_lines(line_views(lines@)) is None,
        },
{
    let ghost texts = line_views(lines@);
    let mut records: Vec<Vec<Field>> = Vec::new();
    let mut i: usize = 0;
    while i < lines.len()
        invariant
            i <= lines.len(),
            texts == line_views(lines@),
            records@.len() == i,
            forall|j: int| 0 <= j < i ==> json_array(texts[j]) == Some(#[trigger] record_view(records@[j]@)),
        decreases lines.len() - i,
    {
        match parse_record(lines[i].as_str()) {
            Ok(record) => {
                records.push(record);
            },
            Err(e) => {
                assert(json_array(texts[i as int]) is None);
                return Err(e);
            },
        }
        i += 1;
    }
    proof {
        assert forall|j: int| 0 <= j < texts.len() implies (#[trigger] json_array(texts[j])) is Some by {
            assert(json_array(texts[j]) == Some(record_view(records@[j]@)));
        }
        assert(record_views(records@) =~= Seq::new(texts.len(), |j: int| json_array(texts[j])->0)) by {
            assert forall|j: int| 0 <= j < texts.len() implies record_views(records@)[j] == json_array(texts[j])->0 by {
                assert(json_array(texts[j]) == Some(record_view(records@[j]@)));
            }
        }
    }
    feed_from_records(&records)
}

} // verus!
