//! One line of a feed, read as a JSON array.

use vstd::prelude::*;
use crate::error::Error;
use crate::error::ErrorView;

verus! {

/// What a reader can ask of one element of a JSON array: the element as a
/// signed integer, as an unsigned integer and as a string. Each is `None`
/// where the element is not of that kind.
#[derive(Clone, Debug, PartialEq, Eq)]
pub struct Field {
    /// The element where it is an integer that fits `i64`.
    pub as_i64: Option<i64>,
    /// The element where it is an integer that is not negative.
    pub as_u64: Option<u64>,
    /// The element where it is a string.
    pub as_str: Option<String>,
}

/// A [`Field`] with its string as a sequence of characters.
pub struct FieldView {
    pub as_i64: Option<i64>,
    pub as_u64: Option<u64>,
    pub as_str: Option<Seq<char>>,
}

impl View for Field {
    type V = FieldView;

    open spec fn view(&self) -> FieldView {
        FieldView {
            as_i64: self.as_i64,
            as_u64: self.as_u64,
            as_str: match self.as_str {
                Some(s) => Some(s@),
                None => None,
            },
        }
    }
}

/// The views of the fields of one record, in the same order.
pub open spec fn record_view(fields: Seq<Field>) -> Seq<FieldView> {
    fields.map_values(|f: Field| f@)
}

/// The view of what reading a line gave: the record's view, or `None`.
pub open spec fn optional_record_view(fields: Option<Vec<Field>>) -> Option<Seq<FieldView>> {
    match fields {
        Some(fields) => Some(record_view(fields@)),
        None => None,
    }
}

/// The elements of the JSON array that `line` holds, each as a [`FieldView`];
/// `None` where `line` is not the text of one JSON array.
pub uninterp spec fn json_array(line: Seq<char>) -> Option<Seq<FieldView>>;

/// Reads `line` with `serde_json::from_str` as a `serde_json::Value` and, where
/// that is an array (`Value::as_array`), hands out each element as the three
/// readings `Value::as_i64`, `Value::as_u64` and `Value::as_str`.
///
/// Not proved: that the result is `json_array` of the line. That is what
/// gives `json_array` its meaning.
#[verifier::external_body]
fn read_json_array(line: &str) -> (fields: Option<Vec<Field>>)
    ensures
        optional_record_view(fields) == json_array(line@),
{
    let value = serde_json::from_str::<serde_json::Value>(line).ok()?;
    let elements = value.as_array()?;
    let mut fields = Vec::with_capacity(elements.len());
    for element in elements {
        let as_str = element.as_str().map(String::from);
        fields.push(Field { as_i64: element.as_i64(), as_u64: element.as_u64(), as_str });
    }
    Some(fields)
}

/// Reads one line of a feed as a JSON array.
///
/// Fails with [`Error::FeedFormat`] exactly where the line is not the text of
/// one JSON array.
pub fn parse_record(line: &str) -> (res: Result<Vec<Field>, Error>)
    ensures
        match res {
            Ok(fields) => json_array(line@) == Some(record_view(fields@)),
            Err(e) => e@ == ErrorView::FeedFormat && json_array(line@) is None,
        },
{
    match read_json_array(line) {
        Some(fields) => Ok(fields),
        None => Err(Error::FeedFormat),
    }
}

} // verus!
