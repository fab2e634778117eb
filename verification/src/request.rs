//! The query for one stop: what is asked of the source, and what its reply
//! means.

use vstd::prelude::*;
use vstd::string::StringExecFns;
use crate::error::Error;
use crate::error::ErrorView;
use crate::feed::feed_of_lines;
use crate::feed::line_views;
use crate::feed::parse_feed;
use crate::prediction::Predictions;
use crate::prediction::PredictionsView;

verus! {

/// The status with which the source answers a query that it has served.
pub const STATUS_OK: u16 = 200;

/// The status with which the source rejects a filter, such as the name of a
/// stop that it does not know.
pub const STATUS_RANGE_NOT_SATISFIABLE: u16 = 416;

/// A query for the predictions of one stop or, without a name, of all stops.
#[derive(Debug, PartialEq, Eq)]
pub struct Request {
    pub stop_point_name: Option<String>,
}

/// What came back when a query was sent.
#[derive(Debug, PartialEq, Eq)]
pub enum Reply {
    /// The source answered with a status and a body, given line by line.
    Answer { status: u16, lines: Vec<String> },
    /// No answer arrived; the text describes the cause.
    Failure(String),
}

/// A [`Reply`] with its texts as sequences of characters.
pub enum ReplyView {
    Answer { status: u16, lines: Seq<Seq<char>> },
    Failure(Seq<char>),
}

impl View for Reply {
    type V = ReplyView;

    open spec fn view(&self) -> ReplyView {
        match *self {
            Reply::Answer { status, lines } => ReplyView::Answer {
                status,
                lines: line_views(lines@),
            },
            Reply::Failure(cause) => ReplyView::Failure(cause@),
        }
    }
}

/// The view of a name that may be absent.
pub open spec fn optional_text(text: Option<String>) -> Option<Seq<char>> {
    match text {
        Some(text) => Some(text@),
        None => None,
    }
}

/// The view of the outcome of a query.
pub open spec fn outcome_view(outcome: Result<Predictions, Error>) -> Result<
    PredictionsView,
    ErrorView,
> {
    match outcome {
        Ok(predictions) => Ok(predictions@),
        Err(e) => Err(e@),
    }
}

/// The query string for a stop: the list of the columns that the feed is to
/// hold and, where a stop is named, the filter on its name.
pub open spec fn query_of(stop_point_name: Option<Seq<char>>) -> Seq<char> {
    match stop_point_name {
        Some(name) => "ReturnList=StopPointName,LineName,DestinationText,EstimatedTime,TripID"@
            + "&StopPointName="@ + name,
        None => "ReturnList=StopPointName,LineName,DestinationText,EstimatedTime,TripID"@,
    }
}

/// What a reply means for a query with the given stop name.
///
/// A failed exchange is a transport error with its cause. An answer with
/// status 200 is read as a feed. An answer with status 416 to a query that
/// names a stop says that the stop is unknown. Every other answer is an
/// unknown status.
pub open spec fn outcome_of(stop_point_name: Option<Seq<char>>, reply: ReplyView) -> Result<
    PredictionsView,
    ErrorView,
> {
    match reply {
        ReplyView::Failure(cause) => Err(ErrorView::Transport(cause)),
        ReplyView::Answer { status, lines } => {
            if status == STATUS_OK {
                match feed_of_lines(lines) {
                    Some(predictions) => Ok(predictions),
                    None => Err(ErrorView::FeedFormat),
                }
            } else if status == STATUS_RANGE_NOT_SATISFIABLE && stop_point_name is Some {
                Err(ErrorView::BadStopPointName(stop_point_name->0))
            } else {
                Err(ErrorView::UnknownStatus(status))
            }
        },
    }
}

/// The status that rejects a filter means an unknown stop where the query
/// names a stop, and an unknown status where it names none, whatever the
/// body holds.
pub proof fn lemma_rejected_filter(name: Seq<char>, lines: Seq<Seq<char>>)
    ensures
        outcome_of(
            Some(name),
            ReplyView::Answer { status: STATUS_RANGE_NOT_SATISFIABLE, lines },
        ) == Err::<PredictionsView, ErrorView>(ErrorView::BadStopPointName(name)),
        outcome_of(None, ReplyView::Answer { status: STATUS_RANGE_NOT_SATISFIABLE, lines })
            == Err::<PredictionsView, ErrorView>(
            ErrorView::UnknownStatus(STATUS_RANGE_NOT_SATISFIABLE),
        ),
{
}

/// Whether an answer with this status carries a feed in its body.
pub fn carries_feed(status: u16) -> (b: bool)
    ensures
        b == (status == STATUS_OK),
{
    status == STATUS_OK
}

impl Request {
    /// The query for the predictions of the stop of this name.
    pub fn with_stop_point_name(stop_point_name: String) -> (request: Self)
        ensures
            request.stop_point_name == Some(stop_point_name),
    {
        Request { stop_point_name: Some(stop_point_name) }
    }

    /// The address to fetch: `base_url` followed by the query string.
    pub fn url(&self, base_url: &str) -> (url: String)
        ensures
            url@ == base_url@ + query_of(optional_text(self.stop_point_name)),
    {
        let mut url = String::from_str(base_url);
        url.append("ReturnList=StopPointName,LineName,DestinationText,EstimatedTime,TripID");
        match &self.stop_point_name {
            Some(name) => {
                url.append("&StopPointName=");
                url.append(name.as_str());
            },
            None => {},
        }
        url
    }

    /// The outcome of the query, given what came back when it was sent.
    pub fn receive(self, reply: Reply) -> (outcome: Result<Predictions, Error>)
        ensures
            outcome_view(outcome) == outcome_of(optional_text(self.stop_point_name), reply@),
    {
        match reply {
            Reply::Failure(cause) => Err(Error::Transport(cause)),
            Reply::Answer { status, lines } => {
                if carries_feed(status) {
                    parse_feed(&lines)
                } else if status == STATUS_RANGE_NOT_SATISFIABLE {
                    match self.stop_point_name {
                        Some(name) => Err(Error::BadStopPointName(name)),
                        None => Err(Error::UnknownStatus(status)),
                    }
                } else {
                    Err(Error::UnknownStatus(status))
                }
            },
        }
    }
}

} // verus!
