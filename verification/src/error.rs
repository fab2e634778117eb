//! What can go wrong while a feed is fetched and read.

use vstd::prelude::*;

verus! {

/// Why a query for one stop produced no predictions.
#[derive(Debug, PartialEq, Eq)]
pub enum Error {
    /// The feed's content is not of the expected form.
    FeedFormat,
    /// The source does not know the stop of this name.
    BadStopPointName(String),
    /// The source answered with a status that is neither success nor the
    /// rejection of a stop name.
    UnknownStatus(u16),
    /// The exchange itself failed; the text describes the cause.
    Transport(String),
}

/// An [`Error`] with its texts as sequences of characters.
pub enum ErrorView {
    FeedFormat,
    BadStopPointName(Seq<char>),
    UnknownStatus(u16),
    Transport(Seq<char>),
}

impl View for Error {
    type V = ErrorView;

    open spec fn view(&self) -> ErrorView {
        match *self {
            Error::FeedFormat => ErrorView::FeedFormat,
            Error::BadStopPointName(name) => ErrorView::BadStopPointName(name@),
            Error::UnknownStatus(status) => ErrorView::UnknownStatus(status),
            Error::Transport(cause) => ErrorView::Transport(cause@),
        }
    }
}

} // verus!
