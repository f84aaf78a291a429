//! `msg` reads and sends iMessages from the command line.
//!
//! The library half is what both binaries decide by: which message a tapback
//! lands on, whose conversation a name means, what a frame on the wire says.
//! Opening databases, sockets and processes is the programs' own business.
use vstd::prelude::*;

pub mod access;
pub mod address_book;
pub mod apple;
pub mod attachments;
pub mod bodies;
pub mod chats;
pub mod cli;
pub mod contacts;
pub mod context;
pub mod daemon;
pub mod db;
pub mod double;
pub mod fetch;
pub mod format;
pub mod iso;
pub mod matching;
pub mod order;
pub mod people;
pub mod queries;
pub mod replies;
pub mod resolve;
pub mod source;
pub mod sql;
pub mod tapbacks;
pub mod text;
pub mod wide;

verus! {

/// One version string, shared by the CLI, the daemon, and their handshake.
pub const VERSION: &'static str = "0.1.0";

/// What went wrong, in the shapes the wire protocol distinguishes.
#[derive(Debug)]
pub enum Error {
    /// The data is there and the grant is not. Exit status 2.
    AccessDenied(String),
    /// Sending is switched off in the config, which is not a failure.
    SendDisabled(String),
    /// A name reaches more than one person, and the message says who.
    Ambiguous(String),
    Other(String),
}

/// An [`Error`], by the characters of its message.
#[verifier::ext_equal]
pub enum ErrorView {
    AccessDenied(Seq<char>),
    SendDisabled(Seq<char>),
    Ambiguous(Seq<char>),
    Other(Seq<char>),
}

impl ErrorView {
    /// The message, whatever went wrong.
    pub open spec fn message(self) -> Seq<char> {
        match self {
            ErrorView::AccessDenied(message) => message,
            ErrorView::SendDisabled(message) => message,
            ErrorView::Ambiguous(message) => message,
            ErrorView::Other(message) => message,
        }
    }
}

impl View for Error {
    type V = ErrorView;

    open spec fn view(&self) -> ErrorView {
        match self {
            Error::AccessDenied(message) => ErrorView::AccessDenied(message@),
            Error::SendDisabled(message) => ErrorView::SendDisabled(message@),
            Error::Ambiguous(message) => ErrorView::Ambiguous(message@),
            Error::Other(message) => ErrorView::Other(message@),
        }
    }
}

impl Error {
    /// A failure with nothing special about it.
    pub fn other(message: &str) -> (out: Error)
        ensures
            out@ == ErrorView::Other(message@),
    {
        Error::Other(message.to_owned())
    }

    /// What to tell the person: the message itself, whatever the shape.
    pub fn to_string(&self) -> (out: String)
        ensures
            out@ == self@.message(),
    {
        match self {
            Error::AccessDenied(message) => message.clone(),
            Error::SendDisabled(message) => message.clone(),
            Error::Ambiguous(message) => message.clone(),
            Error::Other(message) => message.clone(),
        }
    }
}

/// A `--since` that cannot be read is an ordinary failure, in its own words.
pub fn unusable_time(error: &apple::ParseTimeError) -> (out: Error)
    ensures
        out@ == ErrorView::Other(error.said()),
{
    Error::Other(error.to_string())
}

} // verus!
