//! Decoded access-log records, as the collector reads them.
//!
//! An entry holds texts, whole numbers and instants only. Addresses, status
//! codes, methods and URIs stand here as the text that a report shows for
//! them; a latency stands as its whole seconds.

use crate::window::Timestamp;
use vstd::prelude::*;

verus! {

/// The request line of an entry.
#[derive(Clone, Debug, PartialEq, Eq)]
pub enum RequestLine {
    /// A request line that could be read: the method, the path, and the path
    /// with its query string where the request had a usable URI.
    Valid { method: String, path: String, path_and_query: Option<String> },
    /// A request line whose path could not be read; the text is kept.
    InvalidPath(String),
    /// Something that is no request line at all; the text is kept.
    InvalidRequest(String),
}

/// An entry in the common log format.
#[derive(Clone, Debug, PartialEq, Eq)]
pub struct CommonLogEntry {
    pub ip: String,
    pub timestamp: Timestamp,
    pub request: RequestLine,
    pub status_code: String,
}

/// An entry in the combined log format.
#[derive(Clone, Debug, PartialEq, Eq)]
pub struct CombinedLogEntry {
    pub ip: String,
    pub timestamp: Timestamp,
    pub request: RequestLine,
    pub status_code: String,
    pub referrer: Option<String>,
    pub user_agent: Option<String>,
}

/// An entry of a Cloud Controller log.
#[derive(Clone, Debug, PartialEq, Eq)]
pub struct CloudControllerLogEntry {
    pub request_host: String,
    pub timestamp: Timestamp,
    pub request: RequestLine,
    pub status_code: String,
    pub referrer: Option<String>,
    pub user_agent: Option<String>,
    pub x_forwarded_for: Vec<String>,
    pub response_time: Option<usize>,
}

/// An entry of a Gorouter log.
#[derive(Clone, Debug, PartialEq, Eq)]
pub struct GorouterLogEntry {
    pub request_host: String,
    pub timestamp: Timestamp,
    pub request: RequestLine,
    pub status_code: String,
    pub referrer: Option<String>,
    pub user_agent: Option<String>,
    pub remote_addr: String,
    pub backend_addr: Option<String>,
    pub x_forwarded_for: Vec<String>,
    pub response_time: Option<usize>,
    pub gorouter_time: Option<usize>,
    pub app_id: Option<String>,
    pub app_index: Option<u16>,
    pub x_cf_routererror: Option<String>,
}

/// A decoded entry, tagged by the format it was written in.
#[derive(Clone, Debug, PartialEq, Eq)]
pub enum LogEntry {
    CommonLog(CommonLogEntry),
    CombinedLog(CombinedLogEntry),
    GorouterLog(GorouterLogEntry),
    CloudControllerLog(CloudControllerLogEntry),
}

/// The key under which an entry without the text in question is counted.
pub open spec fn none_marker() -> Seq<char> {
    "<none>"@
}

/// The text, or `<none>` where there is none.
pub open spec fn text_or_marker(text: Option<String>) -> Seq<char> {
    match text {
        Some(text) => text@,
        None => none_marker(),
    }
}

/// The characters of each of `parts`.
pub open spec fn texts(parts: Seq<String>) -> Seq<Seq<char>> {
    Seq::new(parts.len(), |i: int| parts[i]@)
}

/// The parts in their order, with `", "` between each two neighbours.
pub open spec fn joined(parts: Seq<Seq<char>>) -> Seq<char>
    decreases parts.len(),
{
    if parts.len() == 0 {
        Seq::empty()
    } else if parts.len() == 1 {
        parts[0]
    } else {
        joined(parts.drop_last()) + ", "@ + parts.last()
    }
}

impl RequestLine {
    /// The method, where the request line could be read.
    pub open spec fn method(self) -> Option<Seq<char>> {
        match self {
            RequestLine::Valid { method, path, path_and_query } => Some(method@),
            RequestLine::InvalidPath(text) => None,
            RequestLine::InvalidRequest(text) => None,
        }
    }

    /// The path without its query string; empty where the request line could
    /// not be read.
    pub open spec fn path_no_query(self) -> Seq<char> {
        match self {
            RequestLine::Valid { method, path, path_and_query } => path@,
            RequestLine::InvalidPath(text) => Seq::empty(),
            RequestLine::InvalidRequest(text) => Seq::empty(),
        }
    }

    /// The path with its query string, or `<none>` where the request had no
    /// usable URI; the text as it was logged where the request line could
    /// not be read.
    pub open spec fn path_with_query(self) -> Seq<char> {
        match self {
            RequestLine::Valid { method, path, path_and_query } => text_or_marker(path_and_query),
            RequestLine::InvalidPath(text) => text@,
            RequestLine::InvalidRequest(text) => text@,
        }
    }
}

/// Joins the parts of a chain in their order, with `", "` between each two
/// neighbours.
pub fn join_chain(parts: &Vec<String>) -> (text: String)
    ensures
        text@ == joined(texts(parts@)),
{
    let mut text = String::new();
    let mut i: usize = 0;
    while i < parts.len()
        invariant
            i <= parts@.len(),
            text@ == joined(texts(parts@).take(i as int)),
        decreases parts@.len() - i,
    {
        if i > 0 {
            text.append(", ");
        }
        text.append(parts[i].as_str());
        i = i + 1;
        proof {
            let done = texts(parts@).take(i as int);
            assert(done.drop_last() =~= texts(parts@).take(i - 1));
            assert(done.last() == parts@[i - 1]@);
            if i == 1 {
                assert(text@ =~= done[0]);
            }
        }
    }
    proof {
        assert(texts(parts@).take(i as int) =~= texts(parts@));
    }
    text
}

impl LogEntry {
    /// The instant at which the request was logged.
    pub open spec fn timestamp(self) -> Timestamp {
        match self {
            LogEntry::CommonLog(log) => log.timestamp,
            LogEntry::CombinedLog(log) => log.timestamp,
            LogEntry::GorouterLog(log) => log.timestamp,
            LogEntry::CloudControllerLog(log) => log.timestamp,
        }
    }
}

} // verus!
