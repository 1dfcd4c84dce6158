//! Delivery of kernel events.

use vstd::prelude::*;

use crate::format::event::WperfEvent;
use crate::format::stream::StreamError;

pub mod config;
pub mod reorder;

pub use config::TransportConfig;
pub use reorder::ReorderBuf;

verus! {

/// Why events could not be delivered.
#[derive(Debug, Clone)]
pub enum TransportError {
    /// Polling the kernel failed.
    Poll(String),
    Io(StreamError),
}

impl TransportError {
    /// The text of the error.
    pub open spec fn text(&self) -> Seq<char> {
        match self {
            TransportError::Poll(msg) => "transport poll error: "@ + msg@,
            TransportError::Io(e) => "transport I/O error: "@ + e.text(),
        }
    }

    /// The error in words.
    pub fn message(&self) -> (s: String)
        ensures
            s@ == self.text(),
    {
        match self {
            TransportError::Poll(msg) => {
                let mut s = "transport poll error: ".to_owned();
                s.append(msg.as_str());
                s
            },
            TransportError::Io(e) => {
                let mut s = "transport I/O error: ".to_owned();
                s.append(e.message().as_str());
                s
            },
        }
    }

    /// The error of the stream behind this one, if there is any.
    pub fn source(&self) -> (r: Option<&StreamError>)
        ensures
            r == (match self {
                TransportError::Io(e) => Some(e),
                TransportError::Poll(_) => None,
            }),
    {
        match self {
            TransportError::Io(e) => Some(e),
            TransportError::Poll(_) => None,
        }
    }
}

/// A source of kernel events. Ring buffers and per-CPU buffers both are.
pub trait EventTransport {
    /// Waits for events, for `timeout_ms` milliseconds at most, and appends those
    /// that came to `out`. Returns how many these are.
    fn poll(&mut self, timeout_ms: i32, out: &mut Vec<WperfEvent>) -> (r: Result<
        usize,
        TransportError,
    >)
        ensures
            old(out)@.is_prefix_of(final(out)@),
            r matches Ok(n) ==> final(out)@.len() == old(out)@.len() + n,
    ;

    /// Appends to `out` the events that are still held. Returns how many these
    /// are.
    fn drain(&mut self, out: &mut Vec<WperfEvent>) -> (n: usize)
        ensures
            old(out)@.is_prefix_of(final(out)@),
            final(out)@.len() == old(out)@.len() + n,
    ;

    /// How many events were lost so far.
    fn drop_count(&self) -> (n: u64);
}

} // verus!
