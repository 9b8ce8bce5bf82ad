use vstd::prelude::*;
use crate::event::DomainEvent;

verus! {

/// What an engine reports to its logger.
#[derive(Debug, Clone, Copy, PartialEq, Eq, Structural)]
pub enum LogEntry {
    /// An incoming event, as the pass-through engine sees it.
    EventSeen(DomainEvent),
    /// A note struck while no root was set became the new root.
    NewRoot { root: u8 },
    /// An offset key moved the output pitch by `interval` semitones.
    Step { root: u8, interval: i32, step: i32, pitch: u8 },
    /// The last held key was released and the transposer was reset.
    AllReleased,
}

/// A logger's history after it is handed `entry`, if there is one.
pub open spec fn logged_after(history: Seq<LogEntry>, entry: Option<LogEntry>) -> Seq<LogEntry> {
    match entry {
        Some(e) => history.push(e),
        None => history,
    }
}

/// A sink for the engines' log entries, implemented by the host side.
///
/// `history` is the sequence of entries the logger has been handed so far;
/// each call of `log` adds its entry at the end. It is ghost: a logger kept
/// outside the verified code need not define it, and then nothing about its
/// history is claimed.
pub trait Logger {
    open spec fn history(&self) -> Seq<LogEntry> {
        Seq::empty()
    }

    fn log(&mut self, entry: &LogEntry)
        ensures
            final(self).history() == old(self).history().push(*entry),
    ;
}

/// A logger that drops every entry. What it was handed is kept in ghost
/// state only, for proofs; at run time it holds nothing.
pub struct NoopLogger {
    seen: Ghost<Seq<LogEntry>>,
}

impl NoopLogger {
    /// A logger that has been handed nothing yet.
    pub fn new() -> (l: Self)
        ensures
            l.history() == Seq::<LogEntry>::empty(),
    {
        NoopLogger { seen: Ghost(Seq::empty()) }
    }
}

impl Logger for NoopLogger {
    closed spec fn history(&self) -> Seq<LogEntry> {
        self.seen@
    }

    fn log(&mut self, entry: &LogEntry) {
        self.seen = Ghost(self.seen@.push(*entry));
    }
}

} // verus!
