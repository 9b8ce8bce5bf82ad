use vstd::prelude::*;
use crate::event::DomainEvent;
use crate::log::{LogEntry, Logger};

verus! {

/// A diagnostic engine: reports every event to its logger and passes it on untouched.
pub struct LoggerEngine<L: Logger> {
    logger: L,
}

impl<L: Logger> LoggerEngine<L> {
    /// The logger this engine reports to.
    pub closed spec fn logger(&self) -> L {
        self.logger
    }

    /// An engine that reports to `logger`.
    pub fn new(logger: L) -> (e: Self)
        ensures
            e.logger() == logger,
    {
        LoggerEngine { logger }
    }

    /// Reports `event` to the logger, appends it unchanged to `out`, and
    /// returns what it reported.
    pub fn handle_event(&mut self, event: DomainEvent, out: &mut Vec<DomainEvent>) -> (entry: LogEntry)
        ensures
            final(out)@ == old(out)@.push(event),
            entry == LogEntry::EventSeen(event),
            final(self).logger().history() == old(self).logger().history().push(LogEntry::EventSeen(event)),
    {
        let entry = LogEntry::EventSeen(event);
        self.logger.log(&entry);
        out.push(event);
        entry
    }
}

} // verus!
