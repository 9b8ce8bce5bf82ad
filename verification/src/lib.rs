//! Verified core of a MIDI interval transposer: the event model, the
//! transposer state machine, the pass-through logger engine and the calendar
//! arithmetic used for build stamps.

pub mod event;
pub mod log;
pub mod transposer;
pub mod transposer_laws;
pub mod calendar;
pub mod passthrough;
