use midi_transform::event::DomainEvent;
use midi_transform::log::{LogEntry, Logger};
use midi_transform::passthrough::LoggerEngine;
use midi_transform::transposer::TransposerEngine;
use std::cell::RefCell;
use std::rc::Rc;

struct Recorder(Rc<RefCell<Vec<LogEntry>>>);

impl Logger for Recorder {
    fn log(&mut self, entry: &LogEntry) {
        self.0.borrow_mut().push(*entry);
    }
}

fn on(note: u8) -> DomainEvent {
    DomainEvent::NoteOn { note, velocity: 1, channel: 0, voice_id: None, timing: 0 }
}

fn off(note: u8) -> DomainEvent {
    DomainEvent::NoteOff { note, velocity: 0, channel: 0, voice_id: None, timing: 0 }
}

#[test]
fn logger_engine_reports_each_event_once() {
    let seen = Rc::new(RefCell::new(Vec::new()));
    let mut engine = LoggerEngine::new(Recorder(seen.clone()));
    let mut out = Vec::new();
    let cc = DomainEvent::MidiCC { cc: 1, value: 2, channel: 3, timing: 4 };
    engine.handle_event(on(60), &mut out);
    engine.handle_event(cc, &mut out);
    assert_eq!(*seen.borrow(), vec![LogEntry::EventSeen(on(60)), LogEntry::EventSeen(cc)]);
}

#[test]
fn transposer_reports_roots_steps_and_resets_only() {
    let seen = Rc::new(RefCell::new(Vec::new()));
    let mut engine = TransposerEngine::new(Recorder(seen.clone()));
    let mut out = Vec::new();
    engine.handle_event(on(60), &mut out);
    engine.handle_event(DomainEvent::MidiCC { cc: 1, value: 2, channel: 0, timing: 0 }, &mut out);
    engine.handle_event(on(64), &mut out);
    engine.handle_event(off(60), &mut out);
    engine.handle_event(on(60), &mut out);
    engine.handle_event(off(64), &mut out);
    engine.handle_event(off(60), &mut out);
    assert_eq!(
        *seen.borrow(),
        vec![
            LogEntry::NewRoot { root: 60 },
            LogEntry::Step { root: 60, interval: 4, step: 1, pitch: 64 },
            LogEntry::AllReleased,
        ]
    );
}

#[test]
fn output_note_offs_pair_with_note_ons() {
    let seen = Rc::new(RefCell::new(Vec::new()));
    let mut engine = TransposerEngine::new(Recorder(seen));
    let mut out = Vec::new();
    for e in [on(60), on(64), on(64), on(57), off(64), on(70), off(60), off(57), off(70)] {
        engine.handle_event(e, &mut out);
    }
    let count = |on: bool, note: u8| {
        out.iter()
            .filter(|e| match e {
                DomainEvent::NoteOn { note: n, .. } => on && *n == note,
                DomainEvent::NoteOff { note: n, .. } => !on && *n == note,
                _ => false,
            })
            .count()
    };
    for note in 0..=127u8 {
        assert_eq!(count(true, note), count(false, note), "note {}", note);
    }
}
