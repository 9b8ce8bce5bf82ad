use midi_transform::event::DomainEvent;
use midi_transform::log::{LogEntry, NoopLogger};
use midi_transform::passthrough::LoggerEngine;

#[test]
fn every_event_passes_through_unchanged() {
    let mut engine = LoggerEngine::new(NoopLogger::new());
    let mut out = Vec::new();
    let events = [
        DomainEvent::NoteOn { note: 60, velocity: 0.8f32.to_bits(), channel: 1, voice_id: Some(4), timing: 2 },
        DomainEvent::NoteOff { note: 60, velocity: 0.1f32.to_bits(), channel: 1, voice_id: None, timing: 5 },
        DomainEvent::MidiCC { cc: 7, value: 0.25f32.to_bits(), channel: 0, timing: 9 },
    ];
    for e in events {
        assert_eq!(engine.handle_event(e, &mut out), LogEntry::EventSeen(e));
    }
    assert_eq!(out, events.to_vec());
}
