use midi_transform::event::DomainEvent;
use midi_transform::log::{LogEntry, NoopLogger};
use midi_transform::transposer::TransposerEngine;

fn vel(v: f32) -> u32 {
    v.to_bits()
}

fn note_on(note: u8) -> DomainEvent {
    DomainEvent::NoteOn { note, velocity: vel(0.8), channel: 0, voice_id: None, timing: 0 }
}

fn note_off(note: u8) -> DomainEvent {
    DomainEvent::NoteOff { note, velocity: vel(0.0), channel: 0, voice_id: None, timing: 0 }
}

#[test]
fn test_root_note_assignment() {
    let mut engine = TransposerEngine::new(NoopLogger::new());
    let mut emitted = Vec::new();

    let root_event = DomainEvent::NoteOn {
        note: 60,
        velocity: vel(0.8),
        channel: 0,
        voice_id: None,
        timing: 0,
    };

    engine.handle_event(root_event, &mut emitted);

    assert_eq!(emitted.len(), 1);
    assert_eq!(emitted[0], root_event);
    assert_eq!(engine.root_note(), Some(60));
    assert_eq!(engine.current_pitch(), Some(60));
}

#[test]
fn test_interval_accumulation() {
    let mut engine = TransposerEngine::new(NoopLogger::new());
    let mut emitted = Vec::new();
    let mut ignored = Vec::new();

    // 1. Trigger C3 (60) -> Root Assignment
    engine.handle_event(
        DomainEvent::NoteOn { note: 60, velocity: vel(0.8), channel: 0, voice_id: None, timing: 0 },
        &mut ignored,
    );

    // 2. Play E3 (64) while holding C3 -> +4 semitones (Target 64)
    engine.handle_event(
        DomainEvent::NoteOn { note: 64, velocity: vel(0.8), channel: 0, voice_id: None, timing: 0 },
        &mut emitted,
    );

    assert_eq!(emitted.len(), 2);
    assert_eq!(
        emitted[0],
        DomainEvent::NoteOff { note: 60, velocity: vel(0.0), channel: 0, voice_id: None, timing: 0 }
    );
    assert_eq!(
        emitted[1],
        DomainEvent::NoteOn { note: 64, velocity: vel(0.8), channel: 0, voice_id: None, timing: 0 }
    );
    assert_eq!(engine.current_pitch(), Some(64));
}

#[test]
fn walkthrough_from_design_table() {
    let mut engine = TransposerEngine::new(NoopLogger::new());
    let mut out = Vec::new();
    assert_eq!(engine.handle_event(note_on(60), &mut out), Some(LogEntry::NewRoot { root: 60 }));
    assert_eq!(out, vec![note_on(60)]);
    assert_eq!(engine.step_count(), 0);

    out.clear();
    engine.handle_event(note_on(64), &mut out);
    assert_eq!(engine.current_pitch(), Some(64));
    assert_eq!(engine.step_count(), 1);

    // Re-strike E3: another +4 -> G#3 (68); the key's previous pitch is released first.
    out.clear();
    let entry = engine.handle_event(note_on(64), &mut out);
    assert_eq!(entry, Some(LogEntry::Step { root: 60, interval: 4, step: 2, pitch: 68 }));
    assert_eq!(out, vec![note_off(64), note_on(68)]);

    // Strike F3 (65) while holding C3: +5 -> C#4 (73).
    out.clear();
    engine.handle_event(note_on(65), &mut out);
    assert_eq!(out, vec![note_on(73)]);
    assert_eq!(engine.current_pitch(), Some(73));
    assert_eq!(engine.step_count(), 3);
    assert_eq!(engine.root_note(), Some(60));
}

#[test]
fn negative_intervals_step_downward() {
    let mut engine = TransposerEngine::new(NoopLogger::new());
    let mut out = Vec::new();
    engine.handle_event(note_on(60), &mut out);
    engine.handle_event(note_on(57), &mut out);
    assert_eq!(engine.current_pitch(), Some(57));
    engine.handle_event(note_on(57), &mut out);
    assert_eq!(engine.current_pitch(), Some(54));
    engine.handle_event(note_on(57), &mut out);
    assert_eq!(engine.current_pitch(), Some(51));
}

#[test]
fn pitch_is_clamped_to_midi_range() {
    let mut engine = TransposerEngine::new(NoopLogger::new());
    let mut out = Vec::new();
    engine.handle_event(note_on(0), &mut out);
    engine.handle_event(note_on(100), &mut out);
    assert_eq!(engine.current_pitch(), Some(100));
    out.clear();
    engine.handle_event(note_on(100), &mut out);
    assert_eq!(engine.current_pitch(), Some(127));
    assert_eq!(out, vec![note_off(100), note_on(127)]);

    let mut engine = TransposerEngine::new(NoopLogger::new());
    engine.handle_event(note_on(120), &mut out);
    engine.handle_event(note_on(10), &mut out);
    assert_eq!(engine.current_pitch(), Some(10));
    engine.handle_event(note_on(10), &mut out);
    assert_eq!(engine.current_pitch(), Some(0));
}

#[test]
fn root_restrike_sends_nothing() {
    let mut engine = TransposerEngine::new(NoopLogger::new());
    let mut out = Vec::new();
    engine.handle_event(note_on(60), &mut out);
    out.clear();
    assert_eq!(engine.handle_event(note_on(60), &mut out), None);
    assert!(out.is_empty());
    assert_eq!(engine.current_pitch(), Some(60));
    assert_eq!(engine.step_count(), 0);
}

#[test]
fn releasing_all_keys_resets() {
    let mut engine = TransposerEngine::new(NoopLogger::new());
    let mut out = Vec::new();
    engine.handle_event(note_on(60), &mut out);
    engine.handle_event(note_on(64), &mut out);

    // Releasing the root keeps the state while E3 is held; C3 no longer sounds.
    out.clear();
    assert_eq!(engine.handle_event(note_off(60), &mut out), None);
    assert!(out.is_empty());
    assert_eq!(engine.root_note(), Some(60));

    // Releasing E3 silences its pitch and resets.
    out.clear();
    assert_eq!(engine.handle_event(note_off(64), &mut out), Some(LogEntry::AllReleased));
    assert_eq!(out, vec![note_off(64)]);
    assert_eq!(engine.root_note(), None);
    assert_eq!(engine.current_pitch(), None);
    assert_eq!(engine.step_count(), 0);

    // The next key is a new root.
    out.clear();
    engine.handle_event(note_on(62), &mut out);
    assert_eq!(out, vec![note_on(62)]);
    assert_eq!(engine.root_note(), Some(62));
}

#[test]
fn note_offs_carry_the_voice_and_zero_velocity() {
    let mut engine = TransposerEngine::new(NoopLogger::new());
    let mut out = Vec::new();
    let on = |note: u8, voice: i32| DomainEvent::NoteOn {
        note,
        velocity: vel(0.5),
        channel: 3,
        voice_id: Some(voice),
        timing: 7,
    };
    engine.handle_event(on(60, 1), &mut out);
    out.clear();
    engine.handle_event(on(67, 2), &mut out);
    assert_eq!(
        out,
        vec![
            DomainEvent::NoteOff { note: 60, velocity: 0, channel: 3, voice_id: Some(1), timing: 7 },
            DomainEvent::NoteOn { note: 67, velocity: vel(0.5), channel: 3, voice_id: Some(2), timing: 7 },
        ]
    );
    out.clear();
    engine.handle_event(
        DomainEvent::NoteOff { note: 67, velocity: vel(0.3), channel: 5, voice_id: None, timing: 9 },
        &mut out,
    );
    assert_eq!(out, vec![DomainEvent::NoteOff { note: 67, velocity: 0, channel: 5, voice_id: Some(2), timing: 9 }]);
}

#[test]
fn controller_changes_pass_through() {
    let mut engine = TransposerEngine::new(NoopLogger::new());
    let mut out = Vec::new();
    engine.handle_event(note_on(60), &mut out);
    out.clear();
    let cc = DomainEvent::MidiCC { cc: 64, value: vel(1.0), channel: 0, timing: 3 };
    assert_eq!(engine.handle_event(cc, &mut out), None);
    assert_eq!(out, vec![cc]);
    assert_eq!(engine.root_note(), Some(60));
}

#[test]
fn high_notes_share_the_slot_of_their_low_seven_bits() {
    let mut engine = TransposerEngine::new(NoopLogger::new());
    let mut out = Vec::new();
    engine.handle_event(note_on(60), &mut out);
    out.clear();
    // 188 is slot 60: the root's pitch is released once, then the step sounds.
    engine.handle_event(note_on(188), &mut out);
    assert_eq!(out, vec![note_off(60), note_on(127)]);
}
