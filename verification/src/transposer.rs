use vstd::prelude::*;
use crate::event::{DomainEvent, ZERO_VELOCITY};
use crate::log::{logged_after, LogEntry, Logger};
use crate::transposer_laws::lemma_transition_keeps_wf;

verus! {

/// Number of key slots: one per 7-bit MIDI note number.
pub const NOTE_SLOTS: usize = 128;

/// The abstract state of a transposer.
pub struct EngineState {
    /// Which key slots are held down.
    pub held: Seq<bool>,
    /// For each key slot, the output pitch it sounds and the voice it was sent with.
    pub sounding: Seq<Option<(u8, Option<i32>)>>,
    /// The root note, once one is set.
    pub root: Option<u8>,
    /// The last output pitch.
    pub current: Option<u8>,
    /// How many interval steps were taken since the root was set.
    pub steps: int,
}

/// What one event does to a transposer: its next state, the events it sends
/// out in order, and what it reports to the logger.
pub struct Transition {
    pub next: EngineState,
    pub out: Seq<DomainEvent>,
    pub entry: Option<LogEntry>,
}

/// The key slot of a note: its low seven bits.
pub open spec fn slot(note: u8) -> int {
    note as int % 128
}

/// A pitch held to the 7-bit MIDI range.
pub open spec fn clamp_pitch(p: int) -> int {
    if p < 0 {
        0
    } else if p > 127 {
        127
    } else {
        p
    }
}

/// No key slot sounds.
pub open spec fn silence() -> Seq<Option<(u8, Option<i32>)>> {
    Seq::new(NOTE_SLOTS as nat, |i: int| None)
}

/// No key is held.
pub open spec fn nothing_held() -> Seq<bool> {
    Seq::new(NOTE_SLOTS as nat, |i: int| false)
}

pub open spec fn any_held(held: Seq<bool>) -> bool {
    exists|i: int| 0 <= i < held.len() && held[i]
}

/// The note-off that silences a sounding pitch.
pub open spec fn release(voice: (u8, Option<i32>), channel: u8, timing: u32) -> DomainEvent {
    DomainEvent::NoteOff { note: voice.0, velocity: ZERO_VELOCITY, channel, voice_id: voice.1, timing }
}

/// The note-offs that silence one key slot: one if it sounds, none otherwise.
pub open spec fn release_slot(s: Option<(u8, Option<i32>)>, channel: u8, timing: u32) -> Seq<DomainEvent> {
    match s {
        Some(v) => seq![release(v, channel, timing)],
        None => Seq::empty(),
    }
}

/// The note-offs that silence every sounding slot, lowest slot first.
pub open spec fn release_all(sounding: Seq<Option<(u8, Option<i32>)>>, channel: u8, timing: u32) -> Seq<DomainEvent>
    decreases sounding.len(),
{
    if sounding.len() == 0 {
        Seq::empty()
    } else {
        release_all(sounding.drop_last(), channel, timing) + release_slot(sounding.last(), channel, timing)
    }
}

impl EngineState {
    /// The state of a fresh transposer, and the state it returns to once every key is released.
    pub open spec fn initial() -> EngineState {
        EngineState { held: nothing_held(), sounding: silence(), root: None, current: None, steps: 0 }
    }

    /// What the transposer keeps true between events: a root is set exactly
    /// while some key is held; without a root nothing sounds and no step is
    /// counted; with a root there is a current pitch, and once a step was
    /// taken that pitch is in the MIDI range.
    pub open spec fn wf(self) -> bool {
        &&& self.held.len() == NOTE_SLOTS
        &&& self.sounding.len() == NOTE_SLOTS
        &&& (self.root is Some <==> any_held(self.held))
        &&& self.root is None ==> {
            &&& self.current is None
            &&& self.steps == 0
            &&& self.sounding == silence()
        }
        &&& self.root is Some ==> self.current is Some
        &&& 0 <= self.steps
        &&& self.steps > 0 ==> self.current->0 <= 127
    }
}

/// Whether `e` is a key struck against a set root: an interval step.
pub open spec fn is_step(s: EngineState, e: DomainEvent) -> bool {
    match e {
        DomainEvent::NoteOn { note, .. } => s.root is Some && s.root != Some(note),
        _ => false,
    }
}

/// The effect of one event on a transposer in state `s`.
///
/// - A note-on with no root set silences whatever still sounds, makes the
///   note the root and the current pitch, and passes it through.
/// - A note-on of the root key while the root is set changes nothing but the
///   held keys.
/// - A note-on of any other key silences the root key's and this key's
///   sounding pitches, moves the current pitch by the key's interval from the
///   root (held to 0..=127), counts a step, and sounds the new pitch on this key.
/// - A note-off silences what the key sounds; if no key stays held it then
///   silences everything and resets the transposer.
/// - A controller change passes through.
pub open spec fn transition(s: EngineState, e: DomainEvent) -> Transition {
    match e {
        DomainEvent::NoteOn { note, velocity, channel, voice_id, timing } => {
            let i = slot(note);
            let held = s.held.update(i, true);
            match s.root {
                None => Transition {
                    next: EngineState {
                        held,
                        sounding: silence().update(i, Some((note, voice_id))),
                        root: Some(note),
                        current: Some(note),
                        steps: 0,
                    },
                    out: release_all(s.sounding, channel, timing).push(e),
                    entry: Some(LogEntry::NewRoot { root: note }),
                },
                Some(r) => if r == note {
                    Transition { next: EngineState { held, ..s }, out: Seq::empty(), entry: None }
                } else {
                    let ri = slot(r);
                    let cleared = s.sounding.update(ri, None);
                    let interval = note - r;
                    let base = match s.current {
                        Some(c) => c as int,
                        None => r as int,
                    };
                    let target = clamp_pitch(base + interval) as u8;
                    Transition {
                        next: EngineState {
                            held,
                            sounding: cleared.update(i, Some((target, voice_id))),
                            root: s.root,
                            current: Some(target),
                            steps: s.steps + 1,
                        },
                        out: release_slot(s.sounding[ri], channel, timing)
                            + release_slot(cleared[i], channel, timing)
                            + seq![DomainEvent::NoteOn { note: target, velocity, channel, voice_id, timing }],
                        entry: Some(LogEntry::Step {
                            root: r,
                            interval: interval as i32,
                            step: (s.steps + 1) as i32,
                            pitch: target,
                        }),
                    }
                },
            }
        },
        DomainEvent::NoteOff { note, channel, timing, .. } => {
            let i = slot(note);
            let held = s.held.update(i, false);
            let cleared = s.sounding.update(i, None);
            let first = release_slot(s.sounding[i], channel, timing);
            if any_held(held) {
                Transition {
                    next: EngineState { held, sounding: cleared, ..s },
                    out: first,
                    entry: None,
                }
            } else {
                Transition {
                    next: EngineState { held, sounding: silence(), root: None, current: None, steps: 0 },
                    out: first + release_all(cleared, channel, timing),
                    entry: Some(LogEntry::AllReleased),
                }
            }
        },
        DomainEvent::MidiCC { .. } => Transition { next: s, out: seq![e], entry: None },
    }
}

/// The relative interval transposer: holds a root key, and moves the output
/// pitch by each other key's interval from the root, one step per strike.
pub struct TransposerEngine<L: Logger> {
    held_notes: [bool; 128],
    sounding_pitch: [Option<(u8, Option<i32>)>; 128],
    root_note: Option<u8>,
    current_pitch: Option<u8>,
    step_count: i32,
    logger: L,
}

impl<L: Logger> View for TransposerEngine<L> {
    type V = EngineState;

    closed spec fn view(&self) -> EngineState {
        EngineState {
            held: self.held_notes@,
            sounding: self.sounding_pitch@,
            root: self.root_note,
            current: self.current_pitch,
            steps: self.step_count as int,
        }
    }
}

proof fn lemma_slot(note: u8)
    ensures
        (note & 0x7f) as int == slot(note),
        0 <= slot(note) < 128,
{
    assert((note & 0x7f) == note % 128) by (bit_vector);
}

impl<L: Logger> TransposerEngine<L> {
    /// The logger this transposer reports to.
    pub closed spec fn logger(&self) -> L {
        self.logger
    }

    /// Every transposer has a held flag and a sounding slot for each of the
    /// 128 note numbers.
    pub proof fn lemma_slots(&self)
        ensures
            self@.held.len() == NOTE_SLOTS,
            self@.sounding.len() == NOTE_SLOTS,
    {
    }

    /// A transposer with no key held, nothing sounding and no root.
    pub fn new(logger: L) -> (e: Self)
        ensures
            e@ == EngineState::initial(),
            e@.wf(),
            e.logger() == logger,
    {
        let e = TransposerEngine {
            held_notes: [false; 128],
            sounding_pitch: [None; 128],
            root_note: None,
            current_pitch: None,
            step_count: 0,
            logger,
        };
        assert(e@.held =~= nothing_held());
        assert(e@.sounding =~= silence());
        e
    }

    /// The root note, once one is set.
    pub fn root_note(&self) -> (r: Option<u8>)
        ensures
            r == self@.root,
    {
        self.root_note
    }

    /// The last output pitch.
    pub fn current_pitch(&self) -> (r: Option<u8>)
        ensures
            r == self@.current,
    {
        self.current_pitch
    }

    /// The number of interval steps since the root was set.
    pub fn step_count(&self) -> (r: i32)
        ensures
            r == self@.steps,
    {
        self.step_count
    }

    /// Whether any key is held.
    fn any_held(&self) -> (r: bool)
        ensures
            r == any_held(self@.held),
    {
        let mut p: usize = 0;
        while p < NOTE_SLOTS
            invariant
                p <= NOTE_SLOTS,
                self@.held.len() == NOTE_SLOTS,
                forall|j: int| 0 <= j < p ==> !self@.held[j],
            decreases NOTE_SLOTS - p,
        {
            if self.held_notes[p] {
                assert(self@.held[p as int]);
                return true;
            }
            p = p + 1;
        }
        false
    }

    /// Silences key slot `i` if it sounds.
    fn release_slot(&mut self, i: usize, channel: u8, timing: u32, out: &mut Vec<DomainEvent>)
        requires
            i < NOTE_SLOTS,
        ensures
            final(self)@ == (EngineState { sounding: old(self)@.sounding.update(i as int, None), ..old(self)@ }),
            final(out)@ == old(out)@ + release_slot(old(self)@.sounding[i as int], channel, timing),
            final(self).logger() == old(self).logger(),
    {
        let s = self.sounding_pitch[i];
        self.sounding_pitch[i] = None;
        match s {
            Some((note, voice_id)) => {
                out.push(DomainEvent::NoteOff { note, velocity: ZERO_VELOCITY, channel, voice_id, timing });
            },
            None => {},
        }
        assert(self@.sounding =~= old(self)@.sounding.update(i as int, None));
        assert(out@ =~= old(out)@ + release_slot(old(self)@.sounding[i as int], channel, timing));
    }

    /// Silences every sounding slot, lowest slot first.
    fn release_everything(&mut self, channel: u8, timing: u32, out: &mut Vec<DomainEvent>)
        ensures
            final(self)@ == (EngineState { sounding: silence(), ..old(self)@ }),
            final(out)@ == old(out)@ + release_all(old(self)@.sounding, channel, timing),
            final(self).logger() == old(self).logger(),
    {
        let ghost before = self@.sounding;
        let mut p: usize = 0;
        while p < NOTE_SLOTS
            invariant
                p <= NOTE_SLOTS,
                before == old(self)@.sounding,
                self@ == (EngineState { sounding: self@.sounding, ..old(self)@ }),
                self.logger() == old(self).logger(),
                self@.sounding.len() == NOTE_SLOTS,
                forall|j: int| 0 <= j < p ==> self@.sounding[j] is None,
                forall|j: int| p <= j < NOTE_SLOTS ==> self@.sounding[j] == before[j],
                out@ == old(out)@ + release_all(before.subrange(0, p as int), channel, timing),
            decreases NOTE_SLOTS - p,
        {
            let ghost out_before = out@;
            self.release_slot(p, channel, timing, out);
            assert(before.subrange(0, p + 1).drop_last() =~= before.subrange(0, p as int));
            assert(out@ =~= old(out)@ + release_all(before.subrange(0, p + 1), channel, timing));
            p = p + 1;
        }
        assert(before.subrange(0, NOTE_SLOTS as int) =~= before);
        assert(self@.sounding =~= silence());
    }

    /// Handles one incoming event: updates the state, appends the events to
    /// send to `out`, reports to the logger, and returns what it reported.
    pub fn handle_event(&mut self, event: DomainEvent, out: &mut Vec<DomainEvent>) -> (entry: Option<LogEntry>)
        requires
            is_step(old(self)@, event) ==> old(self)@.steps < i32::MAX,
        ensures
            final(self)@ == transition(old(self)@, event).next,
            final(out)@ == old(out)@ + transition(old(self)@, event).out,
            entry == transition(old(self)@, event).entry,
            final(self).logger().history() == logged_after(old(self).logger().history(), entry),
            final(self)@.held.len() == NOTE_SLOTS,
            final(self)@.sounding.len() == NOTE_SLOTS,
            old(self)@.wf() ==> final(self)@.wf(),
    {
        let ghost s0 = self@;
        proof {
            if s0.wf() {
                lemma_transition_keeps_wf(s0, event);
            }
        }
        let ghost out0 = out@;
        match event {
            DomainEvent::NoteOn { note, velocity, channel, voice_id, timing } => {
                proof { lemma_slot(note); }
                let note_idx = (note & 0x7F) as usize;
                self.held_notes[note_idx] = true;
                match self.root_note {
                    None => {
                        self.release_everything(channel, timing, out);
                        self.root_note = Some(note);
                        self.current_pitch = Some(note);
                        self.step_count = 0;
                        self.sounding_pitch[note_idx] = Some((note, voice_id));
                        let entry = LogEntry::NewRoot { root: note };
                        self.logger.log(&entry);
                        out.push(event);
                        assert(self@.held =~= s0.held.update(slot(note), true));
                        assert(self@.sounding =~= silence().update(slot(note), Some((note, voice_id))));
                        assert(out@ =~= out0 + release_all(s0.sounding, channel, timing).push(event));
                        Some(entry)
                    },
                    Some(root) => {
                        if note != root {
                            proof { lemma_slot(root); }
                            let root_idx = (root & 0x7F) as usize;
                            self.release_slot(root_idx, channel, timing, out);
                            self.release_slot(note_idx, channel, timing, out);
                            let interval: i32 = note as i32 - root as i32;
                            self.step_count = self.step_count + 1;
                            let base_pitch: i32 = match self.current_pitch {
                                Some(c) => c as i32,
                                None => root as i32,
                            };
                            let raw: i32 = base_pitch + interval;
                            let target_pitch: u8 = if raw < 0 {
                                0
                            } else if raw > 127 {
                                127
                            } else {
                                raw as u8
                            };
                            self.current_pitch = Some(target_pitch);
                            let entry = LogEntry::Step {
                                root,
                                interval,
                                step: self.step_count,
                                pitch: target_pitch,
                            };
                            self.logger.log(&entry);
                            self.sounding_pitch[note_idx] = Some((target_pitch, voice_id));
                            out.push(DomainEvent::NoteOn { note: target_pitch, velocity, channel, voice_id, timing });
                            assert(self@.held =~= s0.held.update(slot(note), true));
                            assert(self@.sounding =~= s0.sounding.update(slot(root), None).update(
                                slot(note),
                                Some((target_pitch, voice_id)),
                            ));
                            assert(out@ =~= out0 + transition(s0, event).out);
                            Some(entry)
                        } else {
                            assert(self@.held =~= s0.held.update(slot(note), true));
                            assert(out@ =~= out0 + Seq::<DomainEvent>::empty());
                            None
                        }
                    },
                }
            },
            DomainEvent::NoteOff { note, channel, timing, .. } => {
                proof { lemma_slot(note); }
                let note_idx = (note & 0x7F) as usize;
                self.held_notes[note_idx] = false;
                self.release_slot(note_idx, channel, timing, out);
                assert(self@.held =~= s0.held.update(slot(note), false));
                if !self.any_held() {
                    self.release_everything(channel, timing, out);
                    self.root_note = None;
                    self.current_pitch = None;
                    self.step_count = 0;
                    let entry = LogEntry::AllReleased;
                    self.logger.log(&entry);
                    assert(out@ =~= out0 + transition(s0, event).out);
                    Some(entry)
                } else {
                    None
                }
            },
            DomainEvent::MidiCC { .. } => {
                out.push(event);
                None
            },
        }
    }
}

} // verus!
