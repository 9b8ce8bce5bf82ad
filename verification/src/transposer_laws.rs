use vstd::prelude::*;
use crate::event::{DomainEvent, ZERO_VELOCITY};
use crate::transposer::{
    any_held, clamp_pitch, release, release_all, release_slot, silence, slot, transition,
    EngineState, NOTE_SLOTS,
};

verus! {

/// No note-off is needed to silence slots of which none sounds.
pub proof fn lemma_release_all_quiet(sounding: Seq<Option<(u8, Option<i32>)>>, channel: u8, timing: u32)
    requires
        forall|j: int| 0 <= j < sounding.len() ==> sounding[j] is None,
    ensures
        release_all(sounding, channel, timing) == Seq::<DomainEvent>::empty(),
    decreases sounding.len(),
{
    if sounding.len() > 0 {
        lemma_release_all_quiet(sounding.drop_last(), channel, timing);
        assert(release_all(sounding, channel, timing) =~= Seq::<DomainEvent>::empty());
    }
}

/// Silencing every slot sends a note-off for each sounding pitch, and only those.
pub proof fn lemma_release_all_exact(sounding: Seq<Option<(u8, Option<i32>)>>, channel: u8, timing: u32)
    ensures
        forall|j: int| #![trigger sounding[j]]
            0 <= j < sounding.len() && sounding[j] is Some ==> release_all(sounding, channel, timing).contains(
                release(sounding[j]->0, channel, timing),
            ),
        forall|k: int| #![trigger release_all(sounding, channel, timing)[k]]
            0 <= k < release_all(sounding, channel, timing).len() ==> exists|j: int|
                0 <= j < sounding.len() && sounding[j] is Some && release_all(sounding, channel, timing)[k]
                    == release(#[trigger] sounding[j]->0, channel, timing),
    decreases sounding.len(),
{
    if sounding.len() > 0 {
        let init = sounding.drop_last();
        let last = sounding.last();
        let n = (sounding.len() - 1) as int;
        lemma_release_all_exact(init, channel, timing);
        let all = release_all(sounding, channel, timing);
        let front = release_all(init, channel, timing);
        assert(all == front + release_slot(last, channel, timing));
        assert forall|j: int| #![trigger sounding[j]]
            0 <= j < sounding.len() && sounding[j] is Some implies all.contains(
                release(sounding[j]->0, channel, timing),
            ) by {
            if j < n {
                assert(init[j] == sounding[j]);
                let k = choose|k: int| 0 <= k < front.len() && front[k] == release(init[j]->0, channel, timing);
                assert(all[k] == front[k]);
            } else {
                assert(all[front.len() as int] == release(last->0, channel, timing));
            }
        }
        assert forall|k: int| #![trigger all[k]]
            0 <= k < all.len() implies exists|j: int|
                0 <= j < sounding.len() && sounding[j] is Some && all[k] == release(
                    #[trigger] sounding[j]->0,
                    channel,
                    timing,
                ) by {
            if k < front.len() {
                assert(all[k] == front[k]);
                let j = choose|j: int|
                    0 <= j < init.len() && init[j] is Some && front[k] == release(
                        #[trigger] init[j]->0,
                        channel,
                        timing,
                    );
                assert(sounding[j] == init[j]);
            } else {
                assert(sounding[n] == last);
            }
        }
    }
}

/// A fresh transposer is well formed.
pub proof fn lemma_initial_wf()
    ensures
        EngineState::initial().wf(),
{
}

/// Every event keeps the transposer well formed: a root is set exactly while
/// some key is held, and without a root nothing sounds and no step is counted.
pub proof fn lemma_transition_keeps_wf(s: EngineState, e: DomainEvent)
    requires
        s.wf(),
    ensures
        transition(s, e).next.wf(),
{
    let t = transition(s, e);
    match e {
        DomainEvent::NoteOn { note, .. } => {
            let i = slot(note);
            assert(t.next.held[i]);
        },
        DomainEvent::NoteOff { note, .. } => {
            let i = slot(note);
            let held = s.held.update(i, false);
            if any_held(held) {
                let j = choose|j: int| 0 <= j < held.len() && held[j];
                assert(s.held[j]);
            }
        },
        DomainEvent::MidiCC { .. } => {},
    }
}

/// A key struck while no other key is held becomes the root and the current
/// pitch, the step count starts at zero, and the key passes through alone.
pub proof fn lemma_new_root_passes_through(s: EngineState, e: DomainEvent)
    requires
        s.wf(),
        !any_held(s.held),
        e is NoteOn,
    ensures
        transition(s, e).next.root == Some(e->NoteOn_note),
        transition(s, e).next.current == Some(e->NoteOn_note),
        transition(s, e).next.steps == 0,
        transition(s, e).out == seq![e],
{
    match e {
        DomainEvent::NoteOn { channel, timing, .. } => {
            lemma_release_all_quiet(s.sounding, channel, timing);
            assert(transition(s, e).out =~= seq![e]);
        },
        _ => {},
    }
}

/// A key other than the root, struck while a root is set, moves the output
/// pitch from the current pitch by the key's interval from the root, held to
/// 0..=127, counts one step, and sends that pitch with the key's velocity and
/// voice as the last event; every event before it is a note-off.
pub proof fn lemma_interval_step(s: EngineState, e: DomainEvent)
    requires
        s.wf(),
        s.root is Some,
        e is NoteOn,
        e->NoteOn_note != s.root->0,
    ensures
        ({
            let target = clamp_pitch(s.current->0 + e->NoteOn_note - s.root->0);
            let t = transition(s, e);
            &&& 0 <= target <= 127
            &&& t.next.current == Some(target as u8)
            &&& t.next.root == s.root
            &&& t.next.steps == s.steps + 1
            &&& t.out.len() >= 1
            &&& t.out.last() == DomainEvent::NoteOn {
                note: target as u8,
                velocity: e->NoteOn_velocity,
                channel: e->NoteOn_channel,
                voice_id: e->NoteOn_voice_id,
                timing: e->NoteOn_timing,
            }
            &&& forall|k: int| 0 <= k < t.out.len() - 1 ==> #[trigger] t.out[k] is NoteOff
        }),
{
}

/// Two offset keys struck in turn against the same root add up: the second
/// moves on from where the first left the pitch.
pub proof fn lemma_intervals_accumulate(s: EngineState, e1: DomainEvent, e2: DomainEvent)
    requires
        s.wf(),
        s.root is Some,
        e1 is NoteOn,
        e2 is NoteOn,
        e1->NoteOn_note != s.root->0,
        e2->NoteOn_note != s.root->0,
    ensures
        ({
            let r = s.root->0 as int;
            let first = clamp_pitch(s.current->0 + e1->NoteOn_note - r);
            let second = clamp_pitch(first + e2->NoteOn_note - r);
            let s2 = transition(transition(s, e1).next, e2).next;
            &&& s2.current == Some(second as u8)
            &&& s2.root == s.root
            &&& s2.steps == s.steps + 2
        }),
{
    lemma_transition_keeps_wf(s, e1);
    lemma_interval_step(s, e1);
    lemma_interval_step(transition(s, e1).next, e2);
}

/// Striking the root key again while it is the root changes nothing but the
/// held keys and sends nothing.
pub proof fn lemma_root_restrike_is_silent(s: EngineState, e: DomainEvent)
    requires
        s.root is Some,
        e is NoteOn,
        e->NoteOn_note == s.root->0,
    ensures
        transition(s, e).next == (EngineState { held: s.held.update(slot(e->NoteOn_note), true), ..s }),
        transition(s, e).out == Seq::<DomainEvent>::empty(),
{
}

/// Releasing the last held key silences everything and resets the
/// transposer to its initial state.
pub proof fn lemma_last_release_resets(s: EngineState, e: DomainEvent)
    requires
        s.wf(),
        e is NoteOff,
        !any_held(s.held.update(slot(e->NoteOff_note), false)),
    ensures
        transition(s, e).next == EngineState::initial(),
        transition(s, e).entry == Some(crate::log::LogEntry::AllReleased),
{
    let held = s.held.update(slot(e->NoteOff_note), false);
    assert forall|j: int| 0 <= j < NOTE_SLOTS implies held[j] == false by {
        if held[j] {
            assert(any_held(held));
        }
    }
    assert(held =~= crate::transposer::nothing_held());
}

/// Releasing a key while another stays held keeps the root, the current
/// pitch and the step count.
pub proof fn lemma_release_keeps_root(s: EngineState, e: DomainEvent)
    requires
        e is NoteOff,
        any_held(s.held.update(slot(e->NoteOff_note), false)),
    ensures
        transition(s, e).next.root == s.root,
        transition(s, e).next.current == s.current,
        transition(s, e).next.steps == s.steps,
{
}

/// Controller changes pass through and leave the transposer as it was.
pub proof fn lemma_controller_passes_through(s: EngineState, e: DomainEvent)
    requires
        e is MidiCC,
    ensures
        transition(s, e).next == s,
        transition(s, e).out == seq![e],
{
}

/// The channel and timing of an event.
pub open spec fn channel_of(e: DomainEvent) -> u8 {
    match e {
        DomainEvent::NoteOn { channel, .. } => channel,
        DomainEvent::NoteOff { channel, .. } => channel,
        DomainEvent::MidiCC { channel, .. } => channel,
    }
}

pub open spec fn timing_of(e: DomainEvent) -> u32 {
    match e {
        DomainEvent::NoteOn { timing, .. } => timing,
        DomainEvent::NoteOff { timing, .. } => timing,
        DomainEvent::MidiCC { timing, .. } => timing,
    }
}

/// No note is left hanging: whatever a key slot sounded before an event it
/// still sounds afterwards, or the event sent the note-off that silences it.
pub proof fn lemma_no_stuck_notes(s: EngineState, e: DomainEvent, j: int)
    requires
        s.wf(),
        0 <= j < NOTE_SLOTS,
        s.sounding[j] is Some,
    ensures
        transition(s, e).next.sounding[j] == s.sounding[j] || transition(s, e).out.contains(
            release(s.sounding[j]->0, channel_of(e), timing_of(e)),
        ),
{
    let t = transition(s, e);
    let v = s.sounding[j]->0;
    match e {
        DomainEvent::NoteOn { note, channel, timing, .. } => {
            match s.root {
                None => {},
                Some(r) => {
                    if r != note {
                        let ri = slot(r);
                        let i = slot(note);
                        let cleared = s.sounding.update(ri, None);
                        let a = release_slot(s.sounding[ri], channel, timing);
                        let b = release_slot(cleared[i], channel, timing);
                        if j == ri {
                            assert(t.out[0] == release(v, channel, timing));
                        } else if j == i {
                            assert(t.out[a.len() as int] == release(v, channel, timing));
                        }
                    }
                },
            }
        },
        DomainEvent::NoteOff { note, channel, timing, .. } => {
            let i = slot(note);
            let held = s.held.update(i, false);
            let cleared = s.sounding.update(i, None);
            let first = release_slot(s.sounding[i], channel, timing);
            if j == i {
                assert(t.out[0] == release(v, channel, timing));
            } else if !any_held(held) {
                lemma_release_all_exact(cleared, channel, timing);
                assert(cleared[j] == s.sounding[j]);
                let all = release_all(cleared, channel, timing);
                let k = choose|k: int| 0 <= k < all.len() && all[k] == release(v, channel, timing);
                assert(t.out[first.len() + k] == all[k]);
            }
        },
        DomainEvent::MidiCC { .. } => {},
    }
}

/// Every note-off the transposer sends silences a pitch that was sounding
/// before the event, and goes out with velocity zero on the event's channel
/// and timing.
pub proof fn lemma_note_offs_release_sounding(s: EngineState, e: DomainEvent, k: int)
    requires
        s.wf(),
        0 <= k < transition(s, e).out.len(),
        transition(s, e).out[k] is NoteOff,
    ensures
        exists|j: int|
            0 <= j < NOTE_SLOTS && s.sounding[j] is Some && transition(s, e).out[k] == release(
                #[trigger] s.sounding[j]->0,
                channel_of(e),
                timing_of(e),
            ),
{
    let t = transition(s, e);
    match e {
        DomainEvent::NoteOn { note, channel, timing, .. } => {
            match s.root {
                None => {
                    lemma_release_all_quiet(s.sounding, channel, timing);
                },
                Some(r) => {
                    if r != note {
                        let ri = slot(r);
                        let i = slot(note);
                        let cleared = s.sounding.update(ri, None);
                        let a = release_slot(s.sounding[ri], channel, timing);
                        let b = release_slot(cleared[i], channel, timing);
                        if k < a.len() {
                            assert(s.sounding[ri] is Some);
                        } else if k < a.len() + b.len() {
                            assert(cleared[i] is Some);
                            assert(s.sounding[i] == cleared[i]);
                        }
                    }
                },
            }
        },
        DomainEvent::NoteOff { note, channel, timing, .. } => {
            let i = slot(note);
            let held = s.held.update(i, false);
            let cleared = s.sounding.update(i, None);
            let first = release_slot(s.sounding[i], channel, timing);
            if k < first.len() {
                assert(s.sounding[i] is Some);
            } else {
                lemma_release_all_exact(cleared, channel, timing);
                let all = release_all(cleared, channel, timing);
                assert(t.out[k] == all[k - first.len()]);
                let j = choose|j: int|
                    0 <= j < cleared.len() && cleared[j] is Some && all[k - first.len()] == release(
                        #[trigger] cleared[j]->0,
                        channel,
                        timing,
                    );
                assert(s.sounding[j] == cleared[j]);
            }
        },
        DomainEvent::MidiCC { .. } => {},
    }
}

/// Whether `e` is a note-on (`on`) or a note-off (`!on`) of pitch and voice `v`.
pub open spec fn is_note_of(e: DomainEvent, v: (u8, Option<i32>), on: bool) -> bool {
    match e {
        DomainEvent::NoteOn { note, voice_id, .. } => on && (note, voice_id) == v,
        DomainEvent::NoteOff { note, voice_id, .. } => !on && (note, voice_id) == v,
        DomainEvent::MidiCC { .. } => false,
    }
}

/// How many note-ons (`on`) or note-offs (`!on`) of `v` the events hold.
pub open spec fn note_count(es: Seq<DomainEvent>, v: (u8, Option<i32>), on: bool) -> nat
    decreases es.len(),
{
    if es.len() == 0 {
        0
    } else {
        note_count(es.drop_last(), v, on) + if is_note_of(es.last(), v, on) {
            1nat
        } else {
            0nat
        }
    }
}

/// How many key slots sound `v`.
pub open spec fn sounding_count(sounding: Seq<Option<(u8, Option<i32>)>>, v: (u8, Option<i32>)) -> nat
    decreases sounding.len(),
{
    if sounding.len() == 0 {
        0
    } else {
        sounding_count(sounding.drop_last(), v) + slot_count(sounding.last(), v)
    }
}

pub open spec fn slot_count(s: Option<(u8, Option<i32>)>, v: (u8, Option<i32>)) -> nat {
    if s == Some(v) {
        1
    } else {
        0
    }
}

/// The engine's state and all it sent after handling `events` in turn from `s`.
pub open spec fn run(s: EngineState, events: Seq<DomainEvent>) -> (EngineState, Seq<DomainEvent>)
    decreases events.len(),
{
    if events.len() == 0 {
        (s, Seq::empty())
    } else {
        let prev = run(s, events.drop_last());
        let t = transition(prev.0, events.last());
        (t.next, prev.1 + t.out)
    }
}

proof fn lemma_note_count_concat(a: Seq<DomainEvent>, b: Seq<DomainEvent>, v: (u8, Option<i32>), on: bool)
    ensures
        note_count(a + b, v, on) == note_count(a, v, on) + note_count(b, v, on),
    decreases b.len(),
{
    if b.len() > 0 {
        lemma_note_count_concat(a, b.drop_last(), v, on);
        assert((a + b).drop_last() =~= a + b.drop_last());
    }
}

proof fn lemma_note_count_single(e: DomainEvent, v: (u8, Option<i32>), on: bool)
    ensures
        note_count(seq![e], v, on) == if is_note_of(e, v, on) {
            1nat
        } else {
            0nat
        },
{
    assert(seq![e].drop_last() =~= Seq::<DomainEvent>::empty());
    assert(note_count(Seq::<DomainEvent>::empty(), v, on) == 0);
    assert(seq![e].last() == e);
}

proof fn lemma_sounding_count_update(
    sounding: Seq<Option<(u8, Option<i32>)>>,
    i: int,
    x: Option<(u8, Option<i32>)>,
    v: (u8, Option<i32>),
)
    requires
        0 <= i < sounding.len(),
    ensures
        sounding_count(sounding.update(i, x), v) + slot_count(sounding[i], v) == sounding_count(sounding, v)
            + slot_count(x, v),
    decreases sounding.len(),
{
    let n = sounding.len() - 1;
    if i == n {
        assert(sounding.update(i, x).drop_last() =~= sounding.drop_last());
    } else {
        lemma_sounding_count_update(sounding.drop_last(), i, x, v);
        assert(sounding.update(i, x).drop_last() =~= sounding.drop_last().update(i, x));
    }
}

proof fn lemma_silence_count(v: (u8, Option<i32>))
    ensures
        sounding_count(silence(), v) == 0,
{
    assert forall|n: nat| n <= NOTE_SLOTS implies sounding_count(#[trigger] silence().take(n as int), v) == 0 by {
        lemma_quiet_count(silence().take(n as int), v);
    }
    assert(silence().take(NOTE_SLOTS as int) =~= silence());
}

proof fn lemma_quiet_count(sounding: Seq<Option<(u8, Option<i32>)>>, v: (u8, Option<i32>))
    requires
        forall|j: int| 0 <= j < sounding.len() ==> sounding[j] is None,
    ensures
        sounding_count(sounding, v) == 0,
    decreases sounding.len(),
{
    if sounding.len() > 0 {
        lemma_quiet_count(sounding.drop_last(), v);
    }
}

proof fn lemma_release_slot_counts(s: Option<(u8, Option<i32>)>, channel: u8, timing: u32, v: (u8, Option<i32>))
    ensures
        note_count(release_slot(s, channel, timing), v, false) == slot_count(s, v),
        note_count(release_slot(s, channel, timing), v, true) == 0,
{
    let r = release_slot(s, channel, timing);
    match s {
        Some(x) => {
            assert(r.drop_last() =~= Seq::<DomainEvent>::empty());
            assert(r.last() == release(x, channel, timing));
            assert(note_count(r.drop_last(), v, false) == 0);
            assert(note_count(r.drop_last(), v, true) == 0);
        },
        None => {
            assert(r.len() == 0);
        },
    }
}

proof fn lemma_release_all_counts(sounding: Seq<Option<(u8, Option<i32>)>>, channel: u8, timing: u32, v: (u8, Option<i32>))
    ensures
        note_count(release_all(sounding, channel, timing), v, false) == sounding_count(sounding, v),
        note_count(release_all(sounding, channel, timing), v, true) == 0,
    decreases sounding.len(),
{
    if sounding.len() > 0 {
        lemma_release_all_counts(sounding.drop_last(), channel, timing, v);
        lemma_release_slot_counts(sounding.last(), channel, timing, v);
        lemma_note_count_concat(
            release_all(sounding.drop_last(), channel, timing),
            release_slot(sounding.last(), channel, timing),
            v,
            false,
        );
        lemma_note_count_concat(
            release_all(sounding.drop_last(), channel, timing),
            release_slot(sounding.last(), channel, timing),
            v,
            true,
        );
    }
}

/// One event keeps the books of every pitch and voice balanced: what sounds
/// afterwards, plus the note-offs sent, is what sounded before, plus the
/// note-ons sent. Every note-off sent also releases what sounded before:
/// no note-off is sent for a pitch that was not sounding.
pub proof fn lemma_transition_balances(s: EngineState, e: DomainEvent, v: (u8, Option<i32>))
    requires
        s.sounding.len() == NOTE_SLOTS,
    ensures
        sounding_count(transition(s, e).next.sounding, v) + note_count(transition(s, e).out, v, false)
            == sounding_count(s.sounding, v) + note_count(transition(s, e).out, v, true),
        forall|k: int|
            0 <= k <= transition(s, e).out.len() ==> note_count(#[trigger] transition(s, e).out.take(k), v, false)
                <= sounding_count(s.sounding, v),
{
    let t = transition(s, e);
    let out = t.out;
    // The note-offs that this event sends come before the note-ons: a prefix
    // holds no more note-offs than the whole.
    assert forall|k: int| 0 <= k <= out.len() implies note_count(#[trigger] out.take(k), v, false) <= note_count(out, v, false) by {
        assert(out =~= out.take(k) + out.skip(k));
        lemma_note_count_concat(out.take(k), out.skip(k), v, false);
    }
    match e {
        DomainEvent::NoteOn { note, velocity, channel, voice_id, timing } => {
            let i = slot(note);
            match s.root {
                None => {
                    lemma_release_all_counts(s.sounding, channel, timing, v);
                    assert(out =~= release_all(s.sounding, channel, timing) + seq![e]);
                    lemma_note_count_single(e, v, false);
                    lemma_note_count_single(e, v, true);
                    lemma_note_count_concat(release_all(s.sounding, channel, timing), seq![e], v, false);
                    lemma_note_count_concat(release_all(s.sounding, channel, timing), seq![e], v, true);
                    assert(seq![e].drop_last() =~= Seq::<DomainEvent>::empty());
                    lemma_sounding_count_update(silence(), i, Some((note, voice_id)), v);
                    lemma_silence_count(v);
                    assert(sounding_count(t.next.sounding, v) + note_count(out, v, false)
                        == sounding_count(s.sounding, v) + note_count(out, v, true));
                    assert(note_count(out, v, false) <= sounding_count(s.sounding, v));
                },
                Some(r) => {
                    if r == note {
                        assert(out =~= Seq::<DomainEvent>::empty());
                        assert(note_count(out, v, false) == 0);
                        assert(note_count(out, v, true) == 0);
                    } else {
                        let ri = slot(r);
                        let cleared = s.sounding.update(ri, None);
                        let a = release_slot(s.sounding[ri], channel, timing);
                        let b = release_slot(cleared[i], channel, timing);
                        let on = seq![out.last()];
                        assert(out == a + b + on);
                        lemma_release_slot_counts(s.sounding[ri], channel, timing, v);
                        lemma_release_slot_counts(cleared[i], channel, timing, v);
                        lemma_note_count_concat(a, b, v, false);
                        lemma_note_count_concat(a, b, v, true);
                        lemma_note_count_concat(a + b, on, v, false);
                        lemma_note_count_concat(a + b, on, v, true);
                        lemma_note_count_single(out.last(), v, false);
                        lemma_note_count_single(out.last(), v, true);
                        assert(t.next.sounding[i] == Some((out.last()->NoteOn_note, voice_id)));
                        lemma_sounding_count_update(s.sounding, ri, None, v);
                        lemma_sounding_count_update(cleared, i, None, v);
                        lemma_sounding_count_update(cleared, i, t.next.sounding[i], v);
                        assert(cleared.update(i, t.next.sounding[i]) =~= t.next.sounding);
                        assert(sounding_count(t.next.sounding, v) + note_count(out, v, false)
                            == sounding_count(s.sounding, v) + note_count(out, v, true));
                        assert(note_count(out, v, false) <= sounding_count(s.sounding, v));
                    }
                },
            }
        },
        DomainEvent::NoteOff { note, channel, timing, .. } => {
            let i = slot(note);
            let cleared = s.sounding.update(i, None);
            let first = release_slot(s.sounding[i], channel, timing);
            lemma_release_slot_counts(s.sounding[i], channel, timing, v);
            lemma_sounding_count_update(s.sounding, i, None, v);
            if !any_held(s.held.update(i, false)) {
                lemma_release_all_counts(cleared, channel, timing, v);
                lemma_note_count_concat(first, release_all(cleared, channel, timing), v, false);
                lemma_note_count_concat(first, release_all(cleared, channel, timing), v, true);
                lemma_silence_count(v);
                assert(sounding_count(t.next.sounding, v) + note_count(out, v, false)
                    == sounding_count(s.sounding, v) + note_count(out, v, true));
            } else {
                assert(sounding_count(t.next.sounding, v) + note_count(out, v, false)
                    == sounding_count(s.sounding, v) + note_count(out, v, true));
            }
        },
        DomainEvent::MidiCC { .. } => {
            lemma_note_count_single(e, v, false);
            lemma_note_count_single(e, v, true);
        },
    }
}

/// Every note-on and note-off the transposer sends pairs up, for each pitch
/// and voice, over any run of events from a fresh transposer:
/// - at every point of the output, no more note-offs of a pitch and voice
///   have been sent than note-ons, so each note-off silences an earlier note-on;
/// - the note-ons not yet silenced are exactly what the transposer sounds;
/// - once the last held key is released, every note-on has been silenced.
pub proof fn lemma_run_pairs_notes(events: Seq<DomainEvent>, v: (u8, Option<i32>))
    ensures
        ({
            let (end, sent) = run(EngineState::initial(), events);
            &&& forall|k: int|
                0 <= k <= sent.len() ==> note_count(#[trigger] sent.take(k), v, false) <= note_count(
                    sent.take(k),
                    v,
                    true,
                )
            &&& sounding_count(end.sounding, v) + note_count(sent, v, false) == note_count(sent, v, true)
            &&& end.wf()
            &&& (events.len() > 0 && events.last() is NoteOff && !any_held(end.held)) ==> note_count(
                sent,
                v,
                false,
            ) == note_count(sent, v, true)
        }),
    decreases events.len(),
{
    let (end, sent) = run(EngineState::initial(), events);
    if events.len() == 0 {
        lemma_silence_count(v);
        lemma_initial_wf();
        assert forall|k: int| 0 <= k <= sent.len() implies note_count(#[trigger] sent.take(k), v, false) <= note_count(
            sent.take(k),
            v,
            true,
        ) by {
            assert(sent.take(k) =~= Seq::<DomainEvent>::empty());
        }
    } else {
        lemma_run_pairs_notes(events.drop_last(), v);
        let (mid, before) = run(EngineState::initial(), events.drop_last());
        let e = events.last();
        let t = transition(mid, e);
        lemma_transition_keeps_wf(mid, e);
        lemma_transition_balances(mid, e, v);
        lemma_note_count_concat(before, t.out, v, false);
        lemma_note_count_concat(before, t.out, v, true);
        assert(sent == before + t.out);
        assert forall|k: int| 0 <= k <= sent.len() implies note_count(#[trigger] sent.take(k), v, false) <= note_count(
            sent.take(k),
            v,
            true,
        ) by {
            if k <= before.len() {
                assert(sent.take(k) =~= before.take(k));
            } else {
                let part = t.out.take(k - before.len());
                assert(sent.take(k) =~= before + part);
                lemma_note_count_concat(before, part, v, false);
                lemma_note_count_concat(before, part, v, true);
            }
        }
        if e is NoteOff && !any_held(end.held) {
            match e {
                DomainEvent::NoteOff { note, .. } => {
                    lemma_last_release_resets(mid, e);
                    lemma_silence_count(v);
                },
                _ => {},
            }
        }
    }
}

/// The note-off, if any, that silences what a key slot sounds: velocity
/// zero, with the slot's pitch and voice, on the given channel and timing.
pub open spec fn silencing(x: Option<(u8, Option<i32>)>, channel: u8, timing: u32) -> Seq<DomainEvent> {
    match x {
        Some(v) => seq![DomainEvent::NoteOff { note: v.0, velocity: 0, channel, voice_id: v.1, timing }],
        None => Seq::empty(),
    }
}

/// Every event marks exactly its own key: a note-on holds the struck key's
/// slot, a note-off lets it go, and no other slot changes.
pub proof fn lemma_events_mark_own_key(s: EngineState, e: DomainEvent)
    ensures
        e matches DomainEvent::NoteOn { note, .. } ==> transition(s, e).next.held == s.held.update(
            note as int % 128,
            true,
        ),
        e matches DomainEvent::NoteOff { note, .. } ==> transition(s, e).next.held == s.held.update(
            note as int % 128,
            false,
        ),
        e is MidiCC ==> transition(s, e).next.held == s.held,
{
    match e {
        DomainEvent::NoteOff { note, .. } => {
            if !any_held(s.held.update(slot(note), false)) {
            }
        },
        _ => {},
    }
}

/// Releasing a key while some other key stays held silences exactly what
/// that key sounds, with one note-off when it sounds something and none
/// otherwise; every other key keeps sounding what it sounded, and the root,
/// the current pitch and the step count stay as they were.
pub proof fn lemma_release_one_key(s: EngineState, e: DomainEvent)
    requires
        s.wf(),
        e is NoteOff,
        any_held(s.held.update(e->NoteOff_note as int % 128, false)),
    ensures
        ({
            let i = e->NoteOff_note as int % 128;
            let t = transition(s, e);
            &&& t.out == silencing(s.sounding[i], e->NoteOff_channel, e->NoteOff_timing)
            &&& t.next.sounding.len() == NOTE_SLOTS
            &&& t.next.sounding[i] is None
            &&& forall|j: int| 0 <= j < NOTE_SLOTS && j != i ==> t.next.sounding[j] == s.sounding[j]
            &&& t.next.held == s.held.update(i, false)
            &&& t.next.root == s.root
            &&& t.next.current == s.current
            &&& t.next.steps == s.steps
        }),
{
    let i = e->NoteOff_note as int % 128;
    assert(transition(s, e).out =~= silencing(s.sounding[i], e->NoteOff_channel, e->NoteOff_timing));
}

/// A key struck against a set root that is not the root itself mutes the
/// root key's sounding pitch first, then the pitch this key sounded before
/// (when it is another slot), then sounds the new pitch on this key; every
/// other key keeps sounding what it sounded.
pub proof fn lemma_step_mutes_root_and_key(s: EngineState, e: DomainEvent)
    requires
        s.wf(),
        s.root is Some,
        e is NoteOn,
        e->NoteOn_note != s.root->0,
    ensures
        ({
            let r = s.root->0;
            let ri = r as int % 128;
            let i = e->NoteOn_note as int % 128;
            let ch = e->NoteOn_channel;
            let tm = e->NoteOn_timing;
            let target = clamp_pitch(s.current->0 + e->NoteOn_note - r) as u8;
            let t = transition(s, e);
            &&& t.out == silencing(s.sounding[ri], ch, tm) + (if i == ri {
                Seq::empty()
            } else {
                silencing(s.sounding[i], ch, tm)
            }) + seq![
                DomainEvent::NoteOn {
                    note: target,
                    velocity: e->NoteOn_velocity,
                    channel: ch,
                    voice_id: e->NoteOn_voice_id,
                    timing: tm,
                },
            ]
            &&& t.next.sounding.len() == NOTE_SLOTS
            &&& t.next.sounding[i] == Some((target, e->NoteOn_voice_id))
            &&& i != ri ==> t.next.sounding[ri] is None
            &&& forall|j: int| 0 <= j < NOTE_SLOTS && j != i && j != ri ==> t.next.sounding[j] == s.sounding[j]
        }),
{
    let r = s.root->0;
    let ri = r as int % 128;
    let i = e->NoteOn_note as int % 128;
    let ch = e->NoteOn_channel;
    let tm = e->NoteOn_timing;
    let cleared = s.sounding.update(ri, None);
    assert(release_slot(s.sounding[ri], ch, tm) =~= silencing(s.sounding[ri], ch, tm));
    if i == ri {
        assert(release_slot(cleared[i], ch, tm) =~= Seq::<DomainEvent>::empty());
    } else {
        assert(release_slot(cleared[i], ch, tm) =~= silencing(s.sounding[i], ch, tm));
    }
}

/// Whether key slot `j` is down after `events`: the last event on that slot
/// was a note-on.
pub open spec fn key_down(events: Seq<DomainEvent>, j: int) -> bool
    decreases events.len(),
{
    if events.len() == 0 {
        false
    } else {
        match events.last() {
            DomainEvent::NoteOn { note, .. } => if note as int % 128 == j {
                true
            } else {
                key_down(events.drop_last(), j)
            },
            DomainEvent::NoteOff { note, .. } => if note as int % 128 == j {
                false
            } else {
                key_down(events.drop_last(), j)
            },
            DomainEvent::MidiCC { .. } => key_down(events.drop_last(), j),
        }
    }
}

/// Over any run of events from a fresh transposer, a key slot is held
/// exactly when its last event was a note-on; and when a note-off leaves no
/// key down, the transposer is back in its initial state, so the next key
/// is a new root.
pub proof fn lemma_run_tracks_keys(events: Seq<DomainEvent>)
    ensures
        ({
            let end = run(EngineState::initial(), events).0;
            &&& end.held.len() == NOTE_SLOTS
            &&& forall|j: int| 0 <= j < NOTE_SLOTS ==> end.held[j] == key_down(events, j)
            &&& (events.len() > 0 && events.last() is NoteOff && forall|j: int|
                0 <= j < NOTE_SLOTS ==> !key_down(events, j)) ==> end == EngineState::initial()
        }),
    decreases events.len(),
{
    let end = run(EngineState::initial(), events).0;
    if events.len() == 0 {
        assert forall|j: int| 0 <= j < NOTE_SLOTS implies end.held[j] == key_down(events, j) by {
            assert(end.held == crate::transposer::nothing_held());
        }
    } else {
        lemma_run_tracks_keys(events.drop_last());
        let mid = run(EngineState::initial(), events.drop_last()).0;
        let e = events.last();
        assert(end == transition(mid, e).next);
        lemma_events_mark_own_key(mid, e);
        lemma_run_pairs_notes(events.drop_last(), (0u8, None));
        assert forall|j: int| 0 <= j < NOTE_SLOTS implies end.held[j] == key_down(events, j) by {
            assert(key_down(events.drop_last(), j) == mid.held[j]);
        }
        match e {
            DomainEvent::NoteOff { note, .. } => {
                if forall|j: int| 0 <= j < NOTE_SLOTS ==> !key_down(events, j) {
                    assert(end.held == mid.held.update(slot(note), false));
                    if any_held(end.held) {
                        let j = choose|j: int| 0 <= j < end.held.len() && end.held[j];
                        assert(!key_down(events, j));
                    }
                    lemma_last_release_resets(mid, e);
                }
            },
            _ => {},
        }
    }
}

} // verus!
