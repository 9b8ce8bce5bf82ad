use vstd::prelude::*;

verus! {

/// One MIDI event as the engines see it.
///
/// Velocities and controller values are normalized floating-point numbers in
/// the host; here each is held as the IEEE-754 bit pattern of that `f32`, so
/// that the engines can pass it on unchanged and compare it exactly.
/// The bit pattern `0` is `0.0`.
#[derive(Debug, Clone, Copy, PartialEq, Eq, Structural)]
pub enum DomainEvent {
    NoteOn { note: u8, velocity: u32, channel: u8, voice_id: Option<i32>, timing: u32 },
    NoteOff { note: u8, velocity: u32, channel: u8, voice_id: Option<i32>, timing: u32 },
    MidiCC { cc: u8, value: u32, channel: u8, timing: u32 },
}

/// The bit pattern of the velocity `0.0`.
pub const ZERO_VELOCITY: u32 = 0;

} // verus!
