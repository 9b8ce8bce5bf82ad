# midi_transform

The verified core of a relative interval transposer for MIDI, and of a
pass-through MIDI logger.

- `src/event.rs`: the MIDI events the engines handle.
- `src/transposer.rs`: the transposer engine, its abstract state and the
  transition that every event makes.
- `src/transposer_laws.rs`: what holds of every transition (well-formedness
  is kept, new roots pass through, intervals accumulate and are held to the
  MIDI range, releasing the last key resets, no note is left sounding without
  a note-off, every note-off pairs with an earlier note-on over any run of
  events, controller changes pass through).
- `src/passthrough.rs`: the logger engine, which passes every event on.
- `src/log.rs`: what the engines report, and the logger trait.
- `src/calendar.rs`: days since 1970-01-01 to a calendar date, with its
  inverse, and Unix seconds to UTC time.
- `app/`: the NIH-plug plugins, conversion to and from the host's events,
  host logging, and the build metadata step.
