# sequencer

The logic of a synthetic-input tool for Linux: an autoclicker, and profiles that bind trigger keys
to taps, chords and sequences of steps with waits, chances and repeated blocks.

- `src/` is the library. What each function returns or changes stands in its contract, and Verus
  proves it. Whatever talks to the world in turns (a run, the manager, a terminal session) is a
  state machine there: it asks, and it is handed the answer.
- The files named `*_laws.rs`, and the functions named `law_*`, state what holds across functions:
  that nothing stays pressed, that an emergency stop is heard in every wait, that an iteration does
  exactly what its steps say.
- `app/` is the program around the library: arguments, files, devices, processes and the clock.
  Numbers with a fraction are read and formatted there too.
- `tests/` run the library.

Two functions in `src/profile/reformat.rs` call `toml_edit` and are believed, not proved: one reads
the arrays of a document, the other writes them back. All that is believed of them is that what they
give depends on what they are given. So is what `src/text.rs` says of
`String::push`.
