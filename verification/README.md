# bach

A small music sequencing library with machine-checked contracts, and the command line programs
around it.

The library (`src/`) is verified with Verus:

- `units`: durations, notes in scales and modes, velocities; their MIDI values and text forms.
- `midi`: MIDI 1.0 and MIDI 2.0 (UMP) encodings of note, control change and clock messages.
- `sequencer`: Euclidean rhythms, tick clocks, the MIDI sequencer that queues messages by tick
  and emits them tick by tick, and the clip instructions with their text form.
- `player`: which clip instruction runs next, given jumps that jump once.
- `config`, `clipfile`: the settings file and the clip file formats.
- `mutation`: how a clip instruction mutates, given the random parts drawn for it.
- `commands`: the clip prompt's edit command.
- `text`: the decimal and separator handling the parsers and printers share.

`app/` holds what stays outside the proofs: file and device I/O, the stack machine and the
genetic algorithm (both in floating point), random generation of clips, and the interactive
programs `play`, `vm` and `evolve`. `tests/` exercises the library on concrete values.
