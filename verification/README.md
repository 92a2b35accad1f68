# wayhud

Text overlays for sway, with typewriter animation, a caret, synthesised sound,
scanlines and exit effects.

`src/` is the library: everything that is decided or computed, verified with
Verus. `app/` is the program around it: the command line, files, sockets, sway,
PulseAudio, GTK and the drawing. `tests/` runs the library.

## The library

| Module                                | What it states                                           |
| ------------------------------------- | -------------------------------------------------------- |
| `double`, `whole`, `decimal`          | IEEE 754 doubles on their bit patterns, and reading them |
| `rounding`, `bignum`, `order`, `bounds` | what the arithmetic of doubles rests on                |
| `text`, `error`                       | trimming, splitting, joining, escapes, refusals          |
| `spec`, `overrides`                   | command-line specs, and a style they are applied to      |
| `config`, `presets`, `paths`          | styles and their ranges, TOML presets, where files are   |
| `message`, `ipc`, `listen`            | input, datagrams, what a listener does with a message    |
| `timeline`, `untype`                  | reveal, hold and vanish, and when each character appears |
| `sound`, `synth`                      | the blip, and the track it is mixed into                 |
| `outputs`                             | which monitors a message lands on                        |
| `hud`                                 | what a frame shows and how large the surface is          |

Numbers are exact: a `Double` is a bit pattern, its `value()` an integer count
of units of 2^-1074, and every operation is stated as the exact result rounded
to the nearest double. The program converts with `f64::to_bits` and
`f64::from_bits`. Sines, exponentials and the blur of the halo stay in `app/`.

What is taken on trust is marked `external_body` or `assume_specification`, each
with a comment that names the outside function and says what is claimed of it.
