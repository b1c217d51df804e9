# ratpak

Building blocks of a software-defined-radio receiver for cheap 433 MHz
sensors and remote-controlled outlets, written in Verus.

`src/` is the verified library:

- `bits` — binary-digit codecs: `b2d`, `eat`, `binconv`, `decoder`.
- `runs` — run-length coding of symbol streams (`rle`, `rld`) and its laws.
- `kpn` — stream processors of a Kahn process network, each given as the
  function from the input read so far to the output written so far, with
  step-wise state where a processor keeps state.
- `streams` — the same processors under their camel-case names.
- `network` — wiring of a flow graph (`spinUp`): which process reads and
  writes which channel, with the laws that every channel has one writer and
  at most one reader.
- `oblw` — bit vectors (from the `bit-vec` crate), bytes and USB packets.
- `outlet` — the pulse trains that send outlet codes, read from a TOML
  document (parsed with the `toml` crate).
- `unpackers`, `sensors` — temperature sensor packet decoding.
- `vidsink` — the sample window behind the bar-plot display.

`app/` is the program around it: threads and channels that run the
processors, the radio, sound and USB bindings, the display, and the
floating-point signal processing.
