# nightmode

A dialogue-preserving dynamics processor for watching films quietly, written and proved in
Verus. It turns loud effects and music down and leaves dialogue alone.

The processor tracks the level of the dialogue and places its threshold `headroom` dB above
it. A slow stage does most of the work, a fast one catches the leading edge of impacts, and a
dialogue detector can only ever take reduction away. In silence the detector stands still, and
`dialogue_protection: 0` switches it off and leaves a plain leveler. Reduction comes with a
bass shelf, dialogue can get a presence lift, and nothing leaves above the ceiling.

## Numbers

All quantities are `PrcFmt`: saturating fixed-point numbers, signed 128 bit multiples of
2^-80. Every operation is total and exactly specified, so the processor is too: the contract
of each method equates the processor's state and the audio after the call with mathematical
functions of what was there before. Sums are exact; products and quotients are cut toward
zero; logarithms, exponentials and angle functions have their own exact definitions.

## Layout

- `src/fixed.rs`, `src/decibels.rs`, `src/trig.rs`: arithmetic, decibels, angles.
- `src/filters.rs`: second order filters and the soft clipper.
- `src/config.rs`, `src/validation.rs`, `src/tuning.rs`, `src/settings.rs`: settings, their
  rules, fixed constants, and the numbers that the processor derives from them.
- `src/sidechain.rs`, `src/hops.rs`, `src/gain.rs`, `src/output.rs`: what is measured of a
  chunk, what is learned per hop, how much to turn down, and what becomes of the audio.
- `src/model.rs`: the processor as a mathematical value.
- `src/night_mode.rs`: the processor.
- `src/laws/`: what holds of the processor as a whole.
- `tests/`: the processor on audio, and the promises on concrete values.
- `app/`: the same processor for pipelines that carry floating point samples.
