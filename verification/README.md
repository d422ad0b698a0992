# tasahertsiö

A linear frequency shifter for the browser: every frequency of a stereo stream
is moved by the same number of hertz, either in the time domain (a Hilbert
transformer and a complex carrier) or in the frequency domain (a short-time
Fourier transform with overlap-add).

- `src/` is the verified library. It is generic over the sample type and the
  spectrum bin; the arithmetic on them is handed in through the traits of
  `math`, of which nothing is assumed. Contracts say which operations were
  applied to which values.
  - `ring`, `frame`, `stream`: delay lines, frames, and what it means to process
    a stream sample by sample.
  - `repeat`: arithmetic that gives the same result for the same arguments.
  - `rounding`: arithmetic whose results are exact up to a small error, and what
    wrapping an angle comes to in it.
  - `dsp`: the two engines, the switch between them, and what holds of them over
    whole streams (`dsp::laws`, `dsp::ssb_laws`, `dsp::engine_laws`), where signs
    cancel (`dsp::sign_laws`) and where results round (`dsp::bound_laws`). What
    these ask of the arithmetic, `f32` with rounding to nearest gives: its two
    zeros count as one number, and a result is off by no more than one part in
    sixteen million. Of sine and cosine they ask that they are odd and even, and
    at most 1.
  - `block`: one audio callback.
  - `audio`: the transport.
  - `controls`, `spectrum`: what can be set, and what is shown.
- `tests/` runs the library on `f32` samples with a Fourier transform of
  `rustfft`, and holds it against plain loops.
- `app/` is the web front end: the `f32` arithmetic, the Web Audio graph, the
  page and the canvas.
