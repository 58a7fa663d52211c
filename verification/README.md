# persistex

Orthogonal phase-optimised multisine excitation design for system
identification of UAS. Each input gets a mutually exclusive set of harmonic
bins of the record, so one manoeuvre separates every input's contribution;
phases are then optimised per input to minimise the relative peak factor.

## Layout

- `src/` is the verified library (`persistex_core`), checked by Verus:
  - `design.rs`: bin allocation (free bins, arithmetic runs, nearest-bin
    snapping), tone snapping and collisions, shared bins, grid sizes and the
    structural errors of a design;
  - `fft.rs`: powers of two and the bit-reversal permutation;
  - `optimize.rs`: effort budgets, the annealing schedule of the lp-norm stage,
    the deterministic random stream and the choice of channels to optimise;
  - `plot.rs`: which samples a drawn trace keeps;
  - `export.rs`, `sha256.rs`, `calendar.rs`: the JSON design artifact, its
    SHA-256 seal and the UTC timestamp.
- `app/` is the desktop program around it (egui): the floating-point signal
  synthesis, FFT butterflies and phase optimisers, file output and the user
  interface.
- `tests/` exercises the library.

## The design artifact

The JSON artifact records the sample rate, f0, record length, repeats,
duration and sample count, and for each input its name, bins, frequencies,
scaled amplitudes, phases, peak limit, RPF and the band and number of tones it
asked for, sealed with a SHA-256 of the document. It records no amplitude
shape, spacing or harmonic-selection mode: an input is a list of tones, which
may have been typed in or generated with any settings, so a design carries no
such settings to write down.
