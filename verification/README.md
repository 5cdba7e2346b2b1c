# ED Compass

Elite Dangerous hides signals in its audio. This library listens for them: it cuts a sample
stream into frames, learns what the background of every frequency bin looks like, and reports
what stands out of it, what is keyed like a transmission, what is drawn like a picture, and
what repeats.

The analysis is written in Verus. Each function states what it returns, and the proofs show
that it does, without overflow and without panics.

## Layout

- `src/` is the verified library.
  - `analysis/` holds the instruments: frames (`stft`), the background model (`background`),
    events (`novelty`), keyed tones (`keying`, `morse`), drawings (`structure`, with
    `gradient`, `strokes` and `drift`), faint strokes (`trace`, `trace_scale`), repeats
    (`periodicity`, `fold`), bearings (`direction`), histories (`spectrogram`) and signal
    health (`statistics`).
  - `audio/` holds stream formats, endpoints, the sample ring and recordings.
  - `pipeline/` ties the instruments together: the engine takes frames and gives detections.
  - `config`, `retention`, `game_window`, `single_instance` and `ui/` decide on settings, on
    what to delete when the disk is full, on where the overlay goes and on what it says.
  - `rank`, `order`, `arith` and `text` are what the rest is stated with: order statistics,
    stable ordering, whole-number arithmetic and decimal text.
- `app/` is what surrounds it: the Fourier transform, logarithms and angles, configuration
  files, the disk, the operating system and the screen.
- `tests/` runs the library on signals.

## Units

The library computes in whole numbers. Seconds, hertz, decibels, degrees, pixels and ratios
are held in millionths, pitches in millionths of an octave above one hertz, and times on the
overlay's clock in milliseconds. Amplitudes are counted in steps of which 16,777,216 are full
scale, and shares of a histogram in billionths. A level that is not a number is `None`.
Quotients are rounded down unless a comment says otherwise.

## Laws

Statements that span functions are public proof functions named `law_..`: that a read gives
back what was written, that half the window decides the background, that suppression only
removes, that an offset does not move a period, that the brightness of a picture does not move
its strokes, that captures taken by hand go last, and more. Each stands beside the functions
it speaks of.

## What is trusted

Recordings are decoded by `hound` and `claxon`, and sidecars are read and written by
`serde_json`. The functions that call them are marked as such, and their comments say what is
taken on trust.
