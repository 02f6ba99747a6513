# astro_core

The exact logic of an astrophotography stacker, written in Verus and proved
against its contracts.

## Layout

- `src/` — the verified library, one module per concern:
  - `text`, `clock` — characters, decimal rendering, calendar dates.
  - `kind` — what a frame is, read from the tokens of its path.
  - `frame`, `mosaic`, `compat` — layouts, the colour-filter grid, and the
    rules that decide whether two frames may be stacked or calibrated
    together, with the reason when not.
  - `session`, `scan` — a session of frames: interning, duplicates by
    content, exclusions, and filing what a directory scan found.
  - `sets`, `order`, `partition` — sets of frames, a stable sort, and the
    result of partitioning: lookup by key, ranking, the exact findings, and
    choosing the integration a command acts on.
  - `survey` — which lights of the chosen set a read takes: skip, step and
    a limit over the active members.
  - `combine`, `pipeline` — the decisions a combination and a pass make
    before reading a sample: method, memory, workers, which masters.
  - `fits`, `tiff` — every byte of the two output formats except the
    mapping of pixel values to samples.
  - `formats`, `error`, `journal`, `machine` — decoder bidding, errors, the
    pass log, and what the machine says about its cores and memory.
- `tests/` — tests of the library on concrete values.
- `app/` — a command-line program around the library: argument handling,
  directory walking, file I/O, logging, and the floating-point sample mapping
  for FITS and TIFF output.

## Not here

Everything that computes on pixel values is floating point and is not part of
this project: calibration (dark subtraction, flat normalisation, pedestals),
combining frames into masters, star detection and registration, integration,
frame statistics and preview rendering, and the exposure and gain tolerances
that group frames into sets and rank calibration candidates. Loading decoder
plugins through their binary interface, and the desktop window, are not
carried either.
