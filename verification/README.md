# sanbox

A terminal (and browser) animation: a line of text bounces over a bed of
sand, scattering grains, scratching the bed and leaving the wind to drift the
sand back.

- `src/` is the verified library: the grid of grains and its moves
  (`grid`), the text bitmap (`text`), the per-frame plans of what the text
  scratches, scatters and paints (`stamp`), the resampling of fields on resize
  and the per-frame sample counts (`field`), the bed's texture hash (`noise`),
  the ANSI half-block encoding of a frame (`renderer`) and its RGBA and CSS
  encodings (`frame`). `random` holds the one call into `fastrand`.
- `app/` is the program around it: the command line, the terminal loop, the
  browser bindings, and the floating-point part of the simulation (colours,
  velocities, wind and scratch depths).
- `tests/` exercises the library on concrete frames and grids.
