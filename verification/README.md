# FrameBoost

Present more frames than you render, and know when to stop.

FrameBoost sits between a renderer and a swapchain. It lets the renderer draw
fewer and smaller frames than the display consumes, and reconstructs the
difference: in space by upscaling, in time by generating frames. What it is
about is the loop around the reconstruction, which notices when the result has
stopped being trustworthy and hands the boost back.

```
active_rung = min(perf.requested, quality.ceiling)
```

Being over budget never buys a rung that quality has withdrawn.

## Layout

- `src/` is the library. Every function has a contract, and all but two are
  proved with Verus; the two are named at the end.
  - `level`, `signals`, `governor`, `pacing`, `telemetry`: the control loop.
  - `frame`, `recon`: planes of pixels, and the passes over them.
  - `gpu`: layouts, parameters and sums for running the passes on a device.
  - `sim`: a headless simulator with six scenarios, its options and its reports.
  - `fp`: single and double precision, computed on bit patterns and proved
    correctly rounded. Contracts can speak of a result exactly.
  - `text`: numbers and paragraphs as text.
  - `laws`: what holds across functions, such as that quality vetoes
    performance, that trust always comes back, or that sharpening never clips.
- `app/` is the simulator's command line, and the device code that a renderer
  calls.
- `tests/` runs the library.

## Running

```sh
frameboost-sim
frameboost-sim --scenario whip-turn --native-ms 90
frameboost-sim --scenario fence --csv > fence.csv
```

The simulator computes every number in software, so a full run at 192x108 takes
many minutes; `--width 96 --height 54 --no-pipeline` takes some ten seconds for
each scenario.

## What is trusted

The bytes that go to a device and come back are laid out by `bytemuck`, which
`bytes_of_words` and `words_of_bytes` in `gpu` call. Their contracts are taken on
trust; every other function is proved. Which end of a word comes first is up to
the machine, and no contract says which; that it is the same end on the way back
is taken from `bytemuck`.

Sines, cosines and the reading of decimals are handed in by the program, and
every contract holds whatever they give.
