# Blob World

A blob is a sphere with bumps that can lean and bend, drawn as a cloud of
particles. A panel shapes it while it is shown, and it keeps its volume.

The library under `src/` is written in Verus and holds the logic:

- `scalar`: single-precision numbers as bit patterns; their order, sign, minimum
  and clamping, proved against the numbers that the bits stand for.
- `math`: the rounded arithmetic that the geometry is computed in. It is a
  parameter: contracts fix each result as a formula over it.
- `bump`, `bend`, `blob`: directions, lean axes, the greatest safe bend, radius,
  volume and its conservation.
- `rounding`, `scaling`, `ordering`, `tolerance`, `perpendicular`: what holds where
  the four basic operations are correctly rounded. `rounding` says what that
  means. The others hold the laws of size (a blob of twice the size, a blob that
  is already at its volume), of order (what grows with what), and of accuracy (how
  close volumes, lengths and right angles come to what they are to be).
- `uniforms`: the block that the compute shader reads, down to its bytes.
- `panel`: the controls, in order, with the limits that they enforce.
- `frame`, `session`: what the GPU is given for a frame, and what is done on the
  events of the window.

`app/` is the program around it: the machine's arithmetic, the window, the
drawing of the panel and the GPU.

What is taken on trust:

- that `bytemuck` makes zero words and reads words as the bytes they are stored in
  (`uniforms`);
- the arithmetic. Every geometric result is fixed as a formula over the operations
  of `math`, and holds of the numbers that an implementation of it computes. The
  machine's operations stand in `app/`, and so do the formulas of the operations on
  vectors (normalize, cross product, multiple, difference, rotation): to the library
  they are operations like the others. Laws that need more of an operation say so
  among their conditions.
