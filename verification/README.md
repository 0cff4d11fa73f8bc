# anarchy_time_control

Time control curves for the tracks of AviUtl2 effects: how a track's control
points are read as a curve, how a curve of Bezier, elastic and bounce segments is
stored in control points and read back, and how the editor follows the object
that has the focus.

The library is written in Verus. Numbers are IEEE 754 doubles, held as bit
patterns with arithmetic of their own, so that what is stored is stated to the
last bit. What it cannot compute by itself, such as an exponential or the name of
an effect, it asks for: its samplers, its object reader and its watcher are state
machines that give a question and take the answer.

- `src/double.rs`, `rounding.rs`, `arithmetic.rs`, `conversion.rs`, `numbers.rs`,
  `precision.rs`: doubles, and how close they stay to the exact numbers.
- `src/curve.rs`, `spans.rs`, `elastic.rs`, `elastic_sampler.rs`, `bounce.rs`,
  `bounce_sampler.rs`, `sampler.rs`: curves, and how their segments are drawn.
- `src/span_order.rs`, `bounce_joints.rs`, `bounce_precision.rs`: that segments are
  drawn from left to right, and how the bounces of a segment meet.
- `src/quantization.rs`, `curve_io.rs`, `round_trip.rs`, `connection.rs`, `error.rs`:
  how curves are stored, what is read back, and when the segments still meet.
- `src/tracks.rs`, `object_reader.rs`, `selection.rs`, `bounds.rs`,
  `bounds_precision.rs`, `watcher.rs`, `plugin.rs`: tracks, the editor's state, the
  part of a curve that it shows, and the plugin.
- `app/`: the plugin itself, which talks to the host and draws the window.
