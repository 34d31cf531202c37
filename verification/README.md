# polyops

Boolean operations on polygons — intersection, union, difference and
symmetric difference — with the Martinez-Rueda-Feito sweep-line algorithm,
verified with Verus.

Vertices lie on the integer lattice (`[i32; 2]`), so orientation tests and
the order of events are exact; a crossing of two segments that falls
between lattice points is rounded to the nearest one. When that nearest
point does not lie on both segments (inside their bounding boxes and
strictly between their endpoints in x-then-y order), the crossing is not
reported and neither segment is split there.

## Layout

- `src/` — the verified library. Each module states its contracts over
  spec functions: the event order (`compare_events`), the sweep-line order
  (`compare_segments`), the event queue (a heap, `event_queue`), exact
  segment intersection (`segment_intersection`), splitting
  (`divide_segment`), classification (`compute_fields`), the sweep
  (`subdivide_segments`, with its termination argument in
  `segment_weight` and `split_progress`), contour stitching
  (`connect_edges`) and the four operations (`boolean_op`).
- `tests/` — tests on concrete inputs.
- `app/` — what stays outside the verified library: serializable copies
  of the public types, `geo-types` conversions, and Node.js bindings. It
  converts floating-point coordinates to lattice points, refusing those
  that are not whole numbers in the `i32` range.
