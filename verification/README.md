# simple_sort

A small SORT-style multi-object tracker, verified with Verus.

Each frame, every live track is predicted by a constant-velocity Kalman filter,
predicted boxes and detections are matched by minimum-cost assignment at cost
1 - IoU, the IoU threshold is applied to the assignment, and tracks are created,
kept, reported and dropped. Detection confidence does not affect association;
optional modes use only high-confidence detections, or use low-confidence ones
only to maintain tracks in a second pass.

- `src/` holds every decision, with contracts that Verus proves: assignment
  (cheapest, and which one of several), association, the life of tracks, the
  scenes of a batch, and laws that relate them.
- `app/` holds the floating-point part, motion and overlap, and the Python
  classes. Numbers pass between the two by their binary64 bits.
- `tests/` runs scenarios with real boxes and checks exact values.
