# activity_transform

Preprocessing of ActivityWatch events, verified with Verus.

- `flood_window` / `flood_afk` fill the micro-gaps between heartbeat events:
  equal data closer than the pulse time merges, different data splits a short
  gap between the two events.
- `extract_not_afk_periods` takes the `NotAfk` periods of AFK events.
- `filter_period_intersect` cuts window events down to periods with a
  two-pointer walk.
- `preprocess_active_window_events` chains the three.

Instants are integer nanoseconds since the Unix epoch (`i128`), durations integer
nanoseconds. Gaps and lengths computed from two instants are measured in
whole milliseconds, rounded toward zero, as chrono's `num_milliseconds` does;
so a short gap between different data is split with exactly half of it going
to the earlier event.

Layout:

- `src/models.rs`: the event types and their views as spans `(start, end, data)`.
- `src/spans.rs`: the model the contracts speak of (`flood_spans`,
  `intersect_spans`, `not_afk_periods`, `active_spans`).
- `src/transform.rs`: the executable functions, each with a contract that
  pins its result to the model.
- `src/laws.rs`: proved properties: on millisecond-aligned input, flooding
  closes micro-gaps, is idempotent and removes no activity; it keeps sorted
  streams sorted; on sorted
  inputs the two-pointer walk gives every piece of every event inside every
  period; every active piece lies in a not-AFK period.
- `app/lib.rs`: the same functions over chrono instants and float seconds,
  converting at the boundary.
