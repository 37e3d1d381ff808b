# traffic_dvr

A DVR service for traffic cameras: it records HLS streams (or RTMP pushes identified by a
stream key) into 4-second segments, keeps a rewind window of recordings per camera, and
serves live, DVR and full-archive HLS playlists over an HTTP API with token-based login and
administrator routes.

## Layout

- `src/` — the verified library. Every function carries a contract, and Verus proves it,
  except for seven small trusted wrappers that make the outside calls (the clock, the
  UTC day of a time and date parsing through chrono, bcrypt's hash and verify, uuid's
  random UUID, and `String::push`): Verus believes their contracts, which follow those
  crates' sources, without proof.
  - `dvr.rs` — DVR and full playlists built from a camera's segments, the segment time span.
  - `order.rs` — the stable ordering of segments by time (a verified merge sort).
  - `live.rs` — rewriting the recorder's live playlist so its segments route through the API.
  - `archive.rs` — the calendar days that archived segments cover (by their times and names).
  - `recorder.rs` — paths, ffmpeg arguments, the per-camera recording decision, retention.
  - `admin.rs` — stream keys, camera and user updates as SQL, last-administrator rule.
  - `auth.rs` — bearer tokens, admission by role, session claims, password checks.
  - `text.rs` — character-level string helpers (escaping, decimal text, parsing, joining).
  - `clock.rs` — the wall clock.
  - `models.rs` — the records the API exchanges.
- `tests/` — tests of the library on concrete values.
- `app/` — the server around the library: HTTP routes (axum), the SQLite database (sqlx),
  JSON web tokens, the background recorder and cleanup loops and the ffmpeg processes.
