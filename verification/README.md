# bifrost_api

The decision logic of the Bifrost smart-home hub's HTTP API, written in Verus
with its behaviour stated as contracts and proved.

- `src/` — the verified library: rule validation and the automation engine's
  steps (edges, stay timers, timed holds and their manual-change watch, timer
  passes), the kiosk display scheduler, media and audio composition and
  routing, light-state merging, palettes and scenes, floor plans, API keys,
  logins and sessions, the event-stream registry, and the text parsing they
  rest on. Calls into outside crates (hashing, Argon2, UUIDs, randomness,
  date parsing) stand behind small trusted wrappers whose contracts say what
  the crates' sources show.
- `tests/` — tests of the library on concrete values.
- `app/` — the unverified edge: clock reads, floating-point conversions,
  HTTP header adapters and the serde forms of the library's types.
