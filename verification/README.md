# cf-do-locator

Tells which region to place a Durable Object in, given the Cloudflare colo at
which a user arrived. The library is verified with Verus; the Cloudflare Worker
around it is ordinary Rust.

## Layout

- `src/` is the verified library.
  - `refresh` makes a new table of colos out of upstream data and the table
    before it: `components` reads the list of colos of a status page, `merge`
    puts the measured latencies in and picks the region with the lowest one,
    `hysteresis` damps changes of region, and `calendar` stamps the table with
    the day.
  - `latency` decides whether one latency is below another, at all or by at
    least `max(15 ms, 20 %)`, exactly as binary64 arithmetic does, on bit
    patterns.
  - `snapshot` is the table and what is published of it; `service` answers the
    four RPCs from it; `routes` has the paths and the plain replies.
  - `text` and `textmap` are strings in the order of their bytes, and maps that
    are keyed by them.
- `tests/` runs the library on concrete values.
- `app/` is the Worker: HTTP, KV, the clock, JSON, and the RPC messages. Those
  are generated from `proto/locator/v1/locator.proto` when the Worker is built;
  the definition and that build step are not in this directory.
