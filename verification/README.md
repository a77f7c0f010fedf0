# xiaomi_proxy

A reverse proxy that spreads requests to an upstream LLM API over a pool of
upstream keys, authenticates its own clients, retries failed requests and
records usage.

The decisions the proxy makes form a verified library (`src/`):

- `proxy::key_pool`: the weighted round-robin pool of upstream keys with
  health tracking, and its laws (each key's share of a turn equals its
  weight; three failures in a row take a key out of rotation; a success
  resets the count; a recovered key is back with full weight).
- `proxy::retry`: which statuses are retried, the jittered exponential
  delay, and the retry policy as a state machine driven by the server.
- `proxy::forwarder`: upstream URLs and the header rewrite that replaces the
  client's credentials with an upstream key.
- `middleware`: client-key authentication and the admin Basic-auth check.
- `config`, `error`, `state`, `storage`, `handlers`: configuration and its
  environment overrides, error answers, start-up seeding of keys, the usage
  query, and the small decisions of the HTTP handlers.

`app/` is the server around it (axum, reqwest, libsql, tokio): it reads the
configuration file, performs the HTTP and database I/O, runs the retry
loop, and keeps the per-client token buckets, whose floating-point
arithmetic stays outside the library.
