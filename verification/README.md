# api_gateway

An API gateway: clients ask for a route and are told which backend instance
serves it; backend instances register over HTTP, report themselves alive over
UDP, and are dropped from the instance table after ten seconds of silence.

- `src/` is the verified library (Verus). `load_balancing` and `round_robin`
  hold the balancing policy, `server_group` a list of servers behind a policy,
  `text` decimal formatting, and `services` the instances, services, route
  table, registry and health checker, each with contracts over plain-value
  views and with the laws they obey as proof functions.
- `app/main.rs` is the process: the HTTP proxy, the HTTP registry, the UDP
  health checker and the periodic cleaner, which hand plain values to the
  library and turn its answers into bytes.
- `tests/` exercises the library on concrete values.
