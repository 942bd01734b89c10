# socketup

A static readiness probe for distroless containers. The library (`src/`)
holds the logic, verified with Verus:

- `addr`: numeric probe targets (`a.b.c.d:port`, `[ipv6%scope]:port`, and the
  `8080` / `:8080` shorthands for 127.0.0.1), so host names are refused;
- `config`: validation of the parsed configuration (check names, timeouts,
  targets) and lookup of a check by name;
- `check`: how the probe results of a check's targets combine into its
  outcome in `all` and `any` mode, one probe at a time;
- `run`, `exit`, `cli`: exit codes, messages and the version's target triple;
- `text`: character-sequence helpers (digits, splitting, trimming).

`app/` is the program around it: command-line parsing, reading and
deserialising the YAML file, the TCP connections, printing, and copying the
executable for `install`.
