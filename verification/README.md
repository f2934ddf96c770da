# ruuter_on_rust

The verified core of a DSL-driven API gateway. HTTP routes, event
triggers and WebSocket handlers are described by YAML DSL files; this
library holds the decisions the gateway makes around them, each with a
contract that Verus proves:

- request handling: the method/CSRF/If-Match gate, project and DSL key
  resolution with path parameters, guard chains (`guards`), response
  status and body shaping, client-address choice (`router`);
- outbound calls: self-call, Unix-socket and TCP routing, SSRF policy,
  query merging, size and status limits (`outbound`, `ssrf`, `uds`,
  `client`, `urls`, `netaddr`);
- the step engine: step classification, scheduling with recursion caps,
  switch/return/http/log/template/iterate/state steps, expression
  extraction and interpolation (`dsl`, `engine`, `steps`, `flow`,
  `executors`, `scripting`, `interpolate`);
- state, idempotency, single-flight and WebSocket tag registries
  (`state`, `idempotency`, `single_flight`, `ws`, `triggers`);
- outbound WebSocket sources and their supervision (`sources`,
  `supervisor`);
- logging helpers and the log line format (`logging`, `logfmt`,
  `observability`);
- tooling: the DSL linter, the guard audit, the OpenAPI document, the
  test-runner pieces, hot-reload filtering and start-up settings
  (`lint`, `lint_files`, `audit`, `openapi`, `openapi_doc`, `testkit`,
  `runner`, `hot_reload`, `settings`, `loader`, `serve`);
- `laws`: properties that relate several functions.

`app/main.rs` is the `dsl-lint` command: it walks a DSL tree, decodes
YAML into the library's JSON values and prints the report.

JSON crosses into the library through `serde_json`: request bodies,
upstream answers and WebSocket frame text are decoded by it
(`json::parse_json_bytes`, `json::parse_json_str`), and values are
rendered by it (`json::to_json_string`). Their results are named
(`json_parse_result`, `json_str_parse_result`, `serde_json_text`), and
the functions that decide on them (`router::request_body`,
`outbound::upstream_body`, `sources::text_frame_dispatches`) state
their answers in terms of those names.

The gateway's concurrent maps (the state store, the WebSocket tag and
connection tables, the idempotency, single-flight and source tables)
and the ordered step map of a DSL are held here as vectors owned by
their store and changed through `&mut`, with the uniqueness of their
keys stated as each store's invariant.
