# interceptkit-proxy

The rule engine and control plane of the InterceptKit local proxy, written
in Verus with its behaviour stated in contracts and proved.

- `src/` is the verified library: rule matching and overlap resolution
  (`rules`, `glob`), request and response edits (`rewrite`), the decisions
  of the HTTP proxy (`proxy`), the control API's operations (`control`) and
  the shared state with its event log (`state`). Header maps, JSON values,
  URL and regex parsing, the clock and random ids come from the `http`,
  `serde_json`, `url`, `regex`, `chrono` and `uuid` crates through small
  trusted wrappers (`headers`, `json`, `glob`, `text`, `clock`).
- `app/` is the program around it: the axum control server, the hyper
  proxy listener, upstream calls, CONNECT tunnels and delays, and the JSON
  forms of the library's types.
- `tests/` exercises the library on concrete values.
