# nodescheduler

Placement of pods on nodes: a queue driven by cluster events, a set of plugins
that filter and score nodes, preemption, and extenders.

- `src/` is the library. Its public functions carry contracts that Verus proves.
  The proofs rest on a few private functions whose contracts are believed. Each
  makes a call to the outside and says what that call does: `text_eq` and
  `debug_text` in `text`, with `String::push`, and `is_white_space` in `quantity`
  (the standard library), `read_integer` and the `ratio_` functions in `quantity`
  (`num-bigint` and `num-rational`), `operand` and the `install_` functions in
  `quantity` and `new_context`, `maps_to_cel`, `bind_device` and `run` in
  `dynamic_resources` (`cel`), and `read_base64`, `read_url` and `replace_host` in
  `extender` (`base64` and `reqwest`).
- `tests/` runs the library on concrete values.
- `app/` is the process around it: configuration, the API server, extenders over
  HTTP, and the two scores that are measured in floating point.

In `src/`, `cache` holds the cluster as one cycle sees it, `framework` the
extension points and the plugins behind them, `queue` the waiting pods,
`preempt` the choice of victims, and `extender` what is sent to services outside
and what their replies mean. `text`, `maps` and `numbers` are what the others
are written with.
