# legion

Verified core logic of the Legion engine, written in Verus.

- `src/` is the library. Every function in it is verified against its
  `requires` / `ensures` contract; calls into outside crates (byteorder,
  xxhash-rust, hex, fixedbitset, syn, diffy) go through small trusted
  wrappers whose doc comments say what is assumed of them.
  - `resource_type`, `asset_registry`, `transaction`, `multitext_resource`:
    resource identification and loading state.
  - `graph`: the dependency graph of a system schedule and its topological
    order.
  - `hierarchy`: keeping children lists in step with parents.
  - `shader_resources`, `buffer_view`, `pipeline_states`, `static_buffer`,
    `instance_table`, `yuv`: rendering and streaming layout rules.
  - `mp4`: the sample-offset atom, read and written byte for byte.
  - `source_control`, `diff`, `build_device`: workspace changes, diffs and
    data builds.
  - `data_codegen`, `api_codegen`, `type_reflection`: what the code
    generators read and plan.
  - `telemetry_sink`, `event_sink`, `async_spans`, `encoding`: telemetry
    decisions.
- `tests/` runs the library on concrete values.
- `app/` holds what cannot be verified: serde forms of the library's types,
  the conversion of syntax trees, token output and the external commands.
