# raylet_rs

Resource bookkeeping and scheduling decisions for a Ray raylet node, with
the rules of its command line, port files and Python-facing calls, written
in Verus: every function in `src/` carries a contract that Verus proves.

Resource quantities are fixed-point integers (`RESOURCE_UNIT_SCALING` units
per resource unit), so capacity checks are exact.

## Layout

- `src/str_map.rs`: string-keyed maps (resource sets, labels) as
  association lists with distinct keys.
- `src/resources.rs`: capacity checks, saturating arithmetic, label
  selectors.
- `src/cluster_resource_scheduler.rs`: placing requests on the nodes of a
  cluster view (preferred node, least recently selected node, spillback),
  and releasing them.
- `src/scheduling/local_resource_manager.rs`: the local node's resources
  and the time since which each resource or kind of work has been idle.
- `src/clock.rs`: the wall clock behind the idle times.
- `src/scheduling_ffi.rs`, `src/scheduler.rs`, `src/scheduler_ffi.rs`: the
  values and handles exchanged with C++.
- `src/command_line.rs`: splitting resource and label text, trimming, and
  reading labels given as JSON.
- `src/port_file.rs`: the text of port files and the steps of waiting for
  one.
- `src/address.rs`, `src/serialization.rs`: `host:port` addresses and the
  msgpack buffer layout.
- `src/core_worker_calls.rs`, `src/node_table.rs`, `src/gcs_replies.rs`:
  the decisions behind the core worker's and the GCS client's Python-facing
  calls.

Public proof functions named `law_*` state properties that span several
operations, such as a release undoing an allocation or a written port
reading back.

`app/` holds what Verus does not check: the binary, the C ABI structs and
their raw-pointer reading, the `cxx` bridges, command-line parsing with
`clap`, floating-point resource quantities, and file and network access.
`tests/` exercises the library on concrete values.
