# fluxion

A job execution engine that runs WebAssembly components as the jobs of a
workflow DAG, each under its own filesystem, network and resource limits.

The library (`src/`) holds the engine's decisions and is verified with Verus:

- `workflow`: workflow definitions and their validation (every dependency names a job).
- `dag`: Kahn's topological order of the jobs; a cycle is reported exactly when
  no order exists.
- `scheduler`: the scheduling state machine (which jobs start when a job
  finishes, stop on failure, retry from a job and its downstream jobs).
- `state`, `store`, `runner`, `report`: job states, how they are stored and
  read back, run results and the reconstructed timeline of a run.
- `host`: the network allowlist check, memory and time limits, and how a
  component call is reported.
- `mcp`: framing and routing of the MCP server's JSON-RPC messages.
- `guests`, `stages`: what the task components compute (greeting, busy loop,
  allocation, file reader, network probe, and the four-stage vehicle pipeline).
- `text`, `seqs`, `wit`: text, sequence and path helpers.

`app/` is the command line program around it: argument parsing, the SQLite run
store, the Wasmtime host, the async scheduler loop, the MCP server loop,
telemetry, and the file and network I/O of the components.
