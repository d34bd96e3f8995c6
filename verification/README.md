# comal

Stream operators of a sparse-tensor dataflow accelerator model, written in
Verus and proved against their contracts.

A tensor travels between operators as streams of tokens: a payload, a stop
token of some nesting level, an empty marker, or the done token.  Each
operator of the library takes whole input streams and gives back whole output
streams, together with how it ended (the done token seen, the input ran out,
or the inputs did not line up).  Every contract states the output exactly,
over a spec function that reads the streams token by token.

Layout:

- `src/templates/` — the operators: read and write scanners, joiners
  (intersection and union, two-way and n-way), repeaters, coordinate
  droppers, holders and masks, stop-token and value droppers, reducers and
  sparse accumulators, the streaming softmax accumulator, array loads with
  their memory-request side, locate and flatten, element-wise operators, token
  text, and the reading of arrays stored one number per line.
- `src/templates/ramulator/` and `src/templates/ramulator_context.rs` — the
  memory side: byte and chunk addresses, accesses, the per-address queues of
  waiting reads, the HBM channel model's decisions, and the backing store with
  its layout of compressed levels and value arrays.
- `src/proto_driver/` — the registry of stream channels by id that wires a
  graph of operators together.
- `src/config/`, `src/cli_common.rs`, `src/channel_file.rs` — configuration
  values and the parsing of stream files.
- `app/` — the command-line driver: file input and output, argument parsing,
  and the floating-point steps of its element-wise pipeline (addition, ReLU,
  zero tests).  The reducers and sparse accumulators hand their groups of
  values to the caller; for floating-point values the caller adds them up
  (the tests do so in helpers), and `Reduce::run_sums` adds up integer
  payloads itself.
- `tests/` — tests of the library on concrete streams.

Laws that span several calls (what a read gives back of an allocation, that
reads are taken in arrival order, that a text form reads back, that pipelined
and direct array loads agree, ...) are public proof functions beside the
operators they speak of.

Not here: building a dataflow graph from its protobuf description and
running it on the cycle-level simulation engine, the engine's ALU factories,
and the memory access logger's gathering of accesses from the engine (the
format of its log lines is here, in `templates/memory_logger.rs`).  They are written against the simulation
engine and the generated protobuf types, neither of which this library
builds on; the operators those builders wire together are all here.
