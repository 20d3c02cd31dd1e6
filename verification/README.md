# goish runtime library

The runtime library of `goish`, verified: its page allocator and span bitmaps, the
memory profiler's tables, the profile encoders (protobuf, its gzip
framing, and the legacy text form), the naming of a profile's PCs and
the profile registry, the report on a goroutine that fails the
dispatcher's checks, symbolization (ELF symbol tables,
DWARF readers, address ranges, compilation directories, both Rust
mangling schemes), the network poller's bookkeeping, signal
registration, goroutine stacks and Ps, and the `slices` package.

- `src/` is the library; every function in it is verified by Verus
  against its `requires`/`ensures` contract, and the laws that relate
  functions stand there as public proof functions.
- `tests/` runs the library on concrete inputs.
- `app/` holds what the library leaves to the process: the globals and
  locks, the system calls, file reads, signals, the floating-point
  sampling draw, and the lock-free ring.
