# ckb_native_simulator

The bookkeeping of a simulator that runs scripts of a chain's virtual machine as native
programs: processes, the pipes between them, who waits for whom, and which native library
stands for which on-chain binary. It is written in Verus; each function's contract is proved.

- `src/fd.rs`, `src/ids.rs`, `src/status.rs`: pipe ends, numbers, and what a process waits for.
- `src/walk.rs`, `src/scheduler.rs`: one round of scheduling over the waiting processes.
- `src/context.rs`: a simulation, with its processes and pipes.
- `src/delivery.rs`, `src/laws.rs`: what holds of bytes on their way, and of a simulation as a
  whole.
- `src/event.rs`, `src/spawn.rs`, `src/binary.rs`: the process table that native binaries
  share, the calls they make on it, and how a binary is found.
- `src/outside.rs`: the functions of other crates that the proofs rely on.
- `app/`: threads, locks, shared libraries and the C interface around the library.

The order in which waiting processes are looked at is not specified. The functions whose name
ends in `_along` take it as an argument.
