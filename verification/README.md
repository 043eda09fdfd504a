# gkr_sumcheck

A verified prover for the GKR protocol. It proves the evaluation of layered arithmetic circuits
over the Mersenne-31 field, one instance or many in lockstep, and can run the rounds of its
sumchecks on a GPU.

The library holds no transcript, no message passing and no GPU calls. A proof is a state machine:
the prover says what it needs next (values to combine over the processes, messages to append, a
challenge to draw, an operation on the device), and is advanced by the answer. `app/` holds the
drivers that answer, and the CUDA runtime.

## Layout

- `src/field.rs`, `m31.rs`, `engine.rs`, `poly.rs`: the fields and the polynomials over them.
- `src/product_gate.rs`, `simd_gate.rs`, `scatter.rs`: the rounds of a sumcheck and the tables
  that its phases start from.
- `src/layout.rs`, `device.rs`, `cuda_dispatch.rs`: word layouts, the operations on the device,
  and the contexts that keep tables there.
- `src/circuit.rs`, `instance.rs`, `batch.rs`: circuits and what one or more provers hold.
- `src/protocol.rs`, `sumcheck.rs`: one layer; `src/gkr_protocol.rs`, `gkr.rs`: a whole circuit.
  The first of each pair is the protocol as mathematical functions, the second carries it out.
- `src/lockstep.rs`: a batch asks of each instance what that instance asks alone.
- `src/algebra.rs`, `rounds.rs`, `extension.rs`, `gates.rs`, `claims.rs`: why a sumcheck's
  messages and claims are right.
- `src/chain.rs`, `transcript.rs`, `interpolation.rs`: how the messages of a layer hang together,
  round by round and over both phases, in any run that its processes make together.
- `src/agreement.rs`: what the scratch pads held before does not matter.
- `src/transfer.rs`, `dispatch.rs`, `offload.rs`: a GPU is not noticed, whether it does its work
  or fails at any point.
- `src/machine.rs`, `residency.rs`: what the GPU's kernels leave in its memory, alone and in a
  batch, and that its answers are then those of the host's tables.
- `src/ownership.rs`: device memory is freed, once.
