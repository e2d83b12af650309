# Velyx

Protocol primitives for an open peer-to-peer protocol, with contracts that Verus proves: the wire
format, the control plane, replay protection, capability negotiation, the session handshake over
Noise XX, a Kademlia routing table with provider records, and a data plane coded with RaptorQ.

## Layout

- `src/wire.rs`, `vwp.rs`, `control.rs`, `assembler.rs`, `frames.rs`: packets, frames, chunks and
  their reassembly. `codec.rs` holds the numbers and byte ranges that they share.
- `src/replay.rs`, `negotiation.rs`: the replay window, and what two offers lead to.
- `src/noise.rs`, `session.rs`, `session_laws.rs`: the secure channel, both sides of a session, and
  what holds across them.
- `src/dht/`: identifiers and distances, buckets, the routing table, closest nodes, provider
  records. `src/dht_bridge.rs` turns what the table asks for into commands and sealed packets.
- `src/stream/`: commands, the sender and the receiver of a coded object, deliberate network
  faults, and the counters of a transfer.
- `src/identity.rs`, `time.rs`, `error.rs`: names of nodes, moments and clocks, refusals.
- `app/`: a node on the command line, over UDP.
- `tests/`: the library, run on concrete values.

## Reading the contracts

Each type has a view: packets, frames and commands are records of byte sequences, a replay window
is the set of numbers it remembers, a routing table is a sequence of buckets, the storage is a map.
Contracts are equations over these views. Functions whose names start with `law_` state what holds
across operations.

What the outside crates do is stated in `noise.rs` (`snow`), `stream/raptor.rs` (`raptorq`),
`dht/id.rs` (`sha2`), `identity.rs` (`hex`, `ed25519-dalek`, `rand_core`), `frames.rs` and `time.rs`
(the standard library). These contracts are not proved.

Moments are numbers that a clock has counted since it was started, and only moments of one clock can
be compared. A routing table or a transfer starts a clock of its own, or is made with a copy of one
that others go by too (`with_clock`); `Clock::moment_of` gives the moment of one reading of the
system's clock for each of several clocks.
