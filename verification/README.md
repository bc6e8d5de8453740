# kcp_tokio

A reliable ARQ protocol (KCP) over datagrams. The protocol library in `src/` is written in Verus:
every function states what it does in `requires` and `ensures` clauses, and Verus proves that it
does so. The Tokio runtime around it is ordinary Rust in `app/`.

## Layout

| Path | What it holds |
|------|---------------|
| `src/engine.rs`, `src/engine/` | The protocol engine: a synchronous state machine, and the laws about it |
| `src/protocol.rs`, `src/sequence.rs`, `src/endian.rs` | Wire format, sequence numbers, byte order |
| `src/config.rs`, `src/error.rs`, `src/text.rs` | Settings, errors, and their texts |
| `src/actor.rs`, `src/stream.rs`, `src/listener.rs` | The decisions of the tasks around an engine |
| `src/connection.rs`, `src/connection_manager.rs`, `src/session.rs` | Tables of connections, streams and sessions |
| `src/buffer_pool.rs`, `src/metrics.rs` | Buffer pools and statistics |
| `src/buffers.rs`, `src/routes.rs`, `src/clock.rs` | What is taken for granted about other crates and about the machine |
| `tests/` | Tests that run the library |
| `app/` | Sockets, tasks, channels and clocks |

## How to read the engine

`EngineModel` is what an engine stands for. Each operation is a function on models:

- `queued` for `send`, `received` for `recv`, `fed` for `input`, `flushed` for `flush`,
  `updated` for `update`.
- An operation's contract says that the engine's model afterwards is that function of its model
  before.

The laws are proof functions whose names begin with `law_`. They speak of the same functions:

- `wire_laws.rs`: datagrams carry the segments of a flush, and fit the transmission unit.
- `delivery.rs`: whatever arrives, the application gets what was sent, in order and once.
- `supply.rs`: what the receiver lacks, the sender still holds.
- `progress.rs`: a flush that gets through delivers what is lacking, and an answer clears the
  sender.
- `transfer.rs`: a message comes out as it went in.
- `conversation.rs`: the messages that one side sends are the messages that the other side gets,
  in whatever order the datagrams come and however often.
- `control_laws.rs`: flow control, retransmission and timing.
