# ChainLightning

A multi-WAN UDP bonding tunnel for Linux: it aggregates the bandwidth of
several internet connections into one TUN interface.  The logic is a library
written in Verus; what the program around it does with sockets, devices, files
and locks is ordinary Rust.

## Layout

| Place | What it holds |
|-------|---------------|
| `src/protocol.rs`, `src/wire.rs` | packets and flow IDs on the wire |
| `src/rate_controller.rs` | rates, loss and path states from probes |
| `src/link_scheduler.rs`, `src/share.rs`, `src/order.rs` | which link takes the next chunk |
| `src/flow_classifier.rs` | which flows are realtime, bulk, or kept on one link |
| `src/chunk_aggregator.rs`, `src/receiver.rs` | packets into chunks, and chunks back in order |
| `src/optimizer.rs` | hill climbing on the links' weight factors |
| `src/stats.rs`, `src/metrics.rs`, `src/usage.rs`, `src/measure.rs` | measurements |
| `src/config.rs` | configuration, its defaults and its validation |
| `src/framework.rs`, `src/scenarios.rs`, `src/report.rs` | A/B tests and their reports |
| `src/client.rs` | what a client does with a packet and once a second |
| `src/binary64.rs`, `src/root.rs`, `src/shortest.rs`, `src/text.rs` | floating-point numbers, bit by bit, and numbers as text |
| `src/clock.rs`, `src/calendar.rs` | readings of the calendar clock, and its dates |
| `tests/` | tests of the library |
| `app/` | the client program |

## Conventions

- A type with an internal invariant has a spec function `wf`.
- The state after an operation is a spec method on the type or its view; the
  operation's contract equates the two.
- Instants are nanoseconds of a monotonic clock that the caller reads.
- Floating-point values are `Binary64`, the bits of an IEEE 754 double;
  `f64::to_bits` and `f64::from_bits` convert.
- An operation whose counters could overflow says so in its `requires`; where
  the condition is more than a comparison, a function named `can_...` beside it
  tells whether it holds.
- Proof functions named `law_...` state what holds of the library as a whole.
