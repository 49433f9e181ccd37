# ggrs

Building blocks of rollback networking, verified with Verus.

- `src/lib.rs`: frames, player handles and kinds, and `NonBlockingSocket`, whose contract
  speaks of a log of what a socket was asked to send and of what it handed back as received.

- `src/socket/wire.rs`: the byte format of handshake messages, with its encoder and decoder
  and the laws that decoding gives back what was encoded.
- `src/socket/handshake.rs`: the per-address handshake state machine and `HandshakingSocket`,
  which wraps another socket and drops traffic with an address until the handshake with it
  is complete.
- `src/socket/memory.rs`: an in-memory transport whose sockets share one message queue.
- `src/frame_info.rs`: per-frame game states and serialized player inputs.
- `src/network/messages.rs`: the messages two endpoints exchange and the connection statistics.
- `src/network/protocol.rs`: the byte layout of the inputs of several players for one frame,
  and `UdpProtocol`, the endpoint of a connection to one remote client: it queues inputs until
  they are acknowledged, merges the peer's connection reports, stores and reports received
  inputs, keeps the checksum history and drives the interruption, disconnect and shutdown
  timers. Clocks are passed in as milliseconds; delta encoding and decoding of inputs happen
  outside and their results are passed in.
- `src/sessions/builder.rs`: the builder that collects session settings and players, and
  derives from them the endpoints of a session.
- `src/error.rs`: error types and their messages.
- `app/`: a non-blocking UDP socket, `Display`/`Error` for the error types, the displayed
  progress of a handshake, and decoding of serialized inputs.
