# rnet

The wire formats and decisions of a small peer-to-peer networking stack, verified with Verus.

`src/` is the verified library:

- `varint`: unsigned varints as the `unsigned-varint` crate reads and writes them.
- `mplex`: mplex frames (header varint of stream id and flag, length varint, payload), the
  internal marker, the router that decides what a connection does with a frame, and the
  protocol handshake on a new stream.
- `subscription`: the control frames of the floodsub channel.
- `events`: the events protocols report to the application.
- `gf256`, `linalg`, `rlnc`, `engine`: random linear network coding over GF(2^8): field laws,
  Gauss-Jordan elimination that keeps exactly the solutions of the system, and decoding that
  recovers the payload when the coefficient matrix is nonsingular; the ping reassembly state.
- `ping`, `protocol`, `transport`, `multiaddr`: ping counts and probes, the protocols a node
  runs (each started at most once), the muxer transport, and multiaddresses with the bound port.
- `liveliness`: the liveliness check on udp connections, as a step function from event to
  action.
- `keys`: RSA key pairs held as DER (from hex, PEM, or generated), their hex and PEM texts, and
  peer ids.

`app/` holds the asynchronous tasks (tokio channels, connections, timers), the serialised
copies of the event types, and the RSA signing keys. `tests/` exercises the library.
