# straw

An RFC 9484 (CONNECT-IP) proxy, its client daemon, and a peer-to-peer pipe over
a relay, with the protocol logic written and proved in Verus.

- `src/` is the verified library: capsule and datagram codecs, the forwarding
  engine (routing, source validation, ICMP errors, rate limits, virtio-net
  segmentation), the address pool, sessions and authentication, configuration
  precedence, kernel interface and masquerade planning, and the peer-to-peer
  logic (tokens, identities, STUN, port mapping, hole punching, relay lockdown).
  What the network layers do is decided here and handed out as plain values.
- `app/` performs it: QUIC and HTTP/3, the TUN device, shell commands, clocks
  and files. The name it is started under selects the program: `straw`,
  `strawc`, `strawcat`, `test_client` or `mtuprobe`.
  `strawcat` generates identities; its listening and connecting ends are
  functions over a bind session that a caller has opened, since opening one at
  a relay is not part of this project. Neither are UDP bind serving, scoped
  tunnel requests (the proxy serves, and `strawc` asks for, every target),
  metrics, and serving HTTP/3 inside a peer connection.
- `tests/` run the library, with the crates it calls, on concrete values.

Calls into other crates from the library stand behind small functions whose
contracts are believed; each says in its comment what it claims.
