# OSTP

An obfuscated transport for tunnels over UDP, and the server, resolver and client parts
around it. The library is verified with Verus: every function states in its contract what
it returns or changes, and Verus proves that it does.

## Layout

- `src/crypto`: digests, sealed packets, the Noise handshake, obfuscation of packets, and
  hellos that look like those of TLS.
- `src/framing`: frames, padding and WebSocket frames.
- `src/protocol`: a session, its acknowledgements, retransmission, reordering and replay
  window; `protocol::laws` states what holds of two ends together.
- `src/congestion.rs`, `src/relay.rs`, `src/resumption.rs`: the congestion controller, the
  messages of streams, and tickets.
- `src/share_link.rs`, `src/subscription.rs`, `src/http_upgrade.rs`, `src/http.rs`: links,
  subscriptions and HTTP.
- `src/dns`: the filtering resolver.
- `src/server`: dispatcher, streams, outbound rules, relay node, management interface, TLS
  certificates and ACME, and telling protocols apart on one port.
- `src/client`: settings, routes and helper of the desktop and mobile clients.
- `src/config.rs`, `src/json.rs`: the text of a configuration file, and the fields in it.
- `src/text.rs`, `src/bytes.rs`, `src/net.rs`, `src/table.rs`, `src/ids.rs`, `src/time.rs`:
  what the rest is built on.
- `app`: the server and the relay node as a program. It does the input and output, and
  asks the library what to do.
- `tests`: the library's behaviour on given values.

## What is trusted

Ciphers, digests, the Noise handshake, DNS messages, HTTP heads, QR codes, certificates,
JSON and comments in it, random numbers and clocks come from other crates or from std. Each
call stands in a small function whose documentation says what is claimed of it.
