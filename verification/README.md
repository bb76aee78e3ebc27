# dsh-proxy

The only public component of dsh mobile access: one TCP port, through which
phones reach a Mac that dialled out.

```
Android / mini-program ──TLS, HTTP/1.1, WebSocket──┐
                                                   ├─> dsh-proxy ──one long link──> Mac
Mac bridge ──────────────DSHB preamble─────────────┘
```

The library under `src/` holds what decides, written and proved with Verus. It
does no input or output: bytes and events go in, bytes and actions come out.
`app/` is the program around it, on tokio, hyper and rustls.

| module | holds |
|---|---|
| `wire` | constants and big-endian integers |
| `mux`, `session`, `stream` | frames, the mux session, one stream as a byte stream |
| `trace` | what holds of a session over any run |
| `noise`, `tunnel` | handshakes, the frame codec, the sealed byte stream |
| `ws` | the WebSocket carrier |
| `routing`, `admission`, `splice` | what a connection is, who is let in, a client on its bridge |
| `state`, `pairing` | the pairing registry and its bearer tokens |
| `ledger` | what holds of the registry over any run of pairings |
| `phone` | pooled tunnels to a bridge |
| `edge`, `reply` | routing of requests, header rules, JSON replies |
| `tls`, `cli`, `harness` | the identity, the command lines, the benchmark's plan |
| `buf`, `table`, `headers`, `crypto`, `text` | outside crates, and what is taken on trust of them |

Every function states what it returns and changes, over spec functions on
sequences and maps. Laws that relate several functions are public proof
functions named `law_…`. The functions that call an outside crate carry
contracts that are believed, not proved; their doc comments name what they call.
