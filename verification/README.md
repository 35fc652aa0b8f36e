# dkms

A key management node for quantum key distribution networks. Applications ask it
for keys that they are to share with applications of other nodes (ETSI GS QKD 014);
nodes hand each other session keys, encrypted with transport keys that both hold
(ETSI GS QKD 020), and keep each other's stock of transport keys filled.

The library under `src/` is written in Verus: every function carries a contract
that is proved, and what holds of several functions together is stated and proved
as a public proof function. `app/` is the program around it: configuration, TLS,
HTTP, timers, and what is weighed in floating point.

## Layout

| module | what it holds |
| --- | --- |
| `bytes`, `text`, `codec`, `names`, `table`, `unique` | bytes, texts, ordered lists, maps by name, identifiers |
| `crypto` | AEAD, one-time pad, MACs of handshakes and frames, replay windows, ML-KEM, ML-DSA |
| `pem`, `tls`, `tls_pqc` | certificates and keys in PEM, and the check that TLS is post-quantum |
| `ipc` | the binary frame format |
| `e2e` | the end-to-end layer between nodes: agreements, epochs, sealing, opening |
| `peers`, `cert_identity`, `auth` | who the other nodes and applications are |
| `buffers`, `pending`, `ack_pending` | transport keys, session keys, keys on their way |
| `generator`, `ack_socket`, `flow_stats` | filling the stock of transport keys, and acknowledging it |
| `service` | the node: planning, distribution, intake, delivery, control, and its laws |
| `token_bucket`, `sae_activity`, `demand_window`, `priority`, `scheduler`, `admission` | how much, how fast, whose turn |
| `config`, `error`, `etsi`, `security`, `security_level`, `southbound`, `http`, `peer_client` | settings, failures, requests, addresses |

Outside functions that the library calls stand behind small wrappers whose doc
comments say what is taken on trust of them.
