# perses_mother

The daemon that watches a WireGuard tunnel: it names the domains that the
clients ask for, cuts the connections to those of a blacklist, serves their DNS
and reports who asked for what.

`src/` is the library, verified with Verus: each function states what it
computes, and the functions named `law_…` what holds of several together.

| Module | What it does |
| --- | --- |
| `name`, `text`, `bytes`, `ip`, `env`, `fault` | texts, numbers, addresses and settings that the others share |
| `tls` | the host name in a ClientHello |
| `dns` | queries, refusals, the policy on names, the relay |
| `sniff` | frames, segments, handshakes cut into several, the capture |
| `filter` | the verdict on each packet of an NFQUEUE queue |
| `report` | the JSON lines for the collector, and their output |
| `cache` | what Redis is asked, and when its connection is opened again |
| `wg` | keys, configuration, peers and life of the WireGuard server |
| `starter` | how the daemon ends when its modules do |

`app/` is the program around it: sockets, captures, files, threads. It hands
what happened to the library, and does what the library says.

What the library takes on trust is marked `external_body` or
`assume_specification`: base64 and Curve25519 in `wg::keys`, the `Debug` of a
text in `wg::config`, and `String::push` in `text`.
