# warren

A serverless peer-to-peer stack as a verified library: discovery, hole punching,
authenticated sessions, and the transfer of signed feeds and content-addressed
blobs.

`src/` is the library. It does no I/O and reads no clock: each state machine is
told what happened and says what follows, and what it says is stated in a contract
and proved. `app/` moves datagrams, reads clocks and spawns tasks. `tests/` runs
the state machines against each other.

| Modules | What they hold |
|---|---|
| `bytes`, `lists`, `addr`, `wire`, `crypto`, `id`, `digests` | byte strings, addresses, the byte codec, hashes and signatures, ids |
| `routing`, `msg`, `dht`, `dht_laws`, `dht_history`, `sim` | the routing table, packets, the discovery core and a simulator |
| `firewall`, `natbox`, `punch`, `rng` | what NATs do, and how to get through them |
| `record`, `lan` | signed announcements, beacons on the local network |
| `feed`, `blob`, `sync_msg`, `sync`, `feed_window`, `blob_download`, `subscribe` | pulling feeds and blobs from peers that may lie |
| `congestion`, `frame`, `transfer`, `transfer_laws`, `serving` | messages over a link that loses datagrams |
| `plan`, `swarm` | downloads from several providers at once |
| `noise`, `noise_link` | authenticated, encrypted sessions |
| `candidates`, `discovery`, `endpoint`, `recovery` | connections dialed by public key |

Functions named `law_..` state what holds of several functions together.
