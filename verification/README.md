# dolomedes

A Kademlia node library with machine-checked contracts, written in Verus.
Node and file identifiers are 256-bit values compared by XOR distance; a
node's identifier is the SHA-256 digest of its Ed25519 public key.

Layout of `src/`:

- `node_id` — 256-bit identifiers, XOR, leading-zero counts, numeric order.
- `kadem` — the routing table: 256 buckets of at most 8 contacts, offers
  with least-recently-seen eviction, and the closest-contacts lookup.
- `lookup` — the seeder search, nearest node first, over a
  `binary-heap-plus` min-heap.
- `messages` — message bodies, their tag bytes, and signed messages.
- `client` — a node's state, how it answers requests, the chunked download
  state machine.
- `setup` — the configuration file (writing and reading) and the genesis
  file.
- `text`, `encoding`, `crypto` — character-level parsing, hexadecimal text
  and the SHA-256 / Ed25519 calls.
- `terminal`, `cli` — what the interactive menu and the command line select.

`app/` holds the `dolomedes` command: argument parsing, files, the QUIC
endpoint and the loops that carry out the library's decisions.
