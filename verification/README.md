# hamt

A hash array mapped trie whose nodes can be kept in a content-addressed block store, verified
with Verus.

A key is hashed, and the nibbles of its digest lead from the root to a slot. A slot holds a
bucket of up to three pairs, or a link to a node one level down. A link is either a node in
memory or the identifier of a block. For a node in memory that has been stored, the link may
note the identifier, so that it is not stored again while it does not change.

- `src/node.rs`: the nodes and their operations. `src/pointer.rs`, `src/link.rs`,
  `src/bitmask.rs`, `src/hash.rs` and `src/store.rs` hold what they are made of.
- `src/tree.rs`: the trie that a node stands for, and what each operation does to it. The
  contracts of the operations speak of these functions.
- `src/canonical.rs`, `src/preserve.rs`, `src/unique.rs`: the canonical form of a trie, that
  the operations keep it, and that it is determined by what the trie holds.
- `src/laws.rs`: a trie is a map and does not depend on its history.
- `src/loading.rs`: tries of which only some blocks are loaded. An operation that needs a block
  fails with its identifier; it is tried again when the block has been loaded.
- `src/ipld.rs`, `src/identity.rs`: the form in which a node is written to a block, and what
  holds of writing and reading back.
- `src/equality.rs`, `src/namefilter.rs`: equality of nodes, and name filters.
- `app/`: the trie over an asynchronous block store, IPLD objects, and a JavaScript binding.

The bitmask is a `bitvec` array and the default hash function is SHA3-256 of `sha3`. What is
trusted of the two crates is stated where they are called, in `src/bitmask.rs` and
`src/hash.rs`.
