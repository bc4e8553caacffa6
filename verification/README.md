# partial-bonsai-trie

Merkle-Patricia tries of fixed height over the Stark field, verified with Verus: proofs of their
entries, trees whose nodes are loaded as they are needed, and trees of which only those nodes are
known that proofs brought along.

- `src/felt.rs`: field elements, and the Pedersen and Poseidon hashes.
- `src/collections.rs`: the hash map and the hash set that the node stores are built on.
- `src/text.rs`: numbers and bits as text, for what errors say.
- `src/trie/model.rs`: tries as mathematical objects. The contracts speak of these.
- `src/trie/proofs.rs`: verifying proofs, and hashing up the way from an entry to the root.
- `src/trie/tree.rs`, with `loading.rs` and `editing.rs`: the tree, and the proofs that it gives.
- `src/trie/partial_trie.rs`: trees that proofs complete as far as it is needed.
- `src/trie/partial.rs`: root hashes after insertions, told from known nodes and proofs.
- `src/laws/`: what holds of all this together. Functions named `law_..` state it, functions named
  `lemma_..` lead to it.
- `app/`: the library for programs that hold keys as bit slices, and that print errors.

The laws on hashes leave out the case that two different nodes have the same hash. What is taken
from outside without proof stands in `src/felt.rs` and `src/collections.rs`, in the functions marked
`external_body`.
