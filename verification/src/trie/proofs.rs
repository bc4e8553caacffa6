//! Proofs of the entries of a trie.

use crate::collections::FeltSet;
use crate::felt::{prime, Felt, StarkHash};
use crate::text::{
    append_bits, append_decimal, append_felt, bits_text, decimal, felt_text,
};
use crate::trie::merkle_node::{
    hash_binary_node, hash_edge_node, node_hash, with_child, Direction, NodeView,
};
use crate::trie::node_map::NodeMap;
use crate::trie::path::{
    bits_value, common_path, lemma_common_len, lemma_prefix_common, slice_of, Path,
};
use crate::trie::positions::PositionedNodes;
use vstd::math::min;
use vstd::prelude::*;
use vstd::string::StringExecFns;

verus! {

/// A node of a proof, which names its children by their hashes.
#[derive(Debug, PartialEq, Eq, PartialOrd, Ord, Hash)]
pub enum ProofNode {
    Binary { left: Felt, right: Felt },
    Edge { child: Felt, path: Path },
}

impl View for ProofNode {
    type V = NodeView;

    open spec fn view(&self) -> NodeView {
        match *self {
            ProofNode::Binary { left, right } => NodeView::Binary { left, right },
            ProofNode::Edge { child, path } => NodeView::Edge { child, path: path@ },
        }
    }
}

impl Clone for ProofNode {
    fn clone(&self) -> (r: ProofNode)
        ensures
            r@ == self@,
    {
        match self {
            ProofNode::Binary { left, right } => ProofNode::Binary { left: *left, right: *right },
            ProofNode::Edge { child, path } => ProofNode::Edge {
                child: *child,
                path: path.clone(),
            },
        }
    }
}

impl ProofNode {
    /// The hash of the node.
    pub fn hash<H: StarkHash>(&self) -> (r: Felt)
        ensures
            r == node_hash::<H>(self@),
            match self {
                ProofNode::Binary { left, right } => r == H::hash_of(*left, *right),
                ProofNode::Edge { child, path } => r@ == (H::hash_of(
                    *child,
                    Felt::of(bits_value(path.0@) % prime()),
                )@ + path.0@.len()) % prime(),
            },
    {
        match self {
            ProofNode::Binary { left, right } => hash_binary_node::<H>(*left, *right),
            ProofNode::Edge { child, path } => hash_edge_node::<H>(path, *child),
        }
    }

    /// Whether the node may stand at height `node_height` on the way to `key`: always for a
    /// binary node, and for an edge if the bits of the key from that height on, as many as the
    /// edge has or the key has left, are those at the start of the edge.
    pub fn path_matches(&self, key: &[bool], node_height: usize) -> (r: bool)
        requires
            self matches ProofNode::Edge { path, .. } ==> node_height + path@.len() <= usize::MAX,
        ensures
            r == match self@ {
                NodeView::Binary { .. } => true,
                NodeView::Edge { path, .. } => {
                    let lower = min(node_height as int, key@.len() as int);
                    let upper = min(node_height + path.len(), key@.len() as int);
                    key@.subrange(lower, upper).is_prefix_of(path)
                },
            },
    {
        match self {
            ProofNode::Binary { .. } => true,
            ProofNode::Edge { path, .. } => {
                let lower: usize = if node_height < key.len() {
                    node_height
                } else {
                    key.len()
                };
                let upper: usize = if node_height + path.0.len() < key.len() {
                    node_height + path.0.len()
                } else {
                    key.len()
                };
                let common = common_path(&path.0, slice_of(key, lower, upper).as_slice(), 0);
                proof {
                    let bits = key@.subrange(lower as int, upper as int);
                    assert(bits.skip(0) =~= bits);
                    lemma_common_len(path@, bits);
                    if common == bits.len() {
                        assert(bits =~= path@.take(bits.len() as int));
                    } else if bits.is_prefix_of(path@) {
                        assert(bits[common as int] == path@[common as int]);
                    }
                }
                common == upper - lower
            },
        }
    }
}

/// Why a proof does not tell the value under a key.
#[allow(inconsistent_fields)]
#[derive(Debug)]
pub enum ProofVerificationError {
    /// The key does not have as many bits as the trie has levels.
    KeyLengthMismatch { path: Vec<bool>, expected: u8, got: usize },
    /// The proof lacks the node with the hash that stands at the end of the path.
    MissingNode { path: Vec<bool>, hash: Felt },
    /// The path leads below the last level.
    Overshot { path: Vec<bool>, expected_max_height: u8 },
    /// The node at the end of the path does not have the hash that it is filed under.
    HashMismatch { path: Vec<bool>, expected: Felt, got: Felt },
    /// The nodes do not form a trie.
    InvalidProof,
}

/// What a [`ProofVerificationError`] says.
#[allow(inconsistent_fields)]
#[verifier::ext_equal]
pub enum VerificationErrorView {
    KeyLengthMismatch { path: Seq<bool>, expected: nat, got: nat },
    MissingNode { path: Seq<bool>, hash: Felt },
    Overshot { path: Seq<bool>, expected_max_height: nat },
    HashMismatch { path: Seq<bool>, expected: Felt, got: Felt },
    InvalidProof,
}

impl View for ProofVerificationError {
    type V = VerificationErrorView;

    open spec fn view(&self) -> VerificationErrorView {
        match *self {
            ProofVerificationError::KeyLengthMismatch { path, expected, got } => {
                VerificationErrorView::KeyLengthMismatch {
                    path: path@,
                    expected: expected as nat,
                    got: got as nat,
                }
            },
            ProofVerificationError::MissingNode { path, hash } => {
                VerificationErrorView::MissingNode { path: path@, hash }
            },
            ProofVerificationError::Overshot { path, expected_max_height } => {
                VerificationErrorView::Overshot {
                    path: path@,
                    expected_max_height: expected_max_height as nat,
                }
            },
            ProofVerificationError::HashMismatch { path, expected, got } => {
                VerificationErrorView::HashMismatch { path: path@, expected, got }
            },
            ProofVerificationError::InvalidProof => VerificationErrorView::InvalidProof,
        }
    }
}

impl VerificationErrorView {
    /// What the error says to a reader.
    pub open spec fn text(self) -> Seq<char> {
        match self {
            VerificationErrorView::KeyLengthMismatch { path, expected, got } => {
                "Key length mismatch: key "@ + bits_text(path) + ", expected length "@ + decimal(
                    expected,
                ) + ", got "@ + decimal(got)
            },
            VerificationErrorView::MissingNode { path, hash } => {
                "Missing node in proof: key "@ + bits_text(path) + ", hash "@ + felt_text(hash)
            },
            VerificationErrorView::Overshot { path, expected_max_height } => {
                "Overshot the expected path: path "@ + bits_text(path)
                    + ", expected max height "@ + decimal(expected_max_height)
            },
            VerificationErrorView::HashMismatch { path, expected, got } => {
                "Node hash mismatch: path "@ + bits_text(path) + ", expected "@ + felt_text(
                    expected,
                ) + ", got "@ + felt_text(got)
            },
            VerificationErrorView::InvalidProof => "Invalid proof"@,
        }
    }
}

impl ProofVerificationError {
    /// What the error says to a reader.
    pub fn message(&self) -> (r: String)
        ensures
            r@ == self@.text(),
    {
        match self {
            ProofVerificationError::KeyLengthMismatch { path, expected, got } => {
                let mut text = "Key length mismatch: key ".to_owned();
                append_bits(&mut text, path);
                text.append(", expected length ");
                append_decimal(&mut text, *expected as usize);
                text.append(", got ");
                append_decimal(&mut text, *got);
                text
            },
            ProofVerificationError::MissingNode { path, hash } => {
                let mut text = "Missing node in proof: key ".to_owned();
                append_bits(&mut text, path);
                text.append(", hash ");
                append_felt(&mut text, hash);
                text
            },
            ProofVerificationError::Overshot { path, expected_max_height } => {
                let mut text = "Overshot the expected path: path ".to_owned();
                append_bits(&mut text, path);
                text.append(", expected max height ");
                append_decimal(&mut text, *expected_max_height as usize);
                text
            },
            ProofVerificationError::HashMismatch { path, expected, got } => {
                let mut text = "Node hash mismatch: path ".to_owned();
                append_bits(&mut text, path);
                text.append(", expected ");
                append_felt(&mut text, expected);
                text.append(", got ");
                append_felt(&mut text, got);
                text
            },
            ProofVerificationError::InvalidProof => "Invalid proof".to_owned(),
        }
    }
}

/// What a verification came to.
pub open spec fn finding(result: Result<Felt, ProofVerificationError>) -> Result<
    Felt,
    VerificationErrorView,
> {
    match result {
        Ok(value) => Ok(value),
        Err(error) => Err(error@),
    }
}

/// What the nodes of a proof tell of `key`, going down from the node with the hash `at`, which
/// stands after the first `depth` bits of the key.
///
/// An edge without bits leads to its child on the same level. Of such edges at most `spare` are
/// followed in a row, and `limit` after each step to a lower level.
pub open spec fn walk<H: StarkHash>(
    nodes: Map<Felt, NodeView>,
    limit: nat,
    key: Seq<bool>,
    at: Felt,
    depth: nat,
    spare: nat,
) -> Result<Felt, VerificationErrorView>
    decreases key.len() - depth, spare,
{
    if depth >= key.len() {
        Ok(at)
    } else if !nodes.contains_key(at) {
        Err(VerificationErrorView::MissingNode { path: key.take(depth as int), hash: at })
    } else if node_hash::<H>(nodes[at]) != at {
        Err(
            VerificationErrorView::HashMismatch {
                path: key.take(depth as int),
                expected: at,
                got: node_hash::<H>(nodes[at]),
            },
        )
    } else {
        match nodes[at] {
            NodeView::Binary { left, right } => {
                let child = if key[depth as int] {
                    right
                } else {
                    left
                };
                walk::<H>(nodes, limit, key, child, depth + 1, limit)
            },
            NodeView::Edge { child, path } => if !path.is_prefix_of(key.skip(depth as int)) {
                Ok(Felt::of(0))
            } else if path.len() > 0 {
                walk::<H>(nodes, limit, key, child, depth + path.len(), limit)
            } else if spare > 0 {
                walk::<H>(nodes, limit, key, child, depth, (spare - 1) as nat)
            } else {
                Err(VerificationErrorView::InvalidProof)
            },
        }
    }
}

/// A set of nodes from which the values of a trie can be told to one who knows its root hash.
#[derive(Debug)]
pub struct MultiProof(pub NodeMap);

impl View for MultiProof {
    type V = Map<Felt, NodeView>;

    open spec fn view(&self) -> Map<Felt, NodeView> {
        self.0@
    }
}

impl Clone for MultiProof {
    fn clone(&self) -> (r: MultiProof)
        ensures
            r@ == self@,
            r.0.order() == self.0.order(),
    {
        MultiProof(self.0.clone())
    }
}

/// Every element of `checked` is the hash of the node filed under it.
spec fn all_checked<H: StarkHash>(nodes: Map<Felt, NodeView>, checked: Set<(u128, u128)>) -> bool {
    forall|hash: Felt| #[trigger]
        checked.contains(hash.key()) ==> nodes.contains_key(hash) && node_hash::<H>(nodes[hash])
            == hash
}

impl MultiProof {
    /// What the proof tells of `key` in the trie of height `tree_height` with the hash `root`.
    pub open spec fn finding<H: StarkHash>(
        self,
        root: Felt,
        key: Seq<bool>,
        tree_height: u8,
    ) -> Result<Felt, VerificationErrorView> {
        if key.len() != tree_height {
            Err(
                VerificationErrorView::KeyLengthMismatch {
                    path: key,
                    expected: tree_height as nat,
                    got: key.len(),
                },
            )
        } else {
            walk::<H>(self@, self@.len(), key, root, 0, self@.len())
        }
    }

    /// Tells for each key its value in the trie of height `tree_height` with the hash `root`:
    /// zero for a key that the trie does not hold, or why the proof does not tell.
    ///
    /// The proof may tell more than what is asked for.
    pub fn verify_proof<H: StarkHash>(
        &self,
        root: Felt,
        keys: &[Vec<bool>],
        tree_height: u8,
    ) -> (r: Vec<Result<Felt, ProofVerificationError>>)
        ensures
            r@.len() == keys@.len(),
            forall|i: int|
                0 <= i < keys@.len() ==> finding(#[trigger] r@[i]) == self.finding::<H>(
                    root,
                    keys@[i]@,
                    tree_height,
                ),
            forall|i: int|
                0 <= i < keys@.len() ==> match #[trigger] r@[i] {
                    Ok(_) => keys@[i]@.len() == tree_height,
                    Err(ProofVerificationError::KeyLengthMismatch { path, expected, got }) => {
                        &&& keys@[i]@.len() != tree_height
                        &&& path@ == keys@[i]@
                        &&& expected == tree_height
                        &&& got == keys@[i]@.len()
                    },
                    Err(_) => keys@[i]@.len() == tree_height,
                },
    {
        let mut checked = FeltSet::new();
        let mut r: Vec<Result<Felt, ProofVerificationError>> = Vec::new();
        let mut i: usize = 0;
        while i < keys.len()
            invariant
                i <= keys@.len(),
                r@.len() == i,
                all_checked::<H>(self@, checked@),
                forall|j: int|
                    0 <= j < i ==> finding(#[trigger] r@[j]) == self.finding::<H>(
                        root,
                        keys@[j]@,
                        tree_height,
                    ),
                forall|j: int|
                    0 <= j < i ==> match #[trigger] r@[j] {
                        Ok(_) => keys@[j]@.len() == tree_height,
                        Err(ProofVerificationError::KeyLengthMismatch { path, expected, got }) => {
                            &&& keys@[j]@.len() != tree_height
                            &&& path@ == keys@[j]@
                            &&& expected == tree_height
                            &&& got == keys@[j]@.len()
                        },
                        Err(_) => keys@[j]@.len() == tree_height,
                    },
            decreases keys@.len() - i,
        {
            r.push(self.verify_key::<H>(root, keys[i].as_slice(), tree_height, &mut checked));
            i += 1;
        }
        r
    }

    /// Tells the value under one key. What `checked` holds need not be hashed again.
    fn verify_key<H: StarkHash>(
        &self,
        root: Felt,
        key: &[bool],
        tree_height: u8,
        checked: &mut FeltSet,
    ) -> (r: Result<Felt, ProofVerificationError>)
        requires
            all_checked::<H>(self@, old(checked)@),
        ensures
            all_checked::<H>(self@, final(checked)@),
            finding(r) == self.finding::<H>(root, key@, tree_height),
            match r {
                Ok(_) => key@.len() == tree_height,
                Err(ProofVerificationError::KeyLengthMismatch { path, expected, got }) => {
                    &&& key@.len() != tree_height
                    &&& path@ == key@
                    &&& expected == tree_height
                    &&& got == key@.len()
                },
                Err(_) => key@.len() == tree_height,
            },
    {
        if key.len() != tree_height as usize {
            assert(key@.subrange(0, key@.len() as int) =~= key@);
            return Err(
                ProofVerificationError::KeyLengthMismatch {
                    path: slice_of(key, 0, key.len()),
                    expected: tree_height,
                    got: key.len(),
                },
            );
        }
        let limit: usize = self.0.len();
        let mut at = root;
        let mut depth: usize = 0;
        let mut spare: usize = limit;
        while depth < key.len()
            invariant
                depth <= key@.len(),
                key@.len() == tree_height,
                limit == self@.len(),
                all_checked::<H>(self@, checked@),
                walk::<H>(self@, limit as nat, key@, at, depth as nat, spare as nat)
                    == self.finding::<H>(root, key@, tree_height),
            decreases key@.len() - depth, spare,
        {
            let node = match self.0.get(&at) {
                Some(node) => node,
                None => {
                    return Err(
                        ProofVerificationError::MissingNode {
                            path: slice_of(key, 0, depth),
                            hash: at,
                        },
                    );
                },
            };
            if !checked.contains(at.halves()) {
                let computed = node.hash::<H>();
                if computed != at {
                    return Err(
                        ProofVerificationError::HashMismatch {
                            path: slice_of(key, 0, depth),
                            expected: at,
                            got: computed,
                        },
                    );
                }
                proof {
                    broadcast use Felt::lemma_key_injective;

                }
                checked.insert(at.halves());
            }
            match node {
                ProofNode::Binary { left, right } => {
                    let direction = Direction::from(key[depth]);
                    at = match direction {
                        Direction::Left => *left,
                        Direction::Right => *right,
                    };
                    depth += 1;
                    spare = limit;
                },
                ProofNode::Edge { child, path } => {
                    let common = common_path(&path.0, key, depth);
                    proof {
                        lemma_prefix_common(path@, key@.skip(depth as int));
                    }
                    if common != path.0.len() {
                        return Ok(Felt::zero());
                    }
                    at = *child;
                    if path.0.len() > 0 {
                        depth += path.0.len();
                        spare = limit;
                    } else if spare > 0 {
                        spare -= 1;
                    } else {
                        return Err(ProofVerificationError::InvalidProof);
                    }
                },
            }
        }
        Ok(at)
    }
}

/// The hash at the top of a way down to `key` once `hash` stands at its end. Each node of the way
/// comes with the bits that lead to it.
pub open spec fn hash_up<H: StarkHash>(
    key: Seq<bool>,
    hash: Felt,
    way: Seq<(Seq<bool>, NodeView)>,
) -> Felt
    decreases way.len(),
{
    if way.len() == 0 {
        hash
    } else {
        let (position, node) = way.last();
        hash_up::<H>(
            key,
            node_hash::<H>(with_child(node, key[position.len() as int], hash)),
            way.drop_last(),
        )
    }
}

/// What the nodes of a way say.
pub open spec fn way_view(nodes: Seq<(Vec<bool>, ProofNode)>) -> Seq<(Seq<bool>, NodeView)> {
    nodes.map_values(|entry: (Vec<bool>, ProofNode)| (entry.0@, entry.1@))
}

/// The part of a way that is left to hash.
pub open spec fn unskipped<T>(way: Seq<T>, skip_last: bool) -> Seq<T> {
    if skip_last && way.len() > 0 {
        way.drop_last()
    } else {
        way
    }
}

/// Hashes up the way from the end of `key` to the root, with `current_hash` at its end.
///
/// `path_nodes` are the nodes of the way from the root down, each with the bits that lead to it.
/// With `skip_last`, `current_hash` takes the place of the last of them.
pub fn hash_up_merkle_path<H: StarkHash>(
    key: &[bool],
    current_hash: Felt,
    path_nodes: &[(Vec<bool>, ProofNode)],
    skip_last: bool,
) -> (r: Felt)
    requires
        forall|i: int|
            0 <= i < unskipped(path_nodes@, skip_last).len() && (
            #[trigger] path_nodes@[i]).1 is Binary ==> path_nodes@[i].0@.len() < key@.len(),
    ensures
        r == hash_up::<H>(key@, current_hash, unskipped(way_view(path_nodes@), skip_last)),
{
    let ghost way = way_view(path_nodes@);
    let mut hash = current_hash;
    let mut n: usize = if skip_last && path_nodes.len() > 0 {
        path_nodes.len() - 1
    } else {
        path_nodes.len()
    };
    assert(way.take(n as int) =~= unskipped(way, skip_last));
    while n > 0
        invariant
            n <= unskipped(path_nodes@, skip_last).len(),
            way == way_view(path_nodes@),
            forall|i: int|
                0 <= i < unskipped(path_nodes@, skip_last).len() && (
                #[trigger] path_nodes@[i]).1 is Binary ==> path_nodes@[i].0@.len() < key@.len(),
            hash_up::<H>(key@, hash, way.take(n as int)) == hash_up::<H>(
                key@,
                current_hash,
                unskipped(way, skip_last),
            ),
        decreases n,
    {
        assert(way.take(n as int).drop_last() =~= way.take(n - 1));
        n -= 1;
        let entry = &path_nodes[n];
        match &entry.1 {
            ProofNode::Binary { left, right } => {
                hash = match Direction::from(key[entry.0.len()]) {
                    Direction::Left => hash_binary_node::<H>(hash, *right),
                    Direction::Right => hash_binary_node::<H>(*left, hash),
                };
            },
            ProofNode::Edge { path, .. } => {
                hash = hash_edge_node::<H>(path, hash);
            },
        }
    }
    hash
}

/// Nodes by their positions in a tree.
#[derive(Debug)]
pub struct PartialPath(pub PositionedNodes);

impl View for PartialPath {
    type V = Map<Seq<bool>, NodeView>;

    open spec fn view(&self) -> Map<Seq<bool>, NodeView> {
        self.0@
    }
}

impl Clone for PartialPath {
    fn clone(&self) -> (r: PartialPath)
        ensures
            r@ == self@,
    {
        PartialPath(self.0.clone())
    }
}

} // verus!
