//! The hash that batch trees are built with, given as a value.
use vstd::prelude::*;

verus! {

/// A hash of field words to tree nodes, given by three functions: `leaf` gives the node
/// over the words of a leaf, `pair` the node over two nodes, and `words` the four words
/// of a node. A node is 32 bytes long; its first sixteen bytes are zero and not read.
pub struct NodeHash<L, P, W> {
    pub leaf: L,
    pub pair: P,
    pub words: W,
}

/// Whether a node starts with sixteen zeros.
pub open spec fn is_padded(node: Seq<u8>) -> bool {
    node.len() == 32 && forall|i: int| 0 <= i < 16 ==> #[trigger] node[i] == 0
}

impl<L, P, W> NodeHash<L, P, W> where
    L: Fn(Vec<u32>) -> [u8; 32],
    P: Fn([u8; 32], [u8; 32]) -> [u8; 32],
    W: Fn([u8; 32]) -> [u64; 4],
 {
    /// Whether `node` may come out for the words of a leaf.
    pub open spec fn gives_leaf(self, words: Seq<u32>, node: Seq<u8>) -> bool {
        exists|v: Vec<u32>, n: [u8; 32]| #[trigger]
            call_ensures(self.leaf, (v,), n) && v@ == words && n@ == node
    }

    /// Whether `node` may come out for two nodes, given by their last sixteen bytes.
    pub open spec fn gives_pair(self, left: Seq<u8>, right: Seq<u8>, node: Seq<u8>) -> bool {
        exists|x: [u8; 32], y: [u8; 32], n: [u8; 32]| #[trigger]
            call_ensures(self.pair, (x, y), n) && x@.subrange(16, 32) == left && y@.subrange(
                16,
                32,
            ) == right && n@ == node
    }

    /// Whether `words` may come out for a node, given by its last sixteen bytes.
    pub open spec fn gives_words(self, low: Seq<u8>, words: Seq<u64>) -> bool {
        exists|x: [u8; 32], w: [u64; 4]| #[trigger]
            call_ensures(self.words, (x,), w) && x@.subrange(16, 32) == low && w@ == words
    }

    /// The node over the words of a leaf.
    pub open spec fn leaf_node(self, words: Seq<u32>) -> Seq<u8> {
        choose|node: Seq<u8>| self.gives_leaf(words, node)
    }

    /// The node over two nodes, given by their last sixteen bytes.
    pub open spec fn pair_node(self, left: Seq<u8>, right: Seq<u8>) -> Seq<u8> {
        choose|node: Seq<u8>| self.gives_pair(left, right, node)
    }

    /// The words of a node, given by its last sixteen bytes.
    pub open spec fn words_of(self, low: Seq<u8>) -> Seq<u64> {
        choose|words: Seq<u64>| self.gives_words(low, words)
    }

    /// Whether the three are a hash: each may be called on everything and gives one
    /// result for what it reads, and nodes start with sixteen zeros.
    pub open spec fn wf(self) -> bool {
        &&& forall|v: Vec<u32>| #[trigger] call_requires(self.leaf, (v,))
        &&& forall|x: [u8; 32], y: [u8; 32]| #[trigger] call_requires(self.pair, (x, y))
        &&& forall|x: [u8; 32]| #[trigger] call_requires(self.words, (x,))
        &&& forall|w: Seq<u32>, a: Seq<u8>, b: Seq<u8>| #[trigger]
            self.gives_leaf(w, a) && #[trigger] self.gives_leaf(w, b) ==> a == b
        &&& forall|l: Seq<u8>, r: Seq<u8>, a: Seq<u8>, b: Seq<u8>| #[trigger]
            self.gives_pair(l, r, a) && #[trigger] self.gives_pair(l, r, b) ==> a == b
        &&& forall|l: Seq<u8>, a: Seq<u64>, b: Seq<u64>| #[trigger]
            self.gives_words(l, a) && #[trigger] self.gives_words(l, b) ==> a == b
        &&& forall|w: Seq<u32>, a: Seq<u8>| #[trigger] self.gives_leaf(w, a) ==> is_padded(a)
        &&& forall|l: Seq<u8>, r: Seq<u8>, a: Seq<u8>| #[trigger]
            self.gives_pair(l, r, a) ==> is_padded(a)
    }

    /// How leaves are hashed.
    pub open spec fn leaf_fn(self) -> spec_fn(Seq<u32>) -> Seq<u8> {
        |words: Seq<u32>| self.leaf_node(words)
    }

    /// How pairs are hashed.
    pub open spec fn pair_fn(self) -> spec_fn(Seq<u8>, Seq<u8>) -> Seq<u8> {
        |left: Seq<u8>, right: Seq<u8>| self.pair_node(left, right)
    }

    /// Hashes the words of a leaf.
    pub fn hash_leaf(&self, words: Vec<u32>) -> (node: [u8; 32])
        requires
            self.wf(),
        ensures
            node@ == self.leaf_node(words@),
            is_padded(node@),
    {
        let ghost w = words@;
        let node: [u8; 32] = (self.leaf)(words);
        proof {
            assert(self.gives_leaf(w, node@));
        }
        node
    }

    /// Hashes two nodes.
    pub fn hash_pair(&self, left: &[u8; 32], right: &[u8; 32]) -> (node: [u8; 32])
        requires
            self.wf(),
        ensures
            node@ == self.pair_node(left@.subrange(16, 32), right@.subrange(16, 32)),
            is_padded(node@),
    {
        let node: [u8; 32] = (self.pair)(*left, *right);
        proof {
            assert(self.gives_pair(left@.subrange(16, 32), right@.subrange(16, 32), node@));
        }
        node
    }

    /// The words of a node.
    pub fn node_words(&self, node: &[u8; 32]) -> (words: [u64; 4])
        requires
            self.wf(),
        ensures
            words@ == self.words_of(node@.subrange(16, 32)),
    {
        let words: [u64; 4] = (self.words)(*node);
        proof {
            assert(self.gives_words(node@.subrange(16, 32), words@));
        }
        words
    }
}

} // verus!
