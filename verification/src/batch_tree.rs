//! A Merkle tree over a batch of byte strings, with membership proofs.
//!
//! Leaves are packed into field words injectively before they are hashed: three
//! bytes per word, so that no reduction occurs, and the length in a last word, so
//! that trailing zeros count.
use crate::bytes;
use crate::node_hash::NodeHash;
use vstd::prelude::*;

verus! {

/// Bytes from which on a leaf is refused.
pub const MAX_LEAF_BYTES: usize = 1_073_741_824;

/// Largest number of leaves.
pub const MAX_LEAVES: usize = 1_048_576;

/// Why a tree or a path is refused.
#[derive(Clone, Copy, Debug, PartialEq, Eq)]
pub enum TreeError {
    /// A leaf of `len` bytes.
    LeafTooLong { len: usize },
    /// A batch without leaves.
    NoLeaves,
    /// A batch of `count` leaves.
    TooManyLeaves { count: usize },
    /// The leaf `index` of a tree with `count` leaves.
    IndexOutOfRange { index: usize, count: usize },
}

/// Byte `i` of `data`, zero behind its end.
pub open spec fn byte_or_zero(data: Seq<u8>, i: int) -> int {
    if i < data.len() {
        data[i] as int
    } else {
        0
    }
}

/// The words of a leaf: three little-endian bytes each, then the number of bytes.
pub open spec fn leaf_words(data: Seq<u8>) -> Seq<u32> {
    Seq::new(
        ((data.len() + 2) / 3) as nat,
        |k: int|
            (byte_or_zero(data, 3 * k) + 256 * byte_or_zero(data, 3 * k + 1) + 65536 * byte_or_zero(
                data,
                3 * k + 2,
            )) as u32,
    ).push(data.len() as u32)
}

/// Different byte strings have different words.
pub proof fn lemma_packing_injective(a: Seq<u8>, b: Seq<u8>)
    requires
        a.len() < MAX_LEAF_BYTES,
        b.len() < MAX_LEAF_BYTES,
        leaf_words(a) == leaf_words(b),
    ensures
        a == b,
{
    let n = leaf_words(a).len() as int;
    assert(leaf_words(a)[n - 1] == a.len() as u32);
    assert(leaf_words(b)[n - 1] == b.len() as u32);
    assert(a.len() == b.len());
    assert forall|i: int| 0 <= i < a.len() implies a[i] == b[i] by {
        let k = i / 3;
        assert(k < (a.len() + 2) / 3);
        assert(leaf_words(a)[k] == leaf_words(b)[k]);
        let a0 = byte_or_zero(a, 3 * k);
        let a1 = byte_or_zero(a, 3 * k + 1);
        let a2 = byte_or_zero(a, 3 * k + 2);
        let b0 = byte_or_zero(b, 3 * k);
        let b1 = byte_or_zero(b, 3 * k + 1);
        let b2 = byte_or_zero(b, 3 * k + 2);
        assert(leaf_words(a)[k] == (a0 + 256 * a1 + 65536 * a2) as u32);
        assert(leaf_words(b)[k] == (b0 + 256 * b1 + 65536 * b2) as u32);
        assert(a0 + 256 * a1 + 65536 * a2 == b0 + 256 * b1 + 65536 * b2);
        assert(a0 == b0 && a1 == b1 && a2 == b2);
        assert(i == 3 * k || i == 3 * k + 1 || i == 3 * k + 2);
    }
    assert(a =~= b);
}

/// Every word of a leaf is a field element as it stands.
pub proof fn lemma_words_reduced(data: Seq<u8>)
    requires
        data.len() < MAX_LEAF_BYTES,
    ensures
        forall|k: int| 0 <= k < leaf_words(data).len() ==> #[trigger] leaf_words(data)[k] < 2147483647,
{
    assert forall|k: int| 0 <= k < leaf_words(data).len() implies #[trigger] leaf_words(data)[k]
        < 2147483647 by {
        if k < (data.len() + 2) / 3 {
            let w = byte_or_zero(data, 3 * k) + 256 * byte_or_zero(data, 3 * k + 1) + 65536
                * byte_or_zero(data, 3 * k + 2);
            assert(0 <= w < 16777216);
        }
    }
}

/// Packs bytes into field words.
pub fn bytes_to_m31_words(data: &[u8]) -> (res: Result<Vec<u32>, TreeError>)
    ensures
        data@.len() >= MAX_LEAF_BYTES ==> res == Err::<Vec<u32>, TreeError>(
            TreeError::LeafTooLong { len: data@.len() as usize },
        ),
        data@.len() < MAX_LEAF_BYTES ==> res is Ok && res->Ok_0@ == leaf_words(data@),
{
    if data.len() >= MAX_LEAF_BYTES {
        return Err(TreeError::LeafTooLong { len: data.len() });
    }
    let len: usize = data.len();
    let mut words: Vec<u32> = Vec::new();
    let mut i: usize = 0;
    let ghost goal = leaf_words(data@);
    while i < len
        invariant
            len == data@.len(),
            len < MAX_LEAF_BYTES,
            i <= len + 2,
            i == 3 * words@.len(),
            goal == leaf_words(data@),
            words@.len() <= (len + 2) / 3,
            forall|k: int| 0 <= k < words@.len() ==> words@[k] == #[trigger] goal[k],
        decreases len + 3 - i,
    {
        let b0: u32 = data[i] as u32;
        let b1: u32 = if len - i > 1 {
            data[i + 1] as u32
        } else {
            0
        };
        let b2: u32 = if len - i > 2 {
            data[i + 2] as u32
        } else {
            0
        };
        words.push(b0 + 256 * b1 + 65536 * b2);
        i = i + 3;
    }
    words.push(len as u32);
    proof {
        assert(words@ =~= goal);
    }
    Ok(words)
}

/// The node of a leaf, for a hash of words.
pub open spec fn leaf_hash(leaf: spec_fn(Seq<u32>) -> Seq<u8>, data: Seq<u8>) -> Seq<u8> {
    leaf(leaf_words(data))
}

/// Hashes a leaf's bytes to its node, which starts with sixteen zeros.
pub fn batch_leaf_hash<L, P, W>(data: &[u8], hash: &NodeHash<L, P, W>) -> (res: Result<
    [u8; 32],
    TreeError,
>) where
    L: Fn(Vec<u32>) -> [u8; 32],
    P: Fn([u8; 32], [u8; 32]) -> [u8; 32],
    W: Fn([u8; 32]) -> [u64; 4],
    requires
        hash.wf(),
    ensures
        data@.len() >= MAX_LEAF_BYTES ==> res == Err::<[u8; 32], TreeError>(
            TreeError::LeafTooLong { len: data@.len() as usize },
        ),
        data@.len() < MAX_LEAF_BYTES ==> res is Ok && res->Ok_0@ == leaf_hash(
            hash.leaf_fn(),
            data@,
        ),
        res is Ok ==> forall|i: int| 0 <= i < 16 ==> res->Ok_0@[i] == 0,
{
    match bytes_to_m31_words(data) {
        Ok(words) => Ok(hash.hash_leaf(words)),
        Err(e) => Err(e),
    }
}

/// The four words of a node.
pub fn node_words<L, P, W>(node: &[u8; 32], hash: &NodeHash<L, P, W>) -> (words: [u64; 4]) where
    L: Fn(Vec<u32>) -> [u8; 32],
    P: Fn([u8; 32], [u8; 32]) -> [u8; 32],
    W: Fn([u8; 32]) -> [u64; 4],
    requires
        hash.wf(),
    ensures
        words@ == hash.words_of(node@.subrange(16, 32)),
{
    hash.node_words(node)
}

/// A built tree: the first level holds the leaves' nodes, the last one the root.
pub struct BatchTree {
    pub levels: Vec<Vec<[u8; 32]>>,
}

/// The nodes of a level.
pub open spec fn level_view(level: Seq<[u8; 32]>) -> Seq<Seq<u8>> {
    Seq::new(level.len(), |i: int| level[i]@)
}

impl View for BatchTree {
    type V = Seq<Seq<Seq<u8>>>;

    open spec fn view(&self) -> Seq<Seq<Seq<u8>>> {
        Seq::new(self.levels@.len(), |k: int| level_view(self.levels@[k]@))
    }
}

/// The index of the node beside `i` in a level of `width` nodes; a last node
/// without a partner is its own.
pub open spec fn sibling(i: int, width: int) -> int {
    if i % 2 == 1 {
        i - 1
    } else if i + 1 < width {
        i + 1
    } else {
        width - 1
    }
}

/// The node over the nodes `left` and `right`, for a hash of pairs.
pub open spec fn join(
    pair: spec_fn(Seq<u8>, Seq<u8>) -> Seq<u8>,
    left: Seq<u8>,
    right: Seq<u8>,
) -> Seq<u8> {
    pair(left.subrange(16, 32), right.subrange(16, 32))
}

/// The level above a level.
pub open spec fn next_level(
    pair: spec_fn(Seq<u8>, Seq<u8>) -> Seq<u8>,
    level: Seq<Seq<u8>>,
) -> Seq<Seq<u8>> {
    Seq::new(
        ((level.len() + 1) / 2) as nat,
        |i: int| join(pair, level[2 * i], level[sibling(2 * i, level.len() as int)]),
    )
}

/// Whether level `k` of `t` has several nodes and the next level is the one above it.
pub open spec fn joins_at(
    pair: spec_fn(Seq<u8>, Seq<u8>) -> Seq<u8>,
    t: Seq<Seq<Seq<u8>>>,
    k: int,
) -> bool {
    t[k].len() > 1 && t[k + 1] == next_level(pair, t[k])
}

/// Whether `t` is a tree: every level is the one above the level before it, and the
/// last one is the root alone.
pub open spec fn is_tree(
    pair: spec_fn(Seq<u8>, Seq<u8>) -> Seq<u8>,
    t: Seq<Seq<Seq<u8>>>,
) -> bool {
    &&& t.len() > 0
    &&& t[0].len() > 0
    &&& t[t.len() - 1].len() == 1
    &&& forall|k: int| 0 <= k < t.len() - 1 ==> #[trigger] joins_at(pair, t, k)
}

/// Whether level `k` of `t` has several nodes and the next level half as many.
pub open spec fn halves_at(t: Seq<Seq<Seq<u8>>>, k: int) -> bool {
    t[k].len() > 1 && t[k + 1].len() == (t[k].len() + 1) / 2
}

/// Whether the levels of `t` have the widths of a tree: each one half of the one
/// before it, rounded up, down to a single node.
pub open spec fn has_tree_shape(t: Seq<Seq<Seq<u8>>>) -> bool {
    &&& t.len() > 0
    &&& t[0].len() > 0
    &&& t[t.len() - 1].len() == 1
    &&& forall|k: int| 0 <= k < t.len() - 1 ==> #[trigger] halves_at(t, k)
}

/// `index` halved `k` times: the position of its ancestor in level `k`.
pub open spec fn ancestor(index: int, k: nat) -> int
    decreases k,
{
    if k == 0 {
        index
    } else {
        ancestor(index, (k - 1) as nat) / 2
    }
}

/// The siblings on the way from leaf `index` to the root.
pub open spec fn path_siblings(t: Seq<Seq<Seq<u8>>>, index: int) -> Seq<Seq<u8>> {
    Seq::new(
        (t.len() - 1) as nat,
        |k: int| t[k][sibling(ancestor(index, k as nat), t[k].len() as int)],
    )
}

/// On which levels the way from leaf `index` to the root is a right child.
pub open spec fn path_bits(t: Seq<Seq<Seq<u8>>>, index: int) -> Seq<bool> {
    Seq::new((t.len() - 1) as nat, |k: int| ancestor(index, k as nat) % 2 == 1)
}

impl BatchTree {
    /// Whether the levels have the widths of a tree.
    pub open spec fn wf(&self) -> bool {
        has_tree_shape(self@)
    }

    /// The root.
    pub fn root(&self) -> (node: [u8; 32])
        requires
            self.wf(),
        ensures
            node@ == self@[self@.len() - 1][0],
    {
        self.levels[self.levels.len() - 1][0]
    }

    /// The number of leaves.
    pub fn leaf_count(&self) -> (n: usize)
        requires
            self.wf(),
        ensures
            n == self@[0].len(),
    {
        self.levels[0].len()
    }

    /// The number of siblings in a path.
    pub fn depth(&self) -> (n: usize)
        requires
            self.wf(),
        ensures
            n == self@.len() - 1,
    {
        self.levels.len() - 1
    }

    /// The path of leaf `index`: the siblings from the bottom up, and on which levels
    /// the node on the way is the right child.
    pub fn membership_proof(&self, index: usize) -> (res: Result<
        (Vec<[u8; 32]>, Vec<bool>),
        TreeError,
    >)
        requires
            self.wf(),
        ensures
            index >= self@[0].len() ==> res == Err::<(Vec<[u8; 32]>, Vec<bool>), TreeError>(
                TreeError::IndexOutOfRange { index, count: self@[0].len() as usize },
            ),
            index < self@[0].len() ==> {
                &&& res is Ok
                &&& level_view(res->Ok_0.0@) == path_siblings(self@, index as int)
                &&& res->Ok_0.1@ == path_bits(self@, index as int)
            },
    {
        if index >= self.leaf_count() {
            return Err(TreeError::IndexOutOfRange { index, count: self.leaf_count() });
        }
        let mut sibs: Vec<[u8; 32]> = Vec::new();
        let mut bits: Vec<bool> = Vec::new();
        let mut idx: usize = index;
        let mut k: usize = 0;
        while k < self.levels.len() - 1
            invariant
                0 < self.levels.len(),
                k <= self.levels.len() - 1,
                self.wf(),
                idx == ancestor(index as int, k as nat),
                idx < self@[k as int].len(),
                sibs@.len() == k,
                bits@.len() == k,
                forall|j: int|
                    0 <= j < k ==> (#[trigger] sibs@[j])@ == path_siblings(self@, index as int)[j],
                forall|j: int|
                    0 <= j < k ==> #[trigger] bits@[j] == path_bits(self@, index as int)[j],
            decreases self.levels.len() - k,
        {
            let level: &Vec<[u8; 32]> = &self.levels[k];
            let right: bool = idx % 2 == 1;
            proof {
                assert(self@[k as int].len() == level@.len());
                assert(halves_at(self@, k as int));
            }
            let sib: usize = if right {
                idx - 1
            } else if idx + 1 < level.len() {
                idx + 1
            } else {
                level.len() - 1
            };
            sibs.push(level[sib]);
            bits.push(right);
            idx = idx / 2;
            k = k + 1;
        }
        proof {
            assert(level_view(sibs@) =~= path_siblings(self@, index as int));
            assert(bits@ =~= path_bits(self@, index as int));
        }
        Ok((sibs, bits))
    }
}

/// The nodes of the leaves of a batch.
pub open spec fn leaf_level(leaf: spec_fn(Seq<u32>) -> Seq<u8>, leaves: Seq<Vec<u8>>) -> Seq<
    Seq<u8>,
> {
    Seq::new(leaves.len(), |i: int| leaf_hash(leaf, leaves[i]@))
}

/// The first leaf, from `i` on, that is too long.
pub open spec fn leaf_fault(leaves: Seq<Vec<u8>>, i: nat) -> Option<TreeError>
    decreases leaves.len() - i,
{
    if i >= leaves.len() {
        None
    } else if leaves[i as int]@.len() >= MAX_LEAF_BYTES {
        Some(TreeError::LeafTooLong { len: leaves[i as int]@.len() as usize })
    } else {
        leaf_fault(leaves, i + 1)
    }
}

/// What is wrong with a batch, if anything.
pub open spec fn batch_fault(leaves: Seq<Vec<u8>>) -> Option<TreeError> {
    if leaves.len() == 0 {
        Some(TreeError::NoLeaves)
    } else if leaves.len() > MAX_LEAVES {
        Some(TreeError::TooManyLeaves { count: leaves.len() as usize })
    } else {
        leaf_fault(leaves, 0)
    }
}

fn next_level_of<L, P, W>(level: &Vec<[u8; 32]>, hash: &NodeHash<L, P, W>) -> (next: Vec<
    [u8; 32],
>) where
    L: Fn(Vec<u32>) -> [u8; 32],
    P: Fn([u8; 32], [u8; 32]) -> [u8; 32],
    W: Fn([u8; 32]) -> [u64; 4],
    requires
        hash.wf(),
        0 < level@.len() <= MAX_LEAVES,
    ensures
        level_view(next@) == next_level(hash.pair_fn(), level_view(level@)),
{
    let len: usize = level.len();
    let mut next: Vec<[u8; 32]> = Vec::new();
    let mut i: usize = 0;
    let ghost goal = next_level(hash.pair_fn(), level_view(level@));
    while 2 * i < len
        invariant
            hash.wf(),
            0 < len <= MAX_LEAVES,
            len == level@.len(),
            i <= (len + 1) / 2,
            next@.len() == i,
            goal == next_level(hash.pair_fn(), level_view(level@)),
            forall|j: int| 0 <= j < i ==> (#[trigger] next@[j])@ == goal[j],
        decreases len + 1 - 2 * i,
    {
        let other: usize = if 2 * i + 1 < len {
            2 * i + 1
        } else {
            2 * i
        };
        proof {
            assert(other == sibling(2 * i as int, len as int));
        }
        next.push(hash.hash_pair(&level[2 * i], &level[other]));
        i = i + 1;
    }
    proof {
        assert(level_view(next@) =~= goal);
    }
    next
}

fn copy_level(level: &Vec<[u8; 32]>) -> (copy: Vec<[u8; 32]>)
    ensures
        copy@ == level@,
{
    let mut copy: Vec<[u8; 32]> = Vec::new();
    let mut i: usize = 0;
    while i < level.len()
        invariant
            i <= level.len(),
            copy@ == level@.subrange(0, i as int),
        decreases level.len() - i,
    {
        copy.push(level[i]);
        i = i + 1;
        proof {
            assert(level@.subrange(0, i as int) =~= level@.subrange(0, i - 1).push(level@[i - 1]));
        }
    }
    proof {
        assert(level@.subrange(0, i as int) =~= level@);
    }
    copy
}

/// Builds the tree over a batch of leaves.
pub fn build_batch_tree<L, P, W>(leaves: &[Vec<u8>], hash: &NodeHash<L, P, W>) -> (res: Result<
    BatchTree,
    TreeError,
>) where
    L: Fn(Vec<u32>) -> [u8; 32],
    P: Fn([u8; 32], [u8; 32]) -> [u8; 32],
    W: Fn([u8; 32]) -> [u64; 4],
    requires
        hash.wf(),
    ensures
        match batch_fault(leaves@) {
            Some(e) => res == Err::<BatchTree, TreeError>(e),
            None => {
                &&& res is Ok
                &&& res->Ok_0.wf()
                &&& is_tree(hash.pair_fn(), res->Ok_0@)
                &&& res->Ok_0@[0] == leaf_level(hash.leaf_fn(), leaves@)
            },
        },
{
    if leaves.len() == 0 {
        return Err(TreeError::NoLeaves);
    }
    if leaves.len() > MAX_LEAVES {
        return Err(TreeError::TooManyLeaves { count: leaves.len() });
    }
    let mut level: Vec<[u8; 32]> = Vec::new();
    let mut i: usize = 0;
    while i < leaves.len()
        invariant
            hash.wf(),
            0 < leaves@.len() <= MAX_LEAVES,
            i <= leaves.len(),
            level@.len() == i,
            batch_fault(leaves@) == leaf_fault(leaves@, i as nat),
            forall|j: int|
                0 <= j < i ==> (#[trigger] level@[j])@ == leaf_hash(hash.leaf_fn(), leaves@[j]@),
        decreases leaves.len() - i,
    {
        match batch_leaf_hash(leaves[i].as_slice(), hash) {
            Ok(node) => {
                level.push(node);
            },
            Err(e) => {
                return Err(e);
            },
        }
        i = i + 1;
    }
    proof {
        assert(level_view(level@) =~= leaf_level(hash.leaf_fn(), leaves@));
    }
    let mut levels: Vec<Vec<[u8; 32]>> = Vec::new();
    levels.push(copy_level(&level));
    while level.len() > 1
        invariant
            hash.wf(),
            0 < level@.len() <= MAX_LEAVES,
            levels@.len() > 0,
            level_view(levels@[0]@) == leaf_level(hash.leaf_fn(), leaves@),
            leaf_level(hash.leaf_fn(), leaves@).len() > 0,
            levels@[levels@.len() - 1]@ == level@,
            forall|k: int|
                0 <= k < levels@.len() - 1 ==> (#[trigger] levels@[k])@.len() > 1 && level_view(
                    levels@[k + 1]@,
                ) == next_level(hash.pair_fn(), level_view(levels@[k]@)),
        decreases level.len(),
    {
        let ghost before = levels@;
        let next: Vec<[u8; 32]> = next_level_of(&level, hash);
        proof {
            assert(level_view(next@).len() == next@.len());
        }
        levels.push(copy_level(&next));
        level = next;
        proof {
            assert forall|k: int| 0 <= k < levels@.len() - 1 implies (#[trigger] levels@[k])@.len()
                > 1 && level_view(levels@[k + 1]@) == next_level(hash.pair_fn(), level_view(levels@[k]@)) by {
                if k < before.len() - 1 {
                    assert(levels@[k] == before[k]);
                    assert(levels@[k + 1] == before[k + 1]);
                }
            }
        }
    }
    let tree = BatchTree { levels };
    proof {
        assert(tree@[0] == level_view(levels@[0]@));
        assert forall|k: int| 0 <= k < tree@.len() - 1 implies #[trigger] joins_at(
            hash.pair_fn(),
            tree@,
            k,
        ) by {
            assert(levels@[k]@.len() > 1);
        }
        lemma_tree_shape(hash.pair_fn(), tree@);
    }
    Ok(tree)
}

/// The node at the end of the first `n` steps of a path.
pub open spec fn path_end(
    pair: spec_fn(Seq<u8>, Seq<u8>) -> Seq<u8>,
    leaf: Seq<u8>,
    sibs: Seq<Seq<u8>>,
    bits: Seq<bool>,
    n: nat,
) -> Seq<u8>
    decreases n,
{
    if n == 0 {
        leaf
    } else {
        let cur = path_end(pair, leaf, sibs, bits, (n - 1) as nat);
        if bits[n - 1] {
            join(pair, sibs[n - 1], cur)
        } else {
            join(pair, cur, sibs[n - 1])
        }
    }
}

/// Whether a path leads from a leaf's node to a root.
pub open spec fn is_member(
    pair: spec_fn(Seq<u8>, Seq<u8>) -> Seq<u8>,
    root: Seq<u8>,
    leaf: Seq<u8>,
    sibs: Seq<Seq<u8>>,
    bits: Seq<bool>,
) -> bool {
    sibs.len() == bits.len() && path_end(pair, leaf, sibs, bits, sibs.len()) == root
}

/// Recomputes the root from a leaf's node and its path.
pub fn verify_batch_membership<L, P, W>(
    root: &[u8; 32],
    leaf: &[u8; 32],
    sibs: &[[u8; 32]],
    bits: &[bool],
    hash: &NodeHash<L, P, W>,
) -> (r: bool) where
    L: Fn(Vec<u32>) -> [u8; 32],
    P: Fn([u8; 32], [u8; 32]) -> [u8; 32],
    W: Fn([u8; 32]) -> [u64; 4],
    requires
        hash.wf(),
    ensures
        r == is_member(hash.pair_fn(), root@, leaf@, level_view(sibs@), bits@),
{
    if sibs.len() != bits.len() {
        return false;
    }
    let mut cur: [u8; 32] = *leaf;
    let mut i: usize = 0;
    while i < sibs.len()
        invariant
            hash.wf(),
            i <= sibs.len(),
            sibs@.len() == bits@.len(),
            cur@ == path_end(hash.pair_fn(), leaf@, level_view(sibs@), bits@, i as nat),
        decreases sibs.len() - i,
    {
        cur = if bits[i] {
            hash.hash_pair(&sibs[i], &cur)
        } else {
            hash.hash_pair(&cur, &sibs[i])
        };
        i = i + 1;
    }
    bytes::equal(cur.as_slice(), root.as_slice())
}

proof fn lemma_ancestors(
    pair: spec_fn(Seq<u8>, Seq<u8>) -> Seq<u8>,
    t: Seq<Seq<Seq<u8>>>,
    index: int,
    k: nat,
)
    requires
        is_tree(pair, t),
        0 <= index < t[0].len(),
        k < t.len(),
    ensures
        0 <= ancestor(index, k) < t[k as int].len(),
    decreases k,
{
    if k > 0 {
        lemma_ancestors(pair, t, index, (k - 1) as nat);
        assert(joins_at(pair, t, k - 1));
    }
}

proof fn lemma_path(
    pair: spec_fn(Seq<u8>, Seq<u8>) -> Seq<u8>,
    t: Seq<Seq<Seq<u8>>>,
    index: int,
    k: nat,
)
    requires
        is_tree(pair, t),
        0 <= index < t[0].len(),
        k < t.len(),
    ensures
        path_end(pair, t[0][index], path_siblings(t, index), path_bits(t, index), k)
            == t[k as int][ancestor(index, k)],
    decreases k,
{
    if k > 0 {
        let j = (k - 1) as nat;
        lemma_path(pair, t, index, j);
        lemma_ancestors(pair, t, index, j);
        lemma_ancestors(pair, t, index, k);
        let level = t[j as int];
        assert(joins_at(pair, t, j as int));
        let a = ancestor(index, j);
        let up = a / 2;
        assert(ancestor(index, k) == up);
        let sib = sibling(a, level.len() as int);
        assert(next_level(pair, level)[up] == join(
            pair,
            level[2 * up],
            level[sibling(2 * up, level.len() as int)],
        ));
        if a % 2 == 1 {
            assert(2 * up == a - 1 && sibling(2 * up, level.len() as int) == a);
        } else {
            assert(2 * up == a);
        }
    }
}

/// Every leaf of a tree proves its membership: its path leads to the root.
pub proof fn lemma_every_leaf_is_member(
    pair: spec_fn(Seq<u8>, Seq<u8>) -> Seq<u8>,
    t: Seq<Seq<Seq<u8>>>,
    index: int,
)
    requires
        is_tree(pair, t),
        0 <= index < t[0].len(),
    ensures
        is_member(
            pair,
            t[t.len() - 1][0],
            t[0][index],
            path_siblings(t, index),
            path_bits(t, index),
        ),
{
    let top = (t.len() - 1) as nat;
    lemma_path(pair, t, index, top);
    lemma_ancestors(pair, t, index, top);
}

/// A tree has the widths of a tree.
pub proof fn lemma_tree_shape(
    pair: spec_fn(Seq<u8>, Seq<u8>) -> Seq<u8>,
    t: Seq<Seq<Seq<u8>>>,
)
    requires
        is_tree(pair, t),
    ensures
        has_tree_shape(t),
{
    assert forall|k: int| 0 <= k < t.len() - 1 implies #[trigger] halves_at(t, k) by {
        assert(joins_at(pair, t, k));
    }
}

/// The last sixteen bytes of a node, which are what is hashed.
pub open spec fn low(node: Seq<u8>) -> Seq<u8> {
    node.subrange(16, 32)
}

/// Whether step `k` of two paths is a collision: different pairs of nodes are hashed to
/// nodes with the same last sixteen bytes.
pub open spec fn collides_at(
    pair: spec_fn(Seq<u8>, Seq<u8>) -> Seq<u8>,
    x: Seq<u8>,
    y: Seq<u8>,
    s: Seq<Seq<u8>>,
    u: Seq<Seq<u8>>,
    bits: Seq<bool>,
    k: int,
) -> bool {
    let a = path_end(pair, x, s, bits, k as nat);
    let b = path_end(pair, y, u, bits, k as nat);
    &&& low(a) != low(b) || low(s[k]) != low(u[k])
    &&& low(path_end(pair, x, s, bits, (k + 1) as nat)) == low(
        path_end(pair, y, u, bits, (k + 1) as nat),
    )
}

proof fn lemma_paths_apart(
    pair: spec_fn(Seq<u8>, Seq<u8>) -> Seq<u8>,
    x: Seq<u8>,
    y: Seq<u8>,
    s: Seq<Seq<u8>>,
    u: Seq<Seq<u8>>,
    bits: Seq<bool>,
    n: nat,
)
    requires
        low(path_end(pair, x, s, bits, n)) == low(path_end(pair, y, u, bits, n)),
    ensures
        (low(x) == low(y) && forall|k: int| 0 <= k < n ==> low(#[trigger] s[k]) == low(u[k]))
            || exists|k: int| 0 <= k < n && #[trigger] collides_at(pair, x, y, s, u, bits, k),
    decreases n,
{
    if n > 0 {
        let m = (n - 1) as nat;
        if !collides_at(pair, x, y, s, u, bits, m as int) {
            lemma_paths_apart(pair, x, y, s, u, bits, m);
            if exists|k: int| 0 <= k < m && #[trigger] collides_at(pair, x, y, s, u, bits, k) {
                let k = choose|k: int|
                    0 <= k < m && #[trigger] collides_at(pair, x, y, s, u, bits, k);
                assert(0 <= k < n && collides_at(pair, x, y, s, u, bits, k));
            }
        }
    }
}

/// A node other than the batch's own proves no membership in its place without a
/// collision: two paths with the same directions to the same root start from the same
/// node and have the same siblings, or at one of their steps different pairs are hashed to
/// the same node.
pub proof fn lemma_membership_binds(
    pair: spec_fn(Seq<u8>, Seq<u8>) -> Seq<u8>,
    root: Seq<u8>,
    x: Seq<u8>,
    y: Seq<u8>,
    s: Seq<Seq<u8>>,
    u: Seq<Seq<u8>>,
    bits: Seq<bool>,
)
    requires
        is_member(pair, root, x, s, bits),
        is_member(pair, root, y, u, bits),
    ensures
        (low(x) == low(y) && forall|k: int|
            0 <= k < s.len() ==> low(#[trigger] s[k]) == low(u[k])) || exists|k: int|
            0 <= k < s.len() && #[trigger] collides_at(pair, x, y, s, u, bits, k),
{
    lemma_paths_apart(pair, x, y, s, u, bits, s.len());
}

} // verus!
