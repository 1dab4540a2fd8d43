//! What a tree over a batch of leaves holds, node by node.
use crate::batch_tree;
use crate::batch_tree::{BatchTree, TreeError};
use crate::node_hash::NodeHash;
use vstd::arithmetic::div_mod::*;
use vstd::arithmetic::power2::*;
use vstd::prelude::*;

verus! {

/// The words of a leaf: three bytes in each, lowest first, the last ones filled up with
/// zeros, and then the number of bytes.
pub proof fn lemma_leaf_word_bytes(data: Seq<u8>, all: Seq<u8>)
    requires
        data.len() < 1073741824,
        all.len() % 3 == 0,
        data.len() <= all.len() < data.len() + 3,
        forall|i: int| 0 <= i < data.len() ==> #[trigger] all[i] == data[i],
        forall|i: int| data.len() <= i < all.len() ==> #[trigger] all[i] == 0,
    ensures
        ({
            let w = batch_tree::leaf_words(data);
            &&& 3 * w.len() == all.len() + 3
            &&& w[w.len() - 1] as int == data.len()
            &&& forall|k: int|
                0 <= 3 * k < all.len() ==> #[trigger] w[k] as int == all[3 * k] + 0x100 * all[3 * k
                    + 1] + 0x10000 * all[3 * k + 2]
        }),
{
    let w = batch_tree::leaf_words(data);
    assert forall|k: int| 0 <= 3 * k < all.len() implies #[trigger] w[k] as int == all[3 * k]
        + 0x100 * all[3 * k + 1] + 0x10000 * all[3 * k + 2] by {
        assert(batch_tree::byte_or_zero(data, 3 * k) == all[3 * k]);
        assert(batch_tree::byte_or_zero(data, 3 * k + 1) == all[3 * k + 1]);
        assert(batch_tree::byte_or_zero(data, 3 * k + 2) == all[3 * k + 2]);
    }
}

/// The nodes above a level: each is made of the lower halves of two neighbours, the last one
/// of a level with an odd number of nodes of its own lower half twice.
pub proof fn lemma_level_nodes(
    pair: spec_fn(Seq<u8>, Seq<u8>) -> Seq<u8>,
    level: Seq<Seq<u8>>,
    i: int,
)
    requires
        0 <= 2 * i < level.len(),
    ensures
        batch_tree::next_level(pair, level).len() == (level.len() + 1) / 2,
        2 * i + 1 < level.len() ==> batch_tree::next_level(pair, level)[i] == pair(
            level[2 * i].subrange(16, 32),
            level[2 * i + 1].subrange(16, 32),
        ),
        2 * i + 1 == level.len() ==> batch_tree::next_level(pair, level)[i] == pair(
            level[2 * i].subrange(16, 32),
            level[2 * i].subrange(16, 32),
        ),
{
}

/// The levels of a tree: every level but the last has several nodes and lies below the one
/// made of it, and the last is the root alone.
pub proof fn lemma_tree_levels(
    pair: spec_fn(Seq<u8>, Seq<u8>) -> Seq<u8>,
    t: Seq<Seq<Seq<u8>>>,
    k: int,
    i: int,
)
    requires
        batch_tree::is_tree(pair, t),
        0 <= k < t.len(),
    ensures
        t[t.len() - 1].len() == 1,
        k < t.len() - 1 ==> {
            &&& t[k].len() > 1
            &&& t[k + 1].len() == (t[k].len() + 1) / 2
            &&& 0 <= i && 2 * i + 1 < t[k].len() ==> t[k + 1][i] == pair(
                t[k][2 * i].subrange(16, 32),
                t[k][2 * i + 1].subrange(16, 32),
            )
            &&& 0 <= i && 2 * i + 1 == t[k].len() ==> t[k + 1][i] == pair(
                t[k][2 * i].subrange(16, 32),
                t[k][2 * i].subrange(16, 32),
            )
        },
{
    if k < t.len() - 1 {
        assert(batch_tree::joins_at(pair, t, k));
        if 0 <= 2 * i < t[k].len() {
            lemma_level_nodes(pair, t[k], i);
        }
    }
}

/// The leaf level of a tree holds one node for each leaf, that of the leaf's words.
pub proof fn lemma_leaf_nodes(
    leaf: spec_fn(Seq<u32>) -> Seq<u8>,
    leaves: Seq<Vec<u8>>,
    i: int,
)
    requires
        0 <= i < leaves.len(),
    ensures
        batch_tree::leaf_level(leaf, leaves).len() == leaves.len(),
        batch_tree::leaf_level(leaf, leaves)[i] == leaf(batch_tree::leaf_words(leaves[i]@)),
{
}

/// The node on level `k` above leaf `index` is number `index / 2^k`.
pub proof fn lemma_ancestor(index: int, k: nat)
    requires
        0 <= index,
    ensures
        batch_tree::ancestor(index, k) == index / (pow2(k) as int),
    decreases k,
{
    lemma2_to64();
    lemma_pow2_pos(k);
    if k > 0 {
        let m = (k - 1) as nat;
        lemma_ancestor(index, m);
        lemma_pow2_pos(m);
        lemma_pow2_unfold(k);
        lemma_div_denominator(index, pow2(m) as int, 2);
        assert(pow2(m) as int * 2 == pow2(k));
        assert(batch_tree::ancestor(index, k) == batch_tree::ancestor(index, m) / 2);
    } else {
        assert(pow2(0) == 1);
        assert(index / 1 == index);
    }
}

/// The path of a leaf: on each level whether the node on the way is the right one of its
/// pair, and the other one of the pair, or the node itself where it has no other.
pub proof fn lemma_path_entries(t: Seq<Seq<Seq<u8>>>, index: int, k: int)
    requires
        0 <= index,
        0 <= k < t.len() - 1,
        index / (pow2(k as nat) as int) < t[k].len(),
    ensures
        ({
            let at = index / (pow2(k as nat) as int);
            let sibs = batch_tree::path_siblings(t, index);
            let bits = batch_tree::path_bits(t, index);
            &&& sibs.len() == t.len() - 1
            &&& bits.len() == t.len() - 1
            &&& bits[k] <==> at % 2 == 1
            &&& at % 2 == 1 ==> sibs[k] == t[k][at - 1]
            &&& at % 2 == 0 && at + 1 < t[k].len() ==> sibs[k] == t[k][at + 1]
            &&& at % 2 == 0 && at + 1 == t[k].len() ==> sibs[k] == t[k][at]
        }),
{
    lemma_ancestor(index, k as nat);
}

/// A path is walked from the leaf up: one more sibling at the bottom is one more step before
/// the rest of the way, with the sibling to the left where its bit is set.
pub proof fn lemma_path_walked(
    pair: spec_fn(Seq<u8>, Seq<u8>) -> Seq<u8>,
    leaf: Seq<u8>,
    s: Seq<u8>,
    right: bool,
    sibs: Seq<Seq<u8>>,
    bits: Seq<bool>,
    n: nat,
)
    requires
        n <= sibs.len(),
        n <= bits.len(),
    ensures
        batch_tree::path_end(pair, leaf, sibs, bits, 0) == leaf,
        batch_tree::path_end(pair, leaf, seq![s] + sibs, seq![right] + bits, n + 1)
            == batch_tree::path_end(
            pair,
            if right {
                pair(s.subrange(16, 32), leaf.subrange(16, 32))
            } else {
                pair(leaf.subrange(16, 32), s.subrange(16, 32))
            },
            sibs,
            bits,
            n,
        ),
    decreases n,
{
    let ss = seq![s] + sibs;
    let bs = seq![right] + bits;
    assert(ss[n as int] == if n == 0 {
        s
    } else {
        sibs[n - 1]
    });
    assert(bs[n as int] == if n == 0 {
        right
    } else {
        bits[n - 1]
    });
    if n == 0 {
        assert(batch_tree::path_end(pair, leaf, ss, bs, 0) == leaf);
    } else {
        lemma_path_walked(pair, leaf, s, right, sibs, bits, (n - 1) as nat);
    }
}

/// A leaf is taken for a member if and only if its path has a bit for each sibling and ends
/// in the root.
pub proof fn lemma_member(
    pair: spec_fn(Seq<u8>, Seq<u8>) -> Seq<u8>,
    root: Seq<u8>,
    leaf: Seq<u8>,
    sibs: Seq<Seq<u8>>,
    bits: Seq<bool>,
)
    ensures
        batch_tree::is_member(pair, root, leaf, sibs, bits) <==> sibs.len() == bits.len()
            && batch_tree::path_end(pair, leaf, sibs, bits, bits.len()) == root,
{
}

proof fn lemma_long_leaf(leaves: Seq<Vec<u8>>, i: nat, k: nat)
    requires
        i <= k < leaves.len(),
        forall|q: int| i <= q < k ==> (#[trigger] leaves[q])@.len() < 1073741824,
        leaves[k as int]@.len() >= 1073741824,
    ensures
        batch_tree::leaf_fault(leaves, i) == Some(
            TreeError::LeafTooLong { len: leaves[k as int]@.len() as usize },
        ),
    decreases k - i,
{
    if i < k {
        assert(leaves[i as int]@.len() < 1073741824);
        lemma_long_leaf(leaves, i + 1, k);
    }
}

proof fn lemma_short_leaves(leaves: Seq<Vec<u8>>, i: nat)
    requires
        forall|q: int| 0 <= q < leaves.len() ==> (#[trigger] leaves[q])@.len() < 1073741824,
    ensures
        batch_tree::leaf_fault(leaves, i) is None,
    decreases leaves.len() - i,
{
    if i < leaves.len() {
        assert(leaves[i as int]@.len() < 1073741824);
        lemma_short_leaves(leaves, i + 1);
    }
}

/// A batch is refused without leaves, with more than `2^20` of them, or with one of `2^30`
/// bytes or more, of which the first is reported.
pub proof fn lemma_batch_refused(leaves: Seq<Vec<u8>>, k: int)
    ensures
        leaves.len() == 0 ==> batch_tree::batch_fault(leaves) == Some(TreeError::NoLeaves),
        leaves.len() > 1048576 ==> batch_tree::batch_fault(leaves) == Some(
            TreeError::TooManyLeaves { count: leaves.len() as usize },
        ),
        1 <= leaves.len() <= 1048576 && (forall|q: int|
            0 <= q < leaves.len() ==> (#[trigger] leaves[q])@.len() < 1073741824)
            ==> batch_tree::batch_fault(leaves) is None,
        0 <= k < leaves.len() <= 1048576 && leaves[k]@.len() >= 1073741824 && (forall|q: int|
            0 <= q < k ==> (#[trigger] leaves[q])@.len() < 1073741824) ==> batch_tree::batch_fault(
            leaves,
        ) == Some(TreeError::LeafTooLong { len: leaves[k]@.len() as usize }),
{
    if forall|q: int| 0 <= q < leaves.len() ==> (#[trigger] leaves[q])@.len() < 1073741824 {
        lemma_short_leaves(leaves, 0);
    }
    if 0 <= k < leaves.len() <= 1048576 && leaves[k]@.len() >= 1073741824 && (forall|q: int|
        0 <= q < k ==> (#[trigger] leaves[q])@.len() < 1073741824) {
        lemma_long_leaf(leaves, 0, k as nat);
    }
}

/// A tree is built of a batch that is not refused. The path that it gives for a leaf, with
/// the leaf's own node, is accepted for its root; an index behind the last leaf is refused.
pub proof fn lemma_tree_calls<L, P, W>(
    leaves: &[Vec<u8>],
    hash: &NodeHash<L, P, W>,
    res: Result<BatchTree, TreeError>,
    index: usize,
    data: &[u8],
    node: Result<[u8; 32], TreeError>,
    path: Result<(Vec<[u8; 32]>, Vec<bool>), TreeError>,
    root: [u8; 32],
    sibs: &[[u8; 32]],
    bits: &[bool],
    ok: bool,
    count: usize,
    depth: usize,
) where
    L: Fn(Vec<u32>) -> [u8; 32],
    P: Fn([u8; 32], [u8; 32]) -> [u8; 32],
    W: Fn([u8; 32]) -> [u64; 4],

    requires
        call_ensures(batch_tree::build_batch_tree::<L, P, W>, (leaves, hash), res),
        res is Ok,
        call_ensures(BatchTree::membership_proof, (&res->Ok_0, index), path),
        call_ensures(BatchTree::root, (&res->Ok_0,), root),
        call_ensures(BatchTree::leaf_count, (&res->Ok_0,), count),
        call_ensures(BatchTree::depth, (&res->Ok_0,), depth),
        index < leaves@.len() ==> data@ == leaves@[index as int]@,
        call_ensures(batch_tree::batch_leaf_hash::<L, P, W>, (data, hash), node),
        path is Ok ==> sibs@ == path->Ok_0.0@ && bits@ == path->Ok_0.1@,
        node is Ok ==> call_ensures(
            batch_tree::verify_batch_membership::<L, P, W>,
            (&root, &node->Ok_0, sibs, bits, hash),
            ok,
        ),
    ensures
        count == leaves@.len(),
        1 <= leaves@.len() <= 1048576,
        index >= leaves@.len() ==> path is Err,
        index < leaves@.len() ==> {
            &&& path is Ok
            &&& path->Ok_0.0@.len() == depth
            &&& path->Ok_0.1@.len() == depth
            &&& node is Ok
            &&& ok
        },
{
    lemma_batch_refused(leaves@, 0);
    let t = res->Ok_0@;
    assert(t[0].len() == leaves@.len());
    if index < leaves@.len() {
        let f = hash.pair_fn();
        batch_tree::lemma_every_leaf_is_member(f, t, index as int);
        lemma_leaf_nodes(hash.leaf_fn(), leaves@, index as int);
        if data@.len() >= 1073741824 {
            lemma_some_long_leaf(leaves@, index as int, 0);
        }
        let v = batch_tree::level_view(path->Ok_0.0@);
        assert(v.len() == path->Ok_0.0@.len());
    }
}

proof fn lemma_some_long_leaf(leaves: Seq<Vec<u8>>, k: int, i: nat)
    requires
        i <= k < leaves.len(),
        leaves[k]@.len() >= 1073741824,
    ensures
        batch_tree::leaf_fault(leaves, i) is Some,
    decreases k - i,
{
    if i < k {
        lemma_some_long_leaf(leaves, k, i + 1);
    }
}

/// A tree is built if and only if there are leaves, not more than `2^20`, of less than `2^30`
/// bytes each.
pub proof fn lemma_tree_refused<L, P, W>(
    leaves: &[Vec<u8>],
    hash: &NodeHash<L, P, W>,
    res: Result<BatchTree, TreeError>,
    k: int,
) where
    L: Fn(Vec<u32>) -> [u8; 32],
    P: Fn([u8; 32], [u8; 32]) -> [u8; 32],
    W: Fn([u8; 32]) -> [u64; 4],

    requires
        call_ensures(batch_tree::build_batch_tree::<L, P, W>, (leaves, hash), res),
    ensures
        leaves@.len() == 0 ==> res == Err::<BatchTree, TreeError>(TreeError::NoLeaves),
        leaves@.len() > 1048576 ==> res == Err::<BatchTree, TreeError>(
            TreeError::TooManyLeaves { count: leaves@.len() as usize },
        ),
        1 <= leaves@.len() <= 1048576 && (forall|q: int|
            0 <= q < leaves@.len() ==> (#[trigger] leaves@[q])@.len() < 1073741824) ==> res is Ok,
        0 <= k < leaves@.len() <= 1048576 && leaves@[k]@.len() >= 1073741824 && (forall|q: int|
            0 <= q < k ==> (#[trigger] leaves@[q])@.len() < 1073741824) ==> res == Err::<
            BatchTree,
            TreeError,
        >(TreeError::LeafTooLong { len: leaves@[k]@.len() as usize }),
{
    lemma_batch_refused(leaves@, k);
}

/// A hash of nodes gives of a pair what it gives of any pair with the same lower halves, and
/// a node that begins with sixteen zeros.
pub proof fn lemma_pair_call<L, P, W>(
    hash: NodeHash<L, P, W>,
    x: [u8; 32],
    y: [u8; 32],
    n: [u8; 32],
    u: [u8; 32],
    v: [u8; 32],
    m: [u8; 32],
    i: int,
) where
    L: Fn(Vec<u32>) -> [u8; 32],
    P: Fn([u8; 32], [u8; 32]) -> [u8; 32],
    W: Fn([u8; 32]) -> [u64; 4],

    requires
        hash.wf(),
        call_ensures(hash.pair, (x, y), n),
        call_ensures(hash.pair, (u, v), m),
        forall|k: int| 16 <= k < 32 ==> #[trigger] x@[k] == u@[k],
        forall|k: int| 16 <= k < 32 ==> #[trigger] y@[k] == v@[k],
        0 <= i < 32,
    ensures
        n@[i] == m@[i],
        i < 16 ==> n@[i] == 0,
        n@ == hash.pair_node(x@.subrange(16, 32), y@.subrange(16, 32)),
{
    let l = x@.subrange(16, 32);
    let r = y@.subrange(16, 32);
    assert(l =~= u@.subrange(16, 32));
    assert(r =~= v@.subrange(16, 32));
    assert(hash.gives_pair(l, r, n@));
    assert(hash.gives_pair(l, r, m@));
    assert(hash.gives_pair(l, r, hash.pair_node(l, r)));
}

} // verus!
