//! The bytes of outboards, and what the outboard of a blob has.
//!
//! The hash pair of a node takes 64 bytes, the left hash first. In an outboard in memory it stands
//! behind those of the nodes that come before it in the order of the outboard.
use crate::content::Parent;
use crate::copy::{outboard_loader, stored_loader};
use crate::create::{
    create_run, created, initialized_outboard, lemma_create_tree, lemma_save_all_concat,
    outboard_saver, pairs_bytes, save_all, tree_pairs, tree_post_steps, CreateOutboard, SaveFn,
};
use crate::error::IoError;
use crate::geometry::{lemma_post_order, lemma_pre_order, lemma_split_point_unique};
use crate::hash::{
    chunk_count, lemma_hash_bytes, lemma_hash_of, lemma_pair_of, pair_bytes, pair_of, tree_hash,
    zero_hash, Digest, Hasher,
};
use crate::laws::spans::{complete, law_complete};
use crate::laws::store::{
    law_post_order_initialized, law_post_order_is_sequential, law_pre_order_initialized,
    lemma_tree_pairs_nodes,
};
use crate::outboard::{
    bytes_up_to, empty_outboard, lemma_index_of, lemma_tracked, load_slot, save_slot, slot_of,
    Outboard, OutboardMut, OutboardState, PostOrderOutboard, PreOrderOutboard,
};
use crate::tree::{lemma_group, BaoTree, BlockSize, TreeNode};
use vstd::arithmetic::power2::is_pow2;
use vstd::prelude::*;

verus! {

/// The bytes of a hash pair are those of the left hash and then those of the right one, and a hash
/// pair that is read from 64 bytes has those bytes. The zero hash has only zero bytes.
pub proof fn law_pair_bytes(l: Digest, r: Digest, bytes: Seq<u8>)
    ensures
        pair_bytes(l, r) == l@ + r@,
        l@.len() == 32,
        bytes.len() == 64 ==> pair_of(bytes).0@ + pair_of(bytes).1@ == bytes,
        forall|i: int| 0 <= i < 32 ==> zero_hash()@[i] == 0,
{
    if bytes.len() == 64 {
        lemma_hash_bytes(bytes.subrange(0, 32));
        lemma_hash_bytes(bytes.subrange(32, 64));
        assert(bytes.subrange(0, 32) + bytes.subrange(32, 64) =~= bytes);
    }
    lemma_hash_bytes(Seq::new(32, |i: int| 0u8));
}

/// Loading from bytes, by the number of the place.
proof fn lemma_load_bytes(data: Seq<u8>, nodes: Seq<int>, node: TreeNode, k: int)
    requires
        nodes.no_duplicates(),
        0 <= k < nodes.len(),
        nodes[k] == node.0,
    ensures
        slot_of(nodes, node) == Some(k),
        64 * k + 64 <= data.len() ==> {
            &&& load_slot(data, slot_of(nodes, node)) matches Ok(Some(pair)) && pair.0@ + pair.1@
                == data.subrange(64 * k, 64 * k + 64)
        },
        64 * k + 64 > data.len() ==> (load_slot(data, slot_of(nodes, node)) matches Ok(Some(pair))
            && forall|i: int| 0 <= i < 32 ==> pair.0@[i] == 0 && pair.1@[i] == 0),
{
    lemma_index_of(nodes, k);
    law_pair_bytes(zero_hash(), zero_hash(), bytes_up_to(data, 64 * k, 64));
}

/// Saving to bytes, by the number of the place.
proof fn lemma_save_bytes(
    data: Seq<u8>,
    nodes: Seq<int>,
    node: TreeNode,
    pair: (Digest, Digest),
    k: int,
    b: int,
)
    requires
        nodes.no_duplicates(),
        0 <= k < nodes.len(),
        nodes[k] == node.0,
    ensures
        ({
            let after = save_slot(data, slot_of(nodes, node), pair);
            &&& after.len() == (if data.len() >= 64 * k + 64 {
                data.len() as int
            } else {
                64 * k + 64
            })
            &&& after.subrange(64 * k, 64 * k + 64) == pair.0@ + pair.1@
            &&& 0 <= b < after.len() && !(64 * k <= b < 64 * k + 64) ==> after[b] == (if b
                < data.len() {
                data[b]
            } else {
                0u8
            })
        }),
{
    lemma_index_of(nodes, k);
    lemma_pair_of(pair.0, pair.1);
    let after = save_slot(data, slot_of(nodes, node), pair);
    assert(after.subrange(64 * k, 64 * k + 64) =~= pair.0@ + pair.1@);
}

/// A pre order outboard loads the hash pair of the node at place `k` from the 64 bytes at `64 * k`.
/// Where its data ends before their end, it gives two hashes of zeros, and says that it does not
/// have the pair. For a node that it does not track it gives `None`.
pub proof fn law_pre_order_load<H: Hasher>(st: OutboardState, node: TreeNode, k: int)
    requires
        st.tree.wf(),
    ensures
        0 <= k < st.tree.pre_order_nodes().len() && st.tree.pre_order_nodes()[k] == node.0 ==> {
            &&& PreOrderOutboard::<H>::stored_in(st, node) <==> 64 * k + 64 <= st.data.len()
            &&& 64 * k + 64 <= st.data.len() ==> (PreOrderOutboard::<H>::load_from(
                st,
                node,
            ) matches Ok(Some(pair)) && pair.0@ + pair.1@ == st.data.subrange(64 * k, 64 * k + 64))
            &&& 64 * k + 64 > st.data.len() ==> (PreOrderOutboard::<H>::load_from(
                st,
                node,
            ) matches Ok(Some(pair)) && forall|i: int|
                0 <= i < 32 ==> pair.0@[i] == 0 && pair.1@[i] == 0)
        },
        !st.tree.pre_order_nodes().contains(node.0 as int) ==> {
            &&& PreOrderOutboard::<H>::load_from(st, node) == Ok::<
                Option<(Digest, Digest)>,
                IoError,
            >(None)
            &&& !PreOrderOutboard::<H>::stored_in(st, node)
        },
{
    lemma_tracked(st.tree);
    let nodes = st.tree.pre_order_nodes();
    if 0 <= k < nodes.len() && nodes[k] == node.0 {
        lemma_load_bytes(st.data, nodes, node, k);
    }
}

/// As `law_pre_order_load`, for a post order outboard.
pub proof fn law_post_order_load<H: Hasher>(st: OutboardState, node: TreeNode, k: int)
    requires
        st.tree.wf(),
    ensures
        0 <= k < st.tree.post_order_nodes().len() && st.tree.post_order_nodes()[k] == node.0 ==> {
            &&& PostOrderOutboard::<H>::stored_in(st, node) <==> 64 * k + 64 <= st.data.len()
            &&& 64 * k + 64 <= st.data.len() ==> (PostOrderOutboard::<H>::load_from(
                st,
                node,
            ) matches Ok(Some(pair)) && pair.0@ + pair.1@ == st.data.subrange(64 * k, 64 * k + 64))
            &&& 64 * k + 64 > st.data.len() ==> (PostOrderOutboard::<H>::load_from(
                st,
                node,
            ) matches Ok(Some(pair)) && forall|i: int|
                0 <= i < 32 ==> pair.0@[i] == 0 && pair.1@[i] == 0)
        },
        !st.tree.post_order_nodes().contains(node.0 as int) ==> {
            &&& PostOrderOutboard::<H>::load_from(st, node) == Ok::<
                Option<(Digest, Digest)>,
                IoError,
            >(None)
            &&& !PostOrderOutboard::<H>::stored_in(st, node)
        },
{
    lemma_tracked(st.tree);
    let nodes = st.tree.post_order_nodes();
    if 0 <= k < nodes.len() && nodes[k] == node.0 {
        lemma_load_bytes(st.data, nodes, node, k);
    }
}

/// A pre order outboard saves the hash pair of the node at place `k` to the 64 bytes at `64 * k`. All
/// other bytes stay as they are; a gap behind the old end is filled with zeros. Saving for a node
/// that it does not track does nothing. Neither fails.
pub proof fn law_pre_order_save<H: Hasher>(
    st: OutboardState,
    node: TreeNode,
    pair: (Digest, Digest),
    k: int,
    b: int,
)
    requires
        st.tree.wf(),
    ensures
        ({
            let (after, res) = PreOrderOutboard::<H>::saved(st, node, pair);
            &&& res is Ok
            &&& after.root == st.root && after.tree == st.tree
            &&& !st.tree.pre_order_nodes().contains(node.0 as int) ==> after.data == st.data
            &&& 0 <= k < st.tree.pre_order_nodes().len() && st.tree.pre_order_nodes()[k] == node.0
                ==> {
                &&& after.data.len() == (if st.data.len() >= 64 * k + 64 {
                    st.data.len() as int
                } else {
                    64 * k + 64
                })
                &&& after.data.subrange(64 * k, 64 * k + 64) == pair.0@ + pair.1@
                &&& 0 <= b < after.data.len() && !(64 * k <= b < 64 * k + 64) ==> after.data[b] == (
                if b < st.data.len() {
                    st.data[b]
                } else {
                    0u8
                })
            }
        }),
        PreOrderOutboard::<H>::synced(st).0 == st,
        PreOrderOutboard::<H>::synced(st).1 is Ok,
{
    lemma_tracked(st.tree);
    let nodes = st.tree.pre_order_nodes();
    if 0 <= k < nodes.len() && nodes[k] == node.0 {
        lemma_save_bytes(st.data, nodes, node, pair, k, b);
    }
}

/// As `law_pre_order_save`, for a post order outboard.
pub proof fn law_post_order_save<H: Hasher>(
    st: OutboardState,
    node: TreeNode,
    pair: (Digest, Digest),
    k: int,
    b: int,
)
    requires
        st.tree.wf(),
    ensures
        ({
            let (after, res) = PostOrderOutboard::<H>::saved(st, node, pair);
            &&& res is Ok
            &&& after.root == st.root && after.tree == st.tree
            &&& !st.tree.post_order_nodes().contains(node.0 as int) ==> after.data == st.data
            &&& 0 <= k < st.tree.post_order_nodes().len() && st.tree.post_order_nodes()[k] == node.0
                ==> {
                &&& after.data.len() == (if st.data.len() >= 64 * k + 64 {
                    st.data.len() as int
                } else {
                    64 * k + 64
                })
                &&& after.data.subrange(64 * k, 64 * k + 64) == pair.0@ + pair.1@
                &&& 0 <= b < after.data.len() && !(64 * k <= b < 64 * k + 64) ==> after.data[b] == (
                if b < st.data.len() {
                    st.data[b]
                } else {
                    0u8
                })
            }
        }),
        PostOrderOutboard::<H>::synced(st).0 == st,
        PostOrderOutboard::<H>::synced(st).1 is Ok,
{
    lemma_tracked(st.tree);
    let nodes = st.tree.post_order_nodes();
    if 0 <= k < nodes.len() && nodes[k] == node.0 {
        lemma_save_bytes(st.data, nodes, node, pair, k, b);
    }
}

/// The hash of the data of at most a chunk group is the hash of the data. The hash of more data is
/// the hash of two hashes: that of the first `p` chunks, and that of the rest, where `p` is the
/// power of two that leaves at least one byte and at most `p` chunks.
pub proof fn law_tree_hash<H: Hasher>(bytes: Seq<u8>, g: int, s: int, is_root: bool, p: int)
    requires
        1 <= g,
    ensures
        bytes.len() <= 1024 * g ==> tree_hash::<H>(bytes, g, s, is_root) == H::chunk_hash(
            s as u64,
            bytes,
            is_root,
        ),
        bytes.len() > 1024 * g && is_pow2(p) && 1024 * p < bytes.len() <= 2048 * p ==> tree_hash::<
            H,
        >(bytes, g, s, is_root) == H::inner_hash(
            tree_hash::<H>(bytes.take(1024 * p), g, s, false),
            tree_hash::<H>(bytes.skip(1024 * p), g, s + p, false),
            is_root,
        ),
{
    let m = chunk_count(bytes);
    if bytes.len() > 1024 * g && is_pow2(p) && 1024 * p < bytes.len() <= 2048 * p {
        lemma_split_point_unique(m, p);
    }
}

/// A pre order outboard that is initialised from data that is long enough has the root hash of the
/// blob, and for each node between chunk groups the hashes of the data that its children cover.
pub proof fn law_pre_order_of_blob<H: Hasher>(st: OutboardState, data: Seq<u8>)
    requires
        st.tree.wf(),
        st.tree.size <= data.len(),
    ensures
        ({
            let blob = data.take(st.tree.size as int);
            let g = st.tree.group();
            let (after, res) = PreOrderOutboard::<H>::initialized(st, data);
            &&& res is Ok
            &&& after.root == tree_hash::<H>(blob, g, 0, true)
            &&& after.tree == st.tree
            &&& complete::<H>(outboard_loader::<PreOrderOutboard<H>>(after), blob, g)
            &&& complete::<H>(stored_loader::<PreOrderOutboard<H>>(after), blob, g)
        }),
{
    let blob = data.take(st.tree.size as int);
    law_pre_order_initialized::<H>(st, data);
    let after = PreOrderOutboard::<H>::initialized(st, data).0;
    law_complete::<H>(outboard_loader::<PreOrderOutboard<H>>(after), st.tree, blob);
    law_complete::<H>(stored_loader::<PreOrderOutboard<H>>(after), st.tree, blob);
}

/// As `law_pre_order_of_blob`, for a post order outboard.
pub proof fn law_post_order_of_blob<H: Hasher>(st: OutboardState, data: Seq<u8>)
    requires
        st.tree.wf(),
        st.tree.size <= data.len(),
    ensures
        ({
            let blob = data.take(st.tree.size as int);
            let g = st.tree.group();
            let (after, res) = PostOrderOutboard::<H>::initialized(st, data);
            &&& res is Ok
            &&& after.root == tree_hash::<H>(blob, g, 0, true)
            &&& after.tree == st.tree
            &&& complete::<H>(outboard_loader::<PostOrderOutboard<H>>(after), blob, g)
            &&& complete::<H>(stored_loader::<PostOrderOutboard<H>>(after), blob, g)
        }),
{
    let blob = data.take(st.tree.size as int);
    law_post_order_initialized::<H>(st, data);
    let after = PostOrderOutboard::<H>::initialized(st, data).0;
    law_complete::<H>(outboard_loader::<PostOrderOutboard<H>>(after), st.tree, blob);
    law_complete::<H>(stored_loader::<PostOrderOutboard<H>>(after), st.tree, blob);
}

/// What an outboard is computed from for the first time has a zero hash, the tree that was asked for,
/// and no hash pairs.
pub proof fn law_sized<H: Hasher>(size: u64, block_size: BlockSize)
    ensures
        ({
            let a = PreOrderOutboard::<H>::sized(size, block_size);
            let b = PostOrderOutboard::<H>::sized(size, block_size);
            &&& a == b
            &&& a.tree.size == size && a.tree.block_size == block_size
            &&& a.data.len() == 0
            &&& forall|i: int| 0 <= i < 32 ==> a.root@[i] == 0
        }),
        empty_outboard().tree.size == 0,
        empty_outboard().tree.block_size.0 == 0,
        empty_outboard().data.len() == 0,
        forall|i: int| 0 <= i < 32 ==> empty_outboard().root@[i] == 0,
{
    law_pair_bytes(zero_hash(), zero_hash(), Seq::empty());
}

/// The hash pairs of a blob that are written one after the other come in post order: the 64 bytes at
/// `64 * k` are the hash of the data to the left of the node with the place `k`, and then that to
/// its right. The node covers `p` chunks to each side. There are no other bytes.
pub proof fn law_stream_of_blob<H: Hasher>(tree: BaoTree, blob: Seq<u8>, k: int, p: int)
    requires
        tree.wf(),
        blob.len() == tree.size,
    ensures
        ({
            let out = pairs_bytes(tree_pairs::<H>(blob, tree.group(), 0));
            let g = tree.group();
            &&& out.len() == 64 * tree.post_order_nodes().len()
            &&& 0 <= k < tree.post_order_nodes().len() ==> {
                let x = tree.post_order_nodes()[k];
                let end = if 1024 * (x + 1 + p) <= blob.len() {
                    1024 * (x + 1 + p)
                } else {
                    blob.len() as int
                };
                is_pow2(p) && (x + 1) % (2 * p) == p && p >= g ==> out.subrange(64 * k, 64 * k + 64)
                    == tree_hash::<H>(
                    blob.subrange(1024 * (x + 1 - p), 1024 * (x + 1)),
                    g,
                    x + 1 - p,
                    false,
                )@ + tree_hash::<H>(blob.subrange(1024 * (x + 1), end), g, x + 1, false)@
            }
        }),
{
    let st = OutboardState { root: zero_hash(), tree, data: Seq::empty() };
    let g = tree.group();
    let pairs = tree_pairs::<H>(blob, g, 0);
    let out = pairs_bytes(pairs);
    let nodes = tree.post_order_nodes();
    assert(blob.take(tree.size as int) =~= blob);
    law_post_order_is_sequential::<H>(st, blob);
    law_post_order_of_blob::<H>(st, blob);
    lemma_create_tree::<H, OutboardState>(
        outboard_saver::<PostOrderOutboard<H>>(),
        tree,
        blob,
        st,
    );
    lemma_pairs_len(pairs);
    lemma_tree_pairs_nodes::<H>(tree, blob);
    let after = PostOrderOutboard::<H>::initialized(st, blob).0;
    assert(after.data == out);
    if 0 <= k < nodes.len() {
        let x = nodes[k];
        lemma_group(tree.block_size);
        lemma_pre_order(g, 0, tree.total());
        lemma_post_order(g, 0, tree.total());
        assert(nodes.contains(x));
        assert(tree.pre_order_nodes().contains(x));
        let node = TreeNode(x as u64);
        law_post_order_load::<H>(after, node, k);
        if is_pow2(p) && (x + 1) % (2 * p) == p && p >= g {
            assert(outboard_loader::<PostOrderOutboard<H>>(after)(node)
                == PostOrderOutboard::<H>::load_from(after, node));
        }
    }
}

proof fn lemma_pairs_len(pairs: Seq<Parent>)
    ensures
        pairs_bytes(pairs).len() == 64 * pairs.len(),
    decreases pairs.len(),
{
    if pairs.len() > 0 {
        lemma_pair_of(pairs[0].pair.0, pairs[0].pair.1);
        lemma_pairs_len(pairs.skip(1));
    }
}

/// The bytes of a hash pair stand at its place.
proof fn lemma_pairs_at(pairs: Seq<Parent>, k: int)
    requires
        0 <= k < pairs.len(),
    ensures
        pairs_bytes(pairs).len() == 64 * pairs.len(),
        pairs_bytes(pairs).subrange(64 * k, 64 * k + 64) == pairs[k].pair.0@ + pairs[k].pair.1@,
    decreases pairs.len(),
{
    let rest = pairs.skip(1);
    let own = pair_bytes(pairs[0].pair.0, pairs[0].pair.1);
    lemma_pair_of(pairs[0].pair.0, pairs[0].pair.1);
    lemma_pairs_len(rest);
    if k == 0 {
        assert(pairs_bytes(pairs).subrange(0, 64) =~= own);
    } else {
        lemma_pairs_at(rest, k - 1);
        assert(rest[k - 1] == pairs[k]);
        assert(pairs_bytes(pairs).subrange(64 * k, 64 * k + 64) =~= pairs_bytes(rest).subrange(
            64 * (k - 1),
            64 * (k - 1) + 64,
        ));
    }
}

/// The hash pairs of a blob are, in post order, those of the nodes between chunk groups: the hashes
/// of the data to the left and to the right of the node, which covers `p` chunks to each side.
pub proof fn law_pairs_of_blob<H: Hasher>(tree: BaoTree, blob: Seq<u8>, k: int, p: int)
    requires
        tree.wf(),
        blob.len() == tree.size,
    ensures
        ({
            let pairs = tree_pairs::<H>(blob, tree.group(), 0);
            let g = tree.group();
            &&& pairs.len() == tree.post_order_nodes().len()
            &&& 0 <= k < pairs.len() ==> {
                let x = tree.post_order_nodes()[k];
                let end = if 1024 * (x + 1 + p) <= blob.len() {
                    1024 * (x + 1 + p)
                } else {
                    blob.len() as int
                };
                &&& pairs[k].node.0 == x
                &&& is_pow2(p) && (x + 1) % (2 * p) == p && p >= g ==> pairs[k].pair == (
                    tree_hash::<H>(
                        blob.subrange(1024 * (x + 1 - p), 1024 * (x + 1)),
                        g,
                        x + 1 - p,
                        false,
                    ),
                    tree_hash::<H>(blob.subrange(1024 * (x + 1), end), g, x + 1, false),
                )
            }
        }),
{
    let g = tree.group();
    let pairs = tree_pairs::<H>(blob, g, 0);
    lemma_tree_pairs_nodes::<H>(tree, blob);
    if 0 <= k < pairs.len() {
        law_stream_of_blob::<H>(tree, blob, k, p);
        lemma_pairs_at(pairs, k);
        let x = tree.post_order_nodes()[k];
        let end = if 1024 * (x + 1 + p) <= blob.len() {
            1024 * (x + 1 + p)
        } else {
            blob.len() as int
        };
        if is_pow2(p) && (x + 1) % (2 * p) == p && p >= g {
            let l = tree_hash::<H>(
                blob.subrange(1024 * (x + 1 - p), 1024 * (x + 1)),
                g,
                x + 1 - p,
                false,
            );
            let r = tree_hash::<H>(blob.subrange(1024 * (x + 1), end), g, x + 1, false);
            let own = pairs[k].pair;
            assert((own.0@ + own.1@).subrange(0, 32) =~= own.0@);
            assert((own.0@ + own.1@).subrange(32, 64) =~= own.1@);
            assert((l@ + r@).subrange(0, 32) =~= l@);
            assert((l@ + r@).subrange(32, 64) =~= r@);
            lemma_hash_of(l);
            lemma_hash_of(r);
            lemma_hash_of(own.0);
            lemma_hash_of(own.1);
        }
    }
}

/// Hash pairs are saved one after the other, up to the first failure: after those before the place
/// `k` were saved without one, the hash pair at `k` is saved, and if that fails nothing else is.
pub proof fn law_saved_in_turn<S>(save: SaveFn<S>, st: S, pairs: Seq<Parent>, k: int)
    requires
        0 <= k < pairs.len(),
        save_all(save, st, pairs.take(k)).1 is Ok,
    ensures
        save_all(save, st, pairs.take(0)) == (st, Ok::<(), IoError>(())),
        ({
            let before = save_all(save, st, pairs.take(k)).0;
            let (after, res) = save(before, pairs[k].node, pairs[k].pair);
            match res {
                Ok(_) => save_all(save, st, pairs.take(k + 1)) == (after, Ok::<(), IoError>(())),
                Err(e) => save_all(save, st, pairs) == (after, Err::<(), IoError>(e)),
            }
        }),
    decreases k,
{
    let own = seq![pairs[k]];
    assert(pairs.take(0) =~= Seq::empty());
    assert(pairs.take(k + 1) =~= pairs.take(k) + own);
    assert(pairs =~= pairs.take(k) + pairs.skip(k));
    let before = save_all(save, st, pairs.take(k)).0;
    lemma_save_all_concat(save, st, pairs.take(k), own);
    lemma_save_all_concat(save, st, pairs.take(k), pairs.skip(k));
    let (after, res) = save(before, pairs[k].node, pairs[k].pair);
    assert(own.skip(1) =~= Seq::empty());
    assert(save_all(save, after, Seq::empty()) == (after, Ok::<(), IoError>(())));
    assert(pairs.skip(k)[0] == pairs[k]);
}

/// Computing the outboard of a blob is saving its hash pairs, and gives its root hash unless a save
/// fails.
pub proof fn law_created<H: Hasher, S>(save: SaveFn<S>, tree: BaoTree, blob: Seq<u8>, st: S)
    ensures
        ({
            let (after, res) = created::<H, S>(save, tree, blob, st);
            let (after2, res2) = save_all(save, st, tree_pairs::<H>(blob, tree.group(), 0));
            &&& after == after2
            &&& res2 is Ok ==> res == Ok::<Digest, IoError>(
                tree_hash::<H>(blob, tree.group(), 0, true),
            )
            &&& res2 matches Err(e) ==> res == Err::<Digest, IoError>(e)
        }),
{
}

/// Initialising an outboard computes it and then sets its root hash, unless the computation fails.
pub proof fn law_initialized<H: Hasher>(
    save: SaveFn<OutboardState>,
    st: OutboardState,
    data: Seq<u8>,
)
    ensures
        ({
            let (after, res) = initialized_outboard::<H>(save, st, data);
            let (st1, root) = create_run::<H, OutboardState>(
                save,
                tree_post_steps(st.tree),
                Seq::empty(),
                data,
                st,
            );
            &&& after.tree == st1.tree && after.data == st1.data
            &&& root matches Ok(hash) ==> res is Ok && after.root == hash
            &&& root matches Err(e) ==> res == Err::<(), IoError>(e) && after.root == st1.root
        }),
{
}

} // verus!
