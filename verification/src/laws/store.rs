//! What outboards give back of what was saved to them.
use crate::content::Parent;
use crate::copy::{copy_run, outboard_loader, stored_loader, LoadFn};
use crate::create::{
    created, initialized_outboard, lemma_create_tree, outboard_saver, pairs_bytes, save_all,
    tree_pairs, SaveFn,
};
use crate::error::IoError;
use crate::geometry::{lemma_split_point, node_number, post_order, split_point};
use crate::hash::{
    chunk_count, lemma_halves, lemma_pair_of, left_half, pair_bytes, right_half, root_pair,
    tree_hash, Digest, Hasher,
};
use crate::outboard::{
    bytes_up_to, lemma_index_of, lemma_tracked, load_slot, pair_at, save_slot, slot_of, stored_slot, Outboard,
    OutboardMut, OutboardState, PostOrderOutboard, PreOrderOutboard,
};
use crate::tree::{lemma_group, BaoTree, TreeNode};
use vstd::prelude::*;

verus! {

/// The hash pair that was written to a place is the one that is there.
pub proof fn lemma_slot_same(data: Seq<u8>, k: int, pair: (Digest, Digest))
    requires
        0 <= k,
    ensures
        pair_at(save_slot(data, Some(k), pair), k) == pair,
{
    lemma_pair_of(pair.0, pair.1);
    let after = save_slot(data, Some(k), pair);
    assert(bytes_up_to(after, 64 * k, 64) =~= pair_bytes(pair.0, pair.1));
}

/// Writing to a place leaves the other places as they are, unless one of them is cut off by the
/// end of the data.
pub proof fn lemma_slot_other(data: Seq<u8>, k: int, j: int, pair: (Digest, Digest))
    requires
        0 <= k,
        0 <= j,
        j != k,
        64 * (j + 1) <= data.len() || data.len() <= 64 * j,
    ensures
        pair_at(save_slot(data, Some(k), pair), j) == pair_at(data, j),
{
    lemma_pair_of(pair.0, pair.1);
    let after = save_slot(data, Some(k), pair);
    if 64 * (j + 1) <= data.len() {
        assert(bytes_up_to(after, 64 * j, 64) =~= bytes_up_to(data, 64 * j, 64));
    } else {
        let content = bytes_up_to(after, 64 * j, 64);
        assert(bytes_up_to(data, 64 * j, 64).len() == 0);
        if content.len() == 64 {
            assert(content.subrange(0, 32) =~= Seq::new(32, |i: int| 0u8));
            assert(content.subrange(32, 64) =~= Seq::new(32, |i: int| 0u8));
        }
    }
}

/// The places of two tracked nodes differ.
pub proof fn lemma_slots_differ(nodes: Seq<int>, a: TreeNode, b: TreeNode)
    requires
        slot_of(nodes, a) is Some,
        slot_of(nodes, b) is Some,
        a != b,
    ensures
        slot_of(nodes, a) != slot_of(nodes, b),
        0 <= slot_of(nodes, a)->0 < nodes.len(),
{
    let i = nodes.index_of(a.0 as int);
    let j = nodes.index_of(b.0 as int);
    assert(nodes[i] == a.0);
    assert(nodes[j] == b.0);
}

/// A pre order outboard gives back the hash pair that was saved for a node that it tracks, and
/// saving for a node that it does not track changes nothing.
pub proof fn law_pre_order_load_after_save<H: Hasher>(
    st: OutboardState,
    node: TreeNode,
    pair: (Digest, Digest),
)
    ensures
        ({
            let (after, res) = PreOrderOutboard::<H>::saved(st, node, pair);
            &&& res is Ok
            &&& st.tree.pre_order_nodes().contains(node.0 as int)
                ==> PreOrderOutboard::<H>::load_from(after, node) == Ok::<
                Option<(Digest, Digest)>,
                IoError,
            >(Some(pair)) && PreOrderOutboard::<H>::stored_in(after, node)
            &&& !st.tree.pre_order_nodes().contains(node.0 as int) ==> after.data == st.data
                && PreOrderOutboard::<H>::load_from(after, node) == Ok::<
                Option<(Digest, Digest)>,
                IoError,
            >(None)
            &&& after.root == st.root && after.tree == st.tree
        }),
{
    let nodes = st.tree.pre_order_nodes();
    if nodes.contains(node.0 as int) {
        let k = nodes.index_of(node.0 as int);
        assert(0 <= k < nodes.len());
        lemma_slot_same(st.data, k, pair);
    }
}

/// A post order outboard gives back the hash pair that was saved for a node that it tracks, and
/// saving for a node that it does not track changes nothing.
pub proof fn law_post_order_load_after_save<H: Hasher>(
    st: OutboardState,
    node: TreeNode,
    pair: (Digest, Digest),
)
    ensures
        ({
            let (after, res) = PostOrderOutboard::<H>::saved(st, node, pair);
            &&& res is Ok
            &&& st.tree.post_order_nodes().contains(node.0 as int)
                ==> PostOrderOutboard::<H>::load_from(after, node) == Ok::<
                Option<(Digest, Digest)>,
                IoError,
            >(Some(pair)) && PostOrderOutboard::<H>::stored_in(after, node)
            &&& !st.tree.post_order_nodes().contains(node.0 as int) ==> after.data == st.data
                && PostOrderOutboard::<H>::load_from(after, node) == Ok::<
                Option<(Digest, Digest)>,
                IoError,
            >(None)
            &&& after.root == st.root && after.tree == st.tree
        }),
{
    let nodes = st.tree.post_order_nodes();
    if nodes.contains(node.0 as int) {
        let k = nodes.index_of(node.0 as int);
        assert(0 <= k < nodes.len());
        lemma_slot_same(st.data, k, pair);
    }
}

/// Saving a hash pair to a pre order outboard leaves the hash pairs of the other nodes as they
/// are, where the outboard holds whole pairs.
pub proof fn law_pre_order_save_keeps_others<H: Hasher>(
    st: OutboardState,
    node: TreeNode,
    pair: (Digest, Digest),
    other: TreeNode,
)
    requires
        other != node,
        st.data.len() % 64 == 0,
    ensures
        PreOrderOutboard::<H>::load_from(PreOrderOutboard::<H>::saved(st, node, pair).0, other)
            == PreOrderOutboard::<H>::load_from(st, other),
        PreOrderOutboard::<H>::saved(st, node, pair).0.data.len() % 64 == 0,
{
    let nodes = st.tree.pre_order_nodes();
    lemma_save_keeps(st.data, nodes, node, pair, other);
}

/// Saving a hash pair to a post order outboard leaves the hash pairs of the other nodes as they
/// are, where the outboard holds whole pairs.
pub proof fn law_post_order_save_keeps_others<H: Hasher>(
    st: OutboardState,
    node: TreeNode,
    pair: (Digest, Digest),
    other: TreeNode,
)
    requires
        other != node,
        st.data.len() % 64 == 0,
    ensures
        PostOrderOutboard::<H>::load_from(PostOrderOutboard::<H>::saved(st, node, pair).0, other)
            == PostOrderOutboard::<H>::load_from(st, other),
        PostOrderOutboard::<H>::saved(st, node, pair).0.data.len() % 64 == 0,
{
    let nodes = st.tree.post_order_nodes();
    lemma_save_keeps(st.data, nodes, node, pair, other);
}

proof fn lemma_save_keeps(
    data: Seq<u8>,
    nodes: Seq<int>,
    node: TreeNode,
    pair: (Digest, Digest),
    other: TreeNode,
)
    requires
        other != node,
        data.len() % 64 == 0,
    ensures
        load_slot(save_slot(data, slot_of(nodes, node), pair), slot_of(nodes, other)) == load_slot(
            data,
            slot_of(nodes, other),
        ),
        save_slot(data, slot_of(nodes, node), pair).len() % 64 == 0,
{
    lemma_pair_of(pair.0, pair.1);
    if slot_of(nodes, node) is Some {
        if slot_of(nodes, other) is Some {
            lemma_slots_differ(nodes, node, other);
            lemma_slots_differ(nodes, other, node);
            lemma_slot_other(data, slot_of(nodes, node)->0, slot_of(nodes, other)->0, pair);
        } else {
            assert(0 <= nodes.index_of(node.0 as int) < nodes.len());
        }
    }
}

/// The data of an outboard in memory after hash pairs were saved one after the other.
pub open spec fn save_slots(data: Seq<u8>, nodes: Seq<int>, pairs: Seq<Parent>) -> Seq<u8>
    decreases pairs.len(),
{
    if pairs.len() == 0 {
        data
    } else {
        save_slots(
            save_slot(data, slot_of(nodes, pairs[0].node), pairs[0].pair),
            nodes,
            pairs.skip(1),
        )
    }
}

/// Saving to an outboard in memory does not fail, and only changes its data.
proof fn lemma_save_all_pre<H: Hasher>(st: OutboardState, pairs: Seq<Parent>)
    ensures
        save_all(outboard_saver::<PreOrderOutboard<H>>(), st, pairs) == (
            OutboardState {
                root: st.root,
                tree: st.tree,
                data: save_slots(st.data, st.tree.pre_order_nodes(), pairs),
            },
            Ok::<(), IoError>(()),
        ),
    decreases pairs.len(),
{
    if pairs.len() > 0 {
        let st1 = PreOrderOutboard::<H>::saved(st, pairs[0].node, pairs[0].pair).0;
        lemma_save_all_pre::<H>(st1, pairs.skip(1));
    }
}

proof fn lemma_save_all_post<H: Hasher>(st: OutboardState, pairs: Seq<Parent>)
    ensures
        save_all(outboard_saver::<PostOrderOutboard<H>>(), st, pairs) == (
            OutboardState {
                root: st.root,
                tree: st.tree,
                data: save_slots(st.data, st.tree.post_order_nodes(), pairs),
            },
            Ok::<(), IoError>(()),
        ),
    decreases pairs.len(),
{
    if pairs.len() > 0 {
        let st1 = PostOrderOutboard::<H>::saved(st, pairs[0].node, pairs[0].pair).0;
        lemma_save_all_post::<H>(st1, pairs.skip(1));
    }
}

/// No two of the hash pairs are for the same node.
pub open spec fn distinct_nodes(pairs: Seq<Parent>) -> bool {
    forall|i: int, j: int| 0 <= i < j < pairs.len() ==> pairs[i].node != pairs[j].node
}

/// Each saved hash pair is there in the end, and a place that is whole and gets no pair keeps what
/// it has.
pub proof fn lemma_save_slots(data: Seq<u8>, nodes: Seq<int>, pairs: Seq<Parent>)
    requires
        distinct_nodes(pairs),
    ensures
        save_slots(data, nodes, pairs).len() >= data.len(),
        forall|i: int|
            0 <= i < pairs.len() && slot_of(nodes, (#[trigger] pairs[i]).node) is Some
                ==> stored_slot(save_slots(data, nodes, pairs), slot_of(nodes, pairs[i].node)),
        forall|i: int|
            0 <= i < pairs.len() && slot_of(nodes, (#[trigger] pairs[i]).node) is Some ==> pair_at(
                save_slots(data, nodes, pairs),
                slot_of(nodes, pairs[i].node)->0,
            ) == pairs[i].pair,
        forall|node: TreeNode|
            (#[trigger] slot_of(nodes, node)) is Some && 64 * (slot_of(nodes, node)->0 + 1)
                <= data.len() && (forall|i: int| 0 <= i < pairs.len() ==> pairs[i].node != node)
                ==> pair_at(save_slots(data, nodes, pairs), slot_of(nodes, node)->0) == pair_at(
                data,
                slot_of(nodes, node)->0,
            ),
    decreases pairs.len(),
{
    if pairs.len() > 0 {
        let first = pairs[0];
        let rest = pairs.skip(1);
        let slot = slot_of(nodes, first.node);
        let data1 = save_slot(data, slot, first.pair);
        lemma_pair_of(first.pair.0, first.pair.1);
        assert(forall|i: int| 0 <= i < rest.len() ==> rest[i] == pairs[i + 1]);
        lemma_save_slots(data1, nodes, rest);
        let end = save_slots(data1, nodes, rest);
        assert forall|i: int|
            0 <= i < pairs.len() && slot_of(nodes, (#[trigger] pairs[i]).node)
                is Some implies stored_slot(end, slot_of(nodes, pairs[i].node)) by {
            if i > 0 {
                assert(rest[i - 1] == pairs[i]);
            }
        }
        assert forall|i: int|
            0 <= i < pairs.len() && slot_of(nodes, (#[trigger] pairs[i]).node) is Some implies pair_at(
            end,
            slot_of(nodes, pairs[i].node)->0,
        ) == pairs[i].pair by {
            if i > 0 {
                assert(rest[i - 1] == pairs[i]);
            } else {
                let k = slot->0;
                assert(0 <= nodes.index_of(first.node.0 as int) < nodes.len());
                lemma_slot_same(data, k, first.pair);
                assert(64 * (k + 1) <= data1.len());
                assert(slot_of(nodes, first.node) is Some);
            }
        }
        assert forall|node: TreeNode|
            (#[trigger] slot_of(nodes, node)) is Some && 64 * (slot_of(nodes, node)->0 + 1)
                <= data.len() && (forall|i: int| 0 <= i < pairs.len() ==> pairs[i].node
                != node) implies pair_at(end, slot_of(nodes, node)->0) == pair_at(
            data,
            slot_of(nodes, node)->0,
        ) by {
            assert(pairs[0].node != node);
            if slot is Some {
                lemma_slots_differ(nodes, first.node, node);
                lemma_slots_differ(nodes, node, first.node);
                lemma_slot_other(data, slot->0, slot_of(nodes, node)->0, first.pair);
            }
        }
    }
}

/// Loading gives the hash pairs of the tree over `bytes`, whose first chunk has the number `s`.
pub open spec fn holds_pairs<H: Hasher>(load: LoadFn, bytes: Seq<u8>, g: int, s: int) -> bool
    decreases bytes.len(),
{
    let m = chunk_count(bytes);
    if m <= g || m <= 1 {
        true
    } else {
        proof {
            lemma_halves(bytes);
        }
        &&& load(TreeNode(node_number(s, m) as u64)) == Ok::<Option<(Digest, Digest)>, IoError>(
            Some(root_pair::<H>(bytes, g, s)),
        )
        &&& holds_pairs::<H>(load, left_half(bytes), g, s)
        &&& holds_pairs::<H>(load, right_half(bytes), g, s + split_point(m))
    }
}

/// The hash pairs of a tree are for the nodes that an outboard tracks, in post order.
proof fn lemma_pair_nodes<H: Hasher>(bytes: Seq<u8>, g: int, s: int)
    requires
        1 <= g,
        0 <= s,
        s + chunk_count(bytes) <= u64::MAX,
    ensures
        tree_pairs::<H>(bytes, g, s).len() == post_order(g, s, chunk_count(bytes)).len(),
        forall|i: int|
            0 <= i < tree_pairs::<H>(bytes, g, s).len() ==> (#[trigger] tree_pairs::<H>(
                bytes,
                g,
                s,
            )[i]).node.0 == post_order(g, s, chunk_count(bytes))[i],
    decreases bytes.len(),
{
    let m = chunk_count(bytes);
    if m > g && m > 1 {
        lemma_halves(bytes);
        lemma_split_point(m);
        let p = split_point(m);
        lemma_pair_nodes::<H>(left_half(bytes), g, s);
        lemma_pair_nodes::<H>(right_half(bytes), g, s + p);
        let a = tree_pairs::<H>(left_half(bytes), g, s);
        let b = tree_pairs::<H>(right_half(bytes), g, s + p);
        let all = tree_pairs::<H>(bytes, g, s);
        assert forall|i: int| 0 <= i < all.len() implies (#[trigger] all[i]).node.0 == post_order(
            g,
            s,
            m,
        )[i] by {
            if i < a.len() {
                assert(all[i] == a[i]);
            } else if i < a.len() + b.len() {
                assert(all[i] == b[i - a.len()]);
            }
        }
    }
}

/// Where each hash pair of a tree is loaded, the tree's hash pairs are.
proof fn lemma_holds_pairs<H: Hasher>(load: LoadFn, bytes: Seq<u8>, g: int, s: int)
    requires
        forall|i: int|
            0 <= i < tree_pairs::<H>(bytes, g, s).len() ==> load(
                (#[trigger] tree_pairs::<H>(bytes, g, s)[i]).node,
            ) == Ok::<Option<(Digest, Digest)>, IoError>(Some(tree_pairs::<H>(bytes, g, s)[i].pair)),
    ensures
        holds_pairs::<H>(load, bytes, g, s),
    decreases bytes.len(),
{
    let m = chunk_count(bytes);
    if m > g && m > 1 {
        lemma_halves(bytes);
        let a = tree_pairs::<H>(left_half(bytes), g, s);
        let b = tree_pairs::<H>(right_half(bytes), g, s + split_point(m));
        let all = tree_pairs::<H>(bytes, g, s);
        assert(forall|i: int| 0 <= i < a.len() ==> a[i] == all[i]);
        assert(forall|i: int| 0 <= i < b.len() ==> b[i] == all[a.len() + i]);
        lemma_holds_pairs::<H>(load, left_half(bytes), g, s);
        lemma_holds_pairs::<H>(load, right_half(bytes), g, s + split_point(m));
        let own = all[all.len() - 1];
        assert(own.node == TreeNode(node_number(s, m) as u64));
    }
}

/// The nodes of a tree's hash pairs are distinct and tracked.
pub proof fn lemma_tree_pairs_nodes<H: Hasher>(tree: BaoTree, blob: Seq<u8>)
    requires
        tree.wf(),
        blob.len() == tree.size,
    ensures
        ({
            let pairs = tree_pairs::<H>(blob, tree.group(), 0);
            &&& distinct_nodes(pairs)
            &&& pairs.len() == tree.post_order_nodes().len()
            &&& forall|i: int|
                0 <= i < pairs.len() ==> {
                    &&& (#[trigger] pairs[i]).node.0 == tree.post_order_nodes()[i]
                    &&& slot_of(tree.post_order_nodes(), pairs[i].node) == Some(i)
                    &&& slot_of(tree.pre_order_nodes(), pairs[i].node) is Some
                }
        }),
{
    lemma_tracked(tree);
    lemma_group(tree.block_size);
    lemma_pair_nodes::<H>(blob, tree.group(), 0);
    let pairs = tree_pairs::<H>(blob, tree.group(), 0);
    let nodes = tree.post_order_nodes();
    assert forall|i: int| 0 <= i < pairs.len() implies {
        &&& (#[trigger] pairs[i]).node.0 == nodes[i]
        &&& slot_of(nodes, pairs[i].node) == Some(i)
        &&& slot_of(tree.pre_order_nodes(), pairs[i].node) is Some
    } by {
        lemma_index_of(nodes, i);
        assert(nodes.contains(nodes[i]));
    }
    assert forall|i: int, j: int| 0 <= i < j < pairs.len() implies pairs[i].node
        != pairs[j].node by {
        assert(nodes[i] != nodes[j]);
    }
}

/// A pre order outboard that is initialised from a blob has the blob's root hash and its hash
/// pairs, whatever it held before.
pub proof fn law_pre_order_initialized<H: Hasher>(st: OutboardState, data: Seq<u8>)
    requires
        st.tree.wf(),
        st.tree.size <= data.len(),
    ensures
        ({
            let blob = data.take(st.tree.size as int);
            let g = st.tree.group();
            let (after, res) = initialized_outboard::<H>(
                outboard_saver::<PreOrderOutboard<H>>(),
                st,
                data,
            );
            &&& res is Ok
            &&& after.root == tree_hash::<H>(blob, g, 0, true)
            &&& after.tree == st.tree
            &&& holds_pairs::<H>(outboard_loader::<PreOrderOutboard<H>>(after), blob, g, 0)
            &&& holds_pairs::<H>(stored_loader::<PreOrderOutboard<H>>(after), blob, g, 0)
        }),
{
    let blob = data.take(st.tree.size as int);
    let g = st.tree.group();
    let pairs = tree_pairs::<H>(blob, g, 0);
    let nodes = st.tree.pre_order_nodes();
    lemma_save_all_pre::<H>(st, pairs);
    lemma_tree_pairs_nodes::<H>(st.tree, blob);
    lemma_save_slots(st.data, nodes, pairs);
    lemma_create_tree::<H, OutboardState>(
        outboard_saver::<PreOrderOutboard<H>>(),
        st.tree,
        data,
        st,
    );
    let after = initialized_outboard::<H>(outboard_saver::<PreOrderOutboard<H>>(), st, data).0;
    lemma_holds_pairs::<H>(outboard_loader::<PreOrderOutboard<H>>(after), blob, g, 0);
    lemma_holds_pairs::<H>(stored_loader::<PreOrderOutboard<H>>(after), blob, g, 0);
}

/// A post order outboard that is initialised from a blob has the blob's root hash and its hash
/// pairs, whatever it held before.
pub proof fn law_post_order_initialized<H: Hasher>(st: OutboardState, data: Seq<u8>)
    requires
        st.tree.wf(),
        st.tree.size <= data.len(),
    ensures
        ({
            let blob = data.take(st.tree.size as int);
            let g = st.tree.group();
            let (after, res) = initialized_outboard::<H>(
                outboard_saver::<PostOrderOutboard<H>>(),
                st,
                data,
            );
            &&& res is Ok
            &&& after.root == tree_hash::<H>(blob, g, 0, true)
            &&& after.tree == st.tree
            &&& holds_pairs::<H>(outboard_loader::<PostOrderOutboard<H>>(after), blob, g, 0)
            &&& holds_pairs::<H>(stored_loader::<PostOrderOutboard<H>>(after), blob, g, 0)
        }),
{
    let blob = data.take(st.tree.size as int);
    let g = st.tree.group();
    let pairs = tree_pairs::<H>(blob, g, 0);
    let nodes = st.tree.post_order_nodes();
    lemma_save_all_post::<H>(st, pairs);
    lemma_tree_pairs_nodes::<H>(st.tree, blob);
    lemma_save_slots(st.data, nodes, pairs);
    lemma_create_tree::<H, OutboardState>(
        outboard_saver::<PostOrderOutboard<H>>(),
        st.tree,
        data,
        st,
    );
    let after = initialized_outboard::<H>(outboard_saver::<PostOrderOutboard<H>>(), st, data).0;
    lemma_holds_pairs::<H>(outboard_loader::<PostOrderOutboard<H>>(after), blob, g, 0);
    lemma_holds_pairs::<H>(stored_loader::<PostOrderOutboard<H>>(after), blob, g, 0);
}

/// Saving hash pairs in post order to an empty post order outboard is sequential: each one comes
/// right after those before. So the outboard holds what `outboard_post_order` writes.
pub proof fn law_post_order_is_sequential<H: Hasher>(st: OutboardState, blob: Seq<u8>)
    requires
        st.tree.wf(),
        blob.len() == st.tree.size,
        st.data.len() == 0,
    ensures
        created::<H, OutboardState>(
            outboard_saver::<PostOrderOutboard<H>>(),
            st.tree,
            blob,
            st,
        ).0.data == pairs_bytes(tree_pairs::<H>(blob, st.tree.group(), 0)),
{
    let pairs = tree_pairs::<H>(blob, st.tree.group(), 0);
    lemma_save_all_post::<H>(st, pairs);
    lemma_tree_pairs_nodes::<H>(st.tree, blob);
    assert(pairs.skip(0) =~= pairs);
    lemma_sequential(st.data, st.tree.post_order_nodes(), pairs, 0);
    assert(st.data + pairs_bytes(pairs) =~= pairs_bytes(pairs));
}

proof fn lemma_sequential(data: Seq<u8>, nodes: Seq<int>, pairs: Seq<Parent>, k: int)
    requires
        0 <= k <= pairs.len(),
        data.len() == 64 * k,
        forall|i: int|
            0 <= i < pairs.len() ==> slot_of(nodes, (#[trigger] pairs[i]).node) == Some(i),
    ensures
        save_slots(data, nodes, pairs.skip(k)) == data + pairs_bytes(pairs.skip(k)),
    decreases pairs.len() - k,
{
    if k < pairs.len() {
        let rest = pairs.skip(k);
        let own = pair_bytes(pairs[k].pair.0, pairs[k].pair.1);
        lemma_pair_of(pairs[k].pair.0, pairs[k].pair.1);
        assert(rest[0] == pairs[k]);
        assert(rest.skip(1) =~= pairs.skip(k + 1));
        let data1 = save_slot(data, Some(k), pairs[k].pair);
        assert(data1 =~= data + own);
        lemma_sequential(data1, nodes, pairs, k + 1);
        assert(data1 + pairs_bytes(pairs.skip(k + 1)) =~= data + pairs_bytes(rest));
    } else {
        assert(pairs.skip(k) =~= Seq::empty());
        assert(data + pairs_bytes(pairs.skip(k)) =~= data);
    }
}

/// The hash pairs that a copy saves.
pub open spec fn copied_pairs(load: LoadFn, nodes: Seq<int>) -> Seq<Parent>
    decreases nodes.len(),
{
    if nodes.len() == 0 {
        Seq::empty()
    } else {
        let node = TreeNode(nodes[0] as u64);
        let rest = copied_pairs(load, nodes.skip(1));
        match load(node) {
            Ok(Some(pair)) => seq![Parent { node, pair }] + rest,
            _ => rest,
        }
    }
}

/// Where no load fails, a copy saves what was loaded.
proof fn lemma_copy<S>(load: LoadFn, save: SaveFn<S>, nodes: Seq<int>, st: S)
    requires
        forall|i: int| 0 <= i < nodes.len() ==> load(TreeNode(#[trigger] nodes[i] as u64)) is Ok,
    ensures
        copy_run(load, save, nodes, st) == save_all(save, st, copied_pairs(load, nodes)),
    decreases nodes.len(),
{
    if nodes.len() > 0 {
        let node = TreeNode(nodes[0] as u64);
        let rest = nodes.skip(1);
        assert(forall|i: int| 0 <= i < rest.len() ==> rest[i] == nodes[i + 1]);
        assert(load(TreeNode(nodes[0] as u64)) is Ok);
        match load(node) {
            Ok(Some(pair)) => {
                let (st1, res) = save(st, node, pair);
                let pairs = copied_pairs(load, nodes);
                assert(pairs.skip(1) =~= copied_pairs(load, rest));
                if res is Ok {
                    lemma_copy(load, save, rest, st1);
                }
            },
            _ => {
                lemma_copy(load, save, rest, st);
            },
        }
    }
}

/// Where every node has a hash pair, a copy saves one for each, in the order of the nodes.
proof fn lemma_copied(load: LoadFn, nodes: Seq<int>)
    requires
        forall|i: int|
            0 <= i < nodes.len() ==> load(TreeNode(#[trigger] nodes[i] as u64)) matches Ok(Some(_)),
    ensures
        copied_pairs(load, nodes).len() == nodes.len(),
        forall|i: int|
            0 <= i < nodes.len() ==> (#[trigger] copied_pairs(load, nodes)[i]).node == TreeNode(
                nodes[i] as u64,
            ) && load(TreeNode(nodes[i] as u64)) == Ok::<Option<(Digest, Digest)>, IoError>(
                Some(copied_pairs(load, nodes)[i].pair),
            ),
    decreases nodes.len(),
{
    if nodes.len() > 0 {
        let rest = nodes.skip(1);
        assert(forall|i: int| 0 <= i < rest.len() ==> rest[i] == nodes[i + 1]);
        lemma_copied(load, rest);
        assert(load(TreeNode(nodes[0] as u64)) matches Ok(Some(_)));
        let all = copied_pairs(load, nodes);
        let tail = copied_pairs(load, rest);
        assert forall|i: int| 0 <= i < nodes.len() implies (#[trigger] all[i]).node == TreeNode(
            nodes[i] as u64,
        ) && load(TreeNode(nodes[i] as u64)) == Ok::<Option<(Digest, Digest)>, IoError>(
            Some(all[i].pair),
        ) by {
            if i > 0 {
                assert(all[i] == tail[i - 1]);
                assert(rest[i - 1] == nodes[i]);
            }
        }
    }
}

/// After a copy to an outboard in memory, each node has there what was loaded for it.
proof fn lemma_copied_slots(load: LoadFn, nodes: Seq<int>, slots: Seq<int>, data: Seq<u8>)
    requires
        nodes.no_duplicates(),
        forall|i: int| 0 <= i < nodes.len() ==> 0 <= #[trigger] nodes[i] <= u64::MAX,
        forall|n: int| #[trigger] slots.contains(n) <==> nodes.contains(n),
        forall|i: int|
            0 <= i < nodes.len() ==> load(TreeNode(#[trigger] nodes[i] as u64)) matches Ok(Some(_)),
        forall|node: TreeNode|
            !nodes.contains(node.0 as int) ==> #[trigger] load(node) == Ok::<
                Option<(Digest, Digest)>,
                IoError,
            >(None),
    ensures
        forall|node: TreeNode| #[trigger]
            load(node) == load_slot(
                save_slots(data, slots, copied_pairs(load, nodes)),
                slot_of(slots, node),
            ),
{
    lemma_copied(load, nodes);
    let pairs = copied_pairs(load, nodes);
    assert forall|i: int, j: int| 0 <= i < j < pairs.len() implies pairs[i].node
        != pairs[j].node by {
        assert(nodes[i] != nodes[j]);
    }
    lemma_save_slots(data, slots, pairs);
    let after = save_slots(data, slots, pairs);
    assert forall|node: TreeNode| #[trigger]
        load(node) == load_slot(after, slot_of(slots, node)) by {
        if nodes.contains(node.0 as int) {
            let i = nodes.index_of(node.0 as int);
            assert(nodes[i] == node.0);
            assert(pairs[i].node == node);
            assert(slots.contains(node.0 as int));
        } else {
            assert(!slots.contains(node.0 as int));
        }
    }
}

/// Copying a pre order outboard to another pre order outboard for the same tree succeeds, and then
/// both give the same hash pair for every node.
pub proof fn law_copy_pre_to_pre<H: Hasher>(from: OutboardState, to: OutboardState)
    requires
        from.tree.wf(),
        to.tree == from.tree,
    ensures
        ({
            let (after, res) = copy_run(
                outboard_loader::<PreOrderOutboard<H>>(from),
                outboard_saver::<PreOrderOutboard<H>>(),
                from.tree.pre_order_nodes(),
                to,
            );
            &&& res is Ok
            &&& after.tree == to.tree && after.root == to.root
            &&& forall|node: TreeNode| #[trigger]
                PreOrderOutboard::<H>::load_from(after, node)
                    == PreOrderOutboard::<H>::load_from(from, node)
        }),
{
    let load = outboard_loader::<PreOrderOutboard<H>>(from);
    let save = outboard_saver::<PreOrderOutboard<H>>();
    let nodes = from.tree.pre_order_nodes();
    let slots = from.tree.pre_order_nodes();
    lemma_tracked(from.tree);
    lemma_node_range(from.tree);
    lemma_loadable::<H>(from);
    assert forall|node: TreeNode| !nodes.contains(node.0 as int) implies #[trigger] load(node)
        == Ok::<Option<(Digest, Digest)>, IoError>(None) by {
        assert(!from.tree.post_order_nodes().contains(node.0 as int));
    }
    lemma_copy(load, save, nodes, to);
    lemma_save_all_pre::<H>(to, copied_pairs(load, nodes));
    lemma_copied_slots(load, nodes, slots, to.data);
    let after = copy_run(load, save, nodes, to).0;
    assert forall|node: TreeNode| #[trigger]
        PreOrderOutboard::<H>::load_from(after, node)
            == PreOrderOutboard::<H>::load_from(from, node) by {
        assert(load(node) == PreOrderOutboard::<H>::load_from(from, node));
    }
}

/// Copying a pre order outboard to a post order outboard for the same tree succeeds, and then
/// both give the same hash pair for every node.
pub proof fn law_copy_pre_to_post<H: Hasher>(from: OutboardState, to: OutboardState)
    requires
        from.tree.wf(),
        to.tree == from.tree,
    ensures
        ({
            let (after, res) = copy_run(
                outboard_loader::<PreOrderOutboard<H>>(from),
                outboard_saver::<PostOrderOutboard<H>>(),
                from.tree.pre_order_nodes(),
                to,
            );
            &&& res is Ok
            &&& after.tree == to.tree && after.root == to.root
            &&& forall|node: TreeNode| #[trigger]
                PostOrderOutboard::<H>::load_from(after, node)
                    == PreOrderOutboard::<H>::load_from(from, node)
        }),
{
    let load = outboard_loader::<PreOrderOutboard<H>>(from);
    let save = outboard_saver::<PostOrderOutboard<H>>();
    let nodes = from.tree.pre_order_nodes();
    let slots = from.tree.post_order_nodes();
    lemma_tracked(from.tree);
    lemma_node_range(from.tree);
    lemma_loadable::<H>(from);
    assert forall|node: TreeNode| !nodes.contains(node.0 as int) implies #[trigger] load(node)
        == Ok::<Option<(Digest, Digest)>, IoError>(None) by {
        assert(!from.tree.post_order_nodes().contains(node.0 as int));
    }
    lemma_copy(load, save, nodes, to);
    lemma_save_all_post::<H>(to, copied_pairs(load, nodes));
    lemma_copied_slots(load, nodes, slots, to.data);
    let after = copy_run(load, save, nodes, to).0;
    assert forall|node: TreeNode| #[trigger]
        PostOrderOutboard::<H>::load_from(after, node)
            == PreOrderOutboard::<H>::load_from(from, node) by {
        assert(load(node) == PreOrderOutboard::<H>::load_from(from, node));
    }
}

/// Copying a post order outboard to a pre order outboard for the same tree succeeds, and then
/// both give the same hash pair for every node.
pub proof fn law_copy_post_to_pre<H: Hasher>(from: OutboardState, to: OutboardState)
    requires
        from.tree.wf(),
        to.tree == from.tree,
    ensures
        ({
            let (after, res) = copy_run(
                outboard_loader::<PostOrderOutboard<H>>(from),
                outboard_saver::<PreOrderOutboard<H>>(),
                from.tree.pre_order_nodes(),
                to,
            );
            &&& res is Ok
            &&& after.tree == to.tree && after.root == to.root
            &&& forall|node: TreeNode| #[trigger]
                PreOrderOutboard::<H>::load_from(after, node)
                    == PostOrderOutboard::<H>::load_from(from, node)
        }),
{
    let load = outboard_loader::<PostOrderOutboard<H>>(from);
    let save = outboard_saver::<PreOrderOutboard<H>>();
    let nodes = from.tree.pre_order_nodes();
    let slots = from.tree.pre_order_nodes();
    lemma_tracked(from.tree);
    lemma_node_range(from.tree);
    lemma_loadable::<H>(from);
    assert forall|node: TreeNode| !nodes.contains(node.0 as int) implies #[trigger] load(node)
        == Ok::<Option<(Digest, Digest)>, IoError>(None) by {
        assert(!from.tree.post_order_nodes().contains(node.0 as int));
    }
    lemma_copy(load, save, nodes, to);
    lemma_save_all_pre::<H>(to, copied_pairs(load, nodes));
    lemma_copied_slots(load, nodes, slots, to.data);
    let after = copy_run(load, save, nodes, to).0;
    assert forall|node: TreeNode| #[trigger]
        PreOrderOutboard::<H>::load_from(after, node)
            == PostOrderOutboard::<H>::load_from(from, node) by {
        assert(load(node) == PostOrderOutboard::<H>::load_from(from, node));
    }
}

/// Copying a post order outboard to another post order outboard for the same tree succeeds, and then
/// both give the same hash pair for every node.
pub proof fn law_copy_post_to_post<H: Hasher>(from: OutboardState, to: OutboardState)
    requires
        from.tree.wf(),
        to.tree == from.tree,
    ensures
        ({
            let (after, res) = copy_run(
                outboard_loader::<PostOrderOutboard<H>>(from),
                outboard_saver::<PostOrderOutboard<H>>(),
                from.tree.pre_order_nodes(),
                to,
            );
            &&& res is Ok
            &&& after.tree == to.tree && after.root == to.root
            &&& forall|node: TreeNode| #[trigger]
                PostOrderOutboard::<H>::load_from(after, node)
                    == PostOrderOutboard::<H>::load_from(from, node)
        }),
{
    let load = outboard_loader::<PostOrderOutboard<H>>(from);
    let save = outboard_saver::<PostOrderOutboard<H>>();
    let nodes = from.tree.pre_order_nodes();
    let slots = from.tree.post_order_nodes();
    lemma_tracked(from.tree);
    lemma_node_range(from.tree);
    lemma_loadable::<H>(from);
    assert forall|node: TreeNode| !nodes.contains(node.0 as int) implies #[trigger] load(node)
        == Ok::<Option<(Digest, Digest)>, IoError>(None) by {
        assert(!from.tree.post_order_nodes().contains(node.0 as int));
    }
    lemma_copy(load, save, nodes, to);
    lemma_save_all_post::<H>(to, copied_pairs(load, nodes));
    lemma_copied_slots(load, nodes, slots, to.data);
    let after = copy_run(load, save, nodes, to).0;
    assert forall|node: TreeNode| #[trigger]
        PostOrderOutboard::<H>::load_from(after, node)
            == PostOrderOutboard::<H>::load_from(from, node) by {
        assert(load(node) == PostOrderOutboard::<H>::load_from(from, node));
    }
}

/// The numbers of tracked nodes fit into 64 bits.
pub proof fn lemma_node_range(tree: BaoTree)
    requires
        tree.wf(),
    ensures
        forall|i: int|
            0 <= i < tree.pre_order_nodes().len() ==> 0 <= #[trigger] tree.pre_order_nodes()[i]
                <= u64::MAX,
{
    lemma_group(tree.block_size);
    crate::geometry::lemma_pre_order(tree.group(), 0, tree.total());
    let nodes = tree.pre_order_nodes();
    assert forall|i: int| 0 <= i < nodes.len() implies 0 <= #[trigger] nodes[i] <= u64::MAX by {
        assert(nodes.contains(nodes[i]));
    }
}

/// An outboard in memory has a hash pair for every node that it tracks.
proof fn lemma_loadable<H: Hasher>(st: OutboardState)
    requires
        st.tree.wf(),
    ensures
        forall|i: int|
            0 <= i < st.tree.pre_order_nodes().len() ==> {
                let node = TreeNode(#[trigger] st.tree.pre_order_nodes()[i] as u64);
                &&& PreOrderOutboard::<H>::load_from(st, node) matches Ok(Some(_))
                &&& PostOrderOutboard::<H>::load_from(st, node) matches Ok(Some(_))
            },
{
    lemma_tracked(st.tree);
    lemma_node_range(st.tree);
    let nodes = st.tree.pre_order_nodes();
    assert forall|i: int| 0 <= i < nodes.len() implies {
        let node = TreeNode(#[trigger] nodes[i] as u64);
        &&& PreOrderOutboard::<H>::load_from(st, node) matches Ok(Some(_))
        &&& PostOrderOutboard::<H>::load_from(st, node) matches Ok(Some(_))
    } by {
        assert(nodes.contains(nodes[i]));
        assert(st.tree.post_order_nodes().contains(nodes[i]));
    }
}

} // verus!
