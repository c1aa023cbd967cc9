//! What a copy of an outboard has.
use crate::copy::{copy_run, outboard_loader, LoadFn};
use crate::create::{outboard_saver, SaveFn};
use crate::error::IoError;
use crate::hash::{lemma_pair_of, Digest, Hasher};
use crate::laws::store::{
    lemma_node_range, lemma_slot_other, lemma_slot_same, lemma_slots_differ,
};
use crate::outboard::{
    lemma_tracked, slot_of, Outboard, OutboardMut, OutboardState, PostOrderOutboard,
    PreOrderOutboard,
};
use crate::tree::TreeNode;
use vstd::prelude::*;

verus! {

/// A store from which a hash pair can be got back: saving does not fail, what was saved for a node is
/// there, and the other nodes keep what they have.
pub open spec fn keeps_pairs<S>(
    save: SaveFn<S>,
    get: spec_fn(S, TreeNode) -> Option<(Digest, Digest)>,
) -> bool {
    &&& forall|st: S, node: TreeNode, pair: (Digest, Digest)|
        (#[trigger] save(st, node, pair)).1 is Ok && get(save(st, node, pair).0, node) == Some(pair)
    &&& forall|st: S, node: TreeNode, pair: (Digest, Digest), other: TreeNode|
        other != node ==> #[trigger] get(save(st, node, pair).0, other) == get(st, other)
}

/// Where no load and no save fails, a copy succeeds, and the target then has for every node of the
/// list for which the source gives a hash pair that hash pair. For every other node it has what it
/// had before, also where the source gives `None`.
pub proof fn law_copied<S>(
    load: LoadFn,
    save: SaveFn<S>,
    get: spec_fn(S, TreeNode) -> Option<(Digest, Digest)>,
    nodes: Seq<int>,
    st: S,
    x: TreeNode,
)
    requires
        keeps_pairs(save, get),
        forall|i: int| 0 <= i < nodes.len() ==> 0 <= #[trigger] nodes[i] <= u64::MAX,
        forall|i: int| 0 <= i < nodes.len() ==> load(TreeNode(#[trigger] nodes[i] as u64)) is Ok,
    ensures
        ({
            let (after, res) = copy_run(load, save, nodes, st);
            &&& res is Ok
            &&& nodes.contains(x.0 as int) ==> (load(x) matches Ok(Some(pair)) ==> get(after, x)
                == Some(pair))
            &&& nodes.contains(x.0 as int) ==> (load(x) matches Ok(None) ==> get(after, x) == get(
                st,
                x,
            ))
            &&& !nodes.contains(x.0 as int) ==> get(after, x) == get(st, x)
        }),
    decreases nodes.len(),
{
    if nodes.len() > 0 {
        let rest = nodes.skip(1);
        let node = TreeNode(nodes[0] as u64);
        assert(forall|i: int| 0 <= i < rest.len() ==> rest[i] == nodes[i + 1]);
        assert(load(TreeNode(nodes[0] as u64)) is Ok);
        assert(nodes.contains(x.0 as int) <==> x == node || rest.contains(x.0 as int)) by {
            if nodes.contains(x.0 as int) {
                let i = choose|i: int| 0 <= i < nodes.len() && nodes[i] == x.0;
                if i > 0 {
                    assert(rest[i - 1] == x.0);
                }
            }
            if rest.contains(x.0 as int) {
                let i = choose|i: int| 0 <= i < rest.len() && rest[i] == x.0;
                assert(nodes[i + 1] == x.0);
            }
            if x == node {
                assert(nodes[0] == x.0);
            }
        }
        match load(node) {
            Ok(Some(pair)) => {
                let st1 = save(st, node, pair).0;
                assert(save(st, node, pair).1 is Ok);
                law_copied(load, save, get, rest, st1, x);
                if x != node {
                    assert(get(save(st, node, pair).0, x) == get(st, x));
                }
            },
            _ => {
                law_copied(load, save, get, rest, st, x);
            },
        }
    }
}

/// A copy of nothing changes nothing, and a node without a hash pair is passed over. A hash pair is
/// saved as it was loaded, and then the copy goes on.
pub proof fn law_copy_in_turn<S>(
    load: LoadFn,
    save: SaveFn<S>,
    node: TreeNode,
    rest: Seq<int>,
    st: S,
)
    ensures
        copy_run(load, save, Seq::empty(), st) == (st, Ok::<(), IoError>(())),
        ({
            let run = copy_run(load, save, seq![node.0 as int] + rest, st);
            match load(node) {
                Err(e) => run == (st, Err::<(), IoError>(e)),
                Ok(None) => run == copy_run(load, save, rest, st),
                Ok(Some(pair)) => {
                    let (st1, res) = save(st, node, pair);
                    &&& res is Ok ==> run == copy_run(load, save, rest, st1)
                    &&& res is Err ==> run == (st1, res)
                },
            }
        }),
{
    let nodes = seq![node.0 as int] + rest;
    assert(nodes.skip(1) =~= rest);
    assert(TreeNode(nodes[0] as u64) == node);
}

/// Where a copy fails, it has copied the nodes before one, and then a load failed, which leaves the
/// target as it is, or a save did. The error is the one of that load or save.
pub proof fn law_copy_fails<S>(load: LoadFn, save: SaveFn<S>, nodes: Seq<int>, st: S) -> (k: int)
    requires
        copy_run(load, save, nodes, st).1 is Err,
    ensures
        0 <= k < nodes.len(),
        copy_run(load, save, nodes.take(k), st).1 is Ok,
        ({
            let (after, res) = copy_run(load, save, nodes, st);
            let before = copy_run(load, save, nodes.take(k), st).0;
            let node = TreeNode(nodes[k] as u64);
            match load(node) {
                Err(e) => after == before && res == Err::<(), IoError>(e),
                Ok(None) => false,
                Ok(Some(pair)) => {
                    &&& save(before, node, pair).1 is Err
                    &&& after == save(before, node, pair).0
                    &&& res == save(before, node, pair).1
                },
            }
        }),
    decreases nodes.len(),
{
    let rest = nodes.skip(1);
    let node = TreeNode(nodes[0] as u64);
    assert(nodes.take(0) =~= Seq::empty());
    match load(node) {
        Err(_) => 0,
        Ok(None) => {
            let k = law_copy_fails(load, save, rest, st);
            assert(nodes.take(k + 1)[0] == nodes[0]);
            assert(nodes.take(k + 1).skip(1) =~= rest.take(k));
            k + 1
        },
        Ok(Some(pair)) => {
            let (st1, res) = save(st, node, pair);
            if res is Err {
                0
            } else {
                let k = law_copy_fails(load, save, rest, st1);
                assert(nodes.take(k + 1)[0] == nodes[0]);
                assert(nodes.take(k + 1).skip(1) =~= rest.take(k));
                k + 1
            }
        },
    }
}

/// Saving to a pre order outboard keeps what it has for another node.
proof fn lemma_keeps_pre<H: Hasher>(
    st: OutboardState,
    node: TreeNode,
    pair: (Digest, Digest),
    x: TreeNode,
)
    requires
        x != node,
        PreOrderOutboard::<H>::stored_in(st, x),
    ensures
        ({
            let after = PreOrderOutboard::<H>::saved(st, node, pair).0;
            &&& PreOrderOutboard::<H>::stored_in(after, x)
            &&& PreOrderOutboard::<H>::load_from(after, x) == PreOrderOutboard::<H>::load_from(
                st,
                x,
            )
        }),
{
    let nodes = st.tree.pre_order_nodes();
    lemma_pair_of(pair.0, pair.1);
    if slot_of(nodes, node) is Some {
        lemma_slots_differ(nodes, node, x);
        lemma_slots_differ(nodes, x, node);
        lemma_slot_other(st.data, slot_of(nodes, node)->0, slot_of(nodes, x)->0, pair);
    }
}

/// Saving to a post order outboard keeps what it has for another node.
proof fn lemma_keeps_post<H: Hasher>(
    st: OutboardState,
    node: TreeNode,
    pair: (Digest, Digest),
    x: TreeNode,
)
    requires
        x != node,
        PostOrderOutboard::<H>::stored_in(st, x),
    ensures
        ({
            let after = PostOrderOutboard::<H>::saved(st, node, pair).0;
            &&& PostOrderOutboard::<H>::stored_in(after, x)
            &&& PostOrderOutboard::<H>::load_from(after, x) == PostOrderOutboard::<H>::load_from(
                st,
                x,
            )
        }),
{
    let nodes = st.tree.post_order_nodes();
    lemma_pair_of(pair.0, pair.1);
    if slot_of(nodes, node) is Some {
        lemma_slots_differ(nodes, node, x);
        lemma_slots_differ(nodes, x, node);
        lemma_slot_other(st.data, slot_of(nodes, node)->0, slot_of(nodes, x)->0, pair);
    }
}

proof fn lemma_member(nodes: Seq<int>, x: TreeNode)
    requires
        nodes.len() > 0,
        0 <= nodes[0] <= u64::MAX,
    ensures
        nodes.contains(x.0 as int) <==> x == TreeNode(nodes[0] as u64) || nodes.skip(1).contains(
            x.0 as int,
        ),
{
    let rest = nodes.skip(1);
    if nodes.contains(x.0 as int) {
        let i = choose|i: int| 0 <= i < nodes.len() && nodes[i] == x.0;
        if i > 0 {
            assert(rest[i - 1] == x.0);
        }
    }
    if rest.contains(x.0 as int) {
        let i = choose|i: int| 0 <= i < rest.len() && rest[i] == x.0;
        assert(nodes[i + 1] == x.0);
    }
    if x == TreeNode(nodes[0] as u64) {
        assert(nodes[0] == x.0);
    }
}

proof fn lemma_copied_pre<H: Hasher>(load: LoadFn, nodes: Seq<int>, st: OutboardState, x: TreeNode)
    requires
        forall|i: int| 0 <= i < nodes.len() ==> 0 <= #[trigger] nodes[i] <= u64::MAX,
        forall|i: int| 0 <= i < nodes.len() ==> load(TreeNode(#[trigger] nodes[i] as u64)) is Ok,
        st.tree.pre_order_nodes().contains(x.0 as int),
    ensures
        ({
            let (after, res) = copy_run(
                load,
                outboard_saver::<PreOrderOutboard<H>>(),
                nodes,
                st,
            );
            &&& res is Ok
            &&& after.root == st.root && after.tree == st.tree
            &&& nodes.contains(x.0 as int) ==> (load(x) matches Ok(Some(pair))
                ==> PreOrderOutboard::<H>::load_from(after, x) == Ok::<
                Option<(Digest, Digest)>,
                IoError,
            >(Some(pair)) && PreOrderOutboard::<H>::stored_in(after, x))
            &&& PreOrderOutboard::<H>::stored_in(st, x) && !(nodes.contains(x.0 as int) && load(
                x,
            ) matches Ok(Some(_))) ==> PreOrderOutboard::<H>::stored_in(after, x)
                && PreOrderOutboard::<H>::load_from(after, x) == PreOrderOutboard::<H>::load_from(
                st,
                x,
            )
        }),
    decreases nodes.len(),
{
    if nodes.len() > 0 {
        let rest = nodes.skip(1);
        let node = TreeNode(nodes[0] as u64);
        assert(forall|i: int| 0 <= i < rest.len() ==> rest[i] == nodes[i + 1]);
        assert(load(TreeNode(nodes[0] as u64)) is Ok);
        lemma_member(nodes, x);
        match load(node) {
            Ok(Some(pair)) => {
                let st1 = PreOrderOutboard::<H>::saved(st, node, pair).0;
                lemma_copied_pre::<H>(load, rest, st1, x);
                lemma_pair_of(pair.0, pair.1);
                if x == node {
                    let k = slot_of(st.tree.pre_order_nodes(), x)->0;
                    assert(0 <= k < st.tree.pre_order_nodes().len());
                    lemma_slot_same(st.data, k, pair);
                    assert(PreOrderOutboard::<H>::stored_in(st1, x));
                } else if PreOrderOutboard::<H>::stored_in(st, x) {
                    lemma_keeps_pre::<H>(st, node, pair, x);
                }
            },
            _ => {
                lemma_copied_pre::<H>(load, rest, st, x);
            },
        }
    }
}

proof fn lemma_copied_post<H: Hasher>(load: LoadFn, nodes: Seq<int>, st: OutboardState, x: TreeNode)
    requires
        forall|i: int| 0 <= i < nodes.len() ==> 0 <= #[trigger] nodes[i] <= u64::MAX,
        forall|i: int| 0 <= i < nodes.len() ==> load(TreeNode(#[trigger] nodes[i] as u64)) is Ok,
        st.tree.post_order_nodes().contains(x.0 as int),
    ensures
        ({
            let (after, res) = copy_run(
                load,
                outboard_saver::<PostOrderOutboard<H>>(),
                nodes,
                st,
            );
            &&& res is Ok
            &&& after.root == st.root && after.tree == st.tree
            &&& nodes.contains(x.0 as int) ==> (load(x) matches Ok(Some(pair))
                ==> PostOrderOutboard::<H>::load_from(after, x) == Ok::<
                Option<(Digest, Digest)>,
                IoError,
            >(Some(pair)) && PostOrderOutboard::<H>::stored_in(after, x))
            &&& PostOrderOutboard::<H>::stored_in(st, x) && !(nodes.contains(x.0 as int) && load(
                x,
            ) matches Ok(Some(_))) ==> PostOrderOutboard::<H>::stored_in(after, x)
                && PostOrderOutboard::<H>::load_from(after, x) == PostOrderOutboard::<H>::load_from(
                st,
                x,
            )
        }),
    decreases nodes.len(),
{
    if nodes.len() > 0 {
        let rest = nodes.skip(1);
        let node = TreeNode(nodes[0] as u64);
        assert(forall|i: int| 0 <= i < rest.len() ==> rest[i] == nodes[i + 1]);
        assert(load(TreeNode(nodes[0] as u64)) is Ok);
        lemma_member(nodes, x);
        match load(node) {
            Ok(Some(pair)) => {
                let st1 = PostOrderOutboard::<H>::saved(st, node, pair).0;
                lemma_copied_post::<H>(load, rest, st1, x);
                lemma_pair_of(pair.0, pair.1);
                if x == node {
                    let k = slot_of(st.tree.post_order_nodes(), x)->0;
                    assert(0 <= k < st.tree.post_order_nodes().len());
                    lemma_slot_same(st.data, k, pair);
                    assert(PostOrderOutboard::<H>::stored_in(st1, x));
                } else if PostOrderOutboard::<H>::stored_in(st, x) {
                    lemma_keeps_post::<H>(st, node, pair, x);
                }
            },
            _ => {
                lemma_copied_post::<H>(load, rest, st, x);
            },
        }
    }
}

/// Copying any outboard to a pre order outboard for the same tree, where no load fails: the copy then
/// has for every tracked node for which the source gives a hash pair that hash pair, whatever the
/// source gives for other nodes. For a tracked node for which the source gives `None` it has what it
/// had, if it had something.
pub proof fn law_copied_to_pre_order<F: Outboard, H: Hasher>(
    from: F::V,
    to: OutboardState,
    x: TreeNode,
)
    requires
        F::tree_of(from).wf(),
        to.tree == F::tree_of(from),
        to.tree.pre_order_nodes().contains(x.0 as int),
        forall|y: TreeNode|
            to.tree.pre_order_nodes().contains(y.0 as int) ==> #[trigger] F::load_from(from, y) is Ok,
    ensures
        ({
            let (after, res) = copy_run(
                outboard_loader::<F>(from),
                outboard_saver::<PreOrderOutboard<H>>(),
                F::tree_of(from).pre_order_nodes(),
                to,
            );
            &&& res is Ok
            &&& after.root == to.root && after.tree == to.tree
            &&& F::load_from(from, x) matches Ok(Some(pair)) ==> PreOrderOutboard::<H>::load_from(
                after,
                x,
            ) == Ok::<Option<(Digest, Digest)>, IoError>(Some(pair)) && PreOrderOutboard::<
                H,
            >::stored_in(after, x)
            &&& F::load_from(from, x) matches Ok(None) ==> (PreOrderOutboard::<H>::stored_in(to, x)
                ==> PreOrderOutboard::<H>::stored_in(after, x) && PreOrderOutboard::<H>::load_from(
                after,
                x,
            ) == PreOrderOutboard::<H>::load_from(to, x))
        }),
{
    let load = outboard_loader::<F>(from);
    let nodes = to.tree.pre_order_nodes();
    lemma_loads::<F>(from);
    lemma_copied_pre::<H>(load, nodes, to, x);
    assert(load(x) == F::load_from(from, x));
}

/// As `law_copied_to_pre_order`, for a copy to a post order outboard.
pub proof fn law_copied_to_post_order<F: Outboard, H: Hasher>(
    from: F::V,
    to: OutboardState,
    x: TreeNode,
)
    requires
        F::tree_of(from).wf(),
        to.tree == F::tree_of(from),
        to.tree.post_order_nodes().contains(x.0 as int),
        forall|y: TreeNode|
            to.tree.pre_order_nodes().contains(y.0 as int) ==> #[trigger] F::load_from(from, y) is Ok,
    ensures
        ({
            let (after, res) = copy_run(
                outboard_loader::<F>(from),
                outboard_saver::<PostOrderOutboard<H>>(),
                F::tree_of(from).pre_order_nodes(),
                to,
            );
            &&& res is Ok
            &&& after.root == to.root && after.tree == to.tree
            &&& F::load_from(from, x) matches Ok(Some(pair)) ==> PostOrderOutboard::<H>::load_from(
                after,
                x,
            ) == Ok::<Option<(Digest, Digest)>, IoError>(Some(pair)) && PostOrderOutboard::<
                H,
            >::stored_in(after, x)
            &&& F::load_from(from, x) matches Ok(None) ==> (PostOrderOutboard::<H>::stored_in(to, x)
                ==> PostOrderOutboard::<H>::stored_in(after, x) && PostOrderOutboard::<H>::load_from(
                after,
                x,
            ) == PostOrderOutboard::<H>::load_from(to, x))
        }),
{
    let load = outboard_loader::<F>(from);
    let nodes = to.tree.pre_order_nodes();
    lemma_loads::<F>(from);
    lemma_tracked(to.tree);
    assert(to.tree.post_order_nodes().contains(x.0 as int));
    lemma_copied_post::<H>(load, nodes, to, x);
    assert(load(x) == F::load_from(from, x));
}

/// The loads of a copy.
proof fn lemma_loads<F: Outboard>(from: F::V)
    requires
        F::tree_of(from).wf(),
        forall|y: TreeNode|
            F::tree_of(from).pre_order_nodes().contains(y.0 as int) ==> #[trigger] F::load_from(
                from,
                y,
            ) is Ok,
    ensures
        ({
            let load = outboard_loader::<F>(from);
            let nodes = F::tree_of(from).pre_order_nodes();
            &&& forall|i: int| 0 <= i < nodes.len() ==> 0 <= #[trigger] nodes[i] <= u64::MAX
            &&& forall|i: int|
                0 <= i < nodes.len() ==> load(TreeNode(#[trigger] nodes[i] as u64)) is Ok
        }),
{
    let load = outboard_loader::<F>(from);
    let tree = F::tree_of(from);
    let nodes = tree.pre_order_nodes();
    lemma_node_range(tree);
    assert forall|i: int| 0 <= i < nodes.len() implies load(
        TreeNode(#[trigger] nodes[i] as u64),
    ) is Ok by {
        let y = TreeNode(nodes[i] as u64);
        assert(nodes.contains(y.0 as int));
        assert(load(y) == F::load_from(from, y));
    }
}

} // verus!
