//! What a receiver has after it has decoded a response.
use crate::content::{write_over, Content, Parent};
use crate::copy::{outboard_loader, stored_loader, LoadFn};
use crate::decode::decode_run;
use crate::encode::validated_run;
use crate::error::{DecodeError, IoError};
use crate::geometry::{byte_start, lemma_split_point, node_number, pre_order, split_point};
use crate::hash::{
    chunk_count, lemma_halves, left_half, right_half, root_pair, tree_hash, Digest, Hasher,
};
use crate::iter::Walk;
use crate::laws::roundtrip::{
    apply_items, law_decode_response, law_encode_validated, parts_fit, provides, response_bytes,
    response_items, selected_items,
};
use crate::laws::store::{distinct_nodes, lemma_save_slots, save_slots};
use crate::outboard::{
    lemma_tracked, slot_of, OutboardMut, OutboardState, PostOrderOutboard, PreOrderOutboard,
};
use crate::ranges::{full, selection, wanted};
use crate::tree::TreeNode;
use vstd::prelude::*;

verus! {

/// The data of the items, written over a target.
pub open spec fn leaves_over(target: Seq<u8>, items: Seq<Content>) -> Seq<u8>
    decreases items.len(),
{
    if items.len() == 0 {
        target
    } else {
        match items[0] {
            Content::Parent { .. } => leaves_over(target, items.skip(1)),
            Content::Leaf { offset, data } => leaves_over(
                write_over(target, offset as int, data),
                items.skip(1),
            ),
        }
    }
}

/// The hash pairs among the items.
pub open spec fn parents_of(items: Seq<Content>) -> Seq<Parent>
    decreases items.len(),
{
    if items.len() == 0 {
        Seq::empty()
    } else {
        match items[0] {
            Content::Parent { node, pair } => seq![Parent { node, pair }] + parents_of(
                items.skip(1),
            ),
            Content::Leaf { .. } => parents_of(items.skip(1)),
        }
    }
}

proof fn lemma_items_concat(target: Seq<u8>, a: Seq<Content>, b: Seq<Content>)
    ensures
        leaves_over(target, a + b) == leaves_over(leaves_over(target, a), b),
        parents_of(a + b) == parents_of(a) + parents_of(b),
    decreases a.len(),
{
    if a.len() == 0 {
        assert(a + b =~= b);
        assert(parents_of(a) + parents_of(b) =~= parents_of(b));
    } else {
        assert((a + b)[0] == a[0]);
        assert((a + b).skip(1) =~= a.skip(1) + b);
        match a[0] {
            Content::Parent { node, pair } => {
                lemma_items_concat(target, a.skip(1), b);
                let own = seq![Parent { node, pair }];
                let pa = parents_of(a.skip(1));
                assert(own + (pa + parents_of(b)) =~= (own + pa) + parents_of(b));
            },
            Content::Leaf { offset, data } => {
                lemma_items_concat(write_over(target, offset as int, data), a.skip(1), b);
            },
        }
    }
}

/// The items of a parent and its two children.
pub proof fn lemma_parent_items(
    target: Seq<u8>,
    node: TreeNode,
    pair: (Digest, Digest),
    a: Seq<Content>,
    b: Seq<Content>,
)
    ensures
        ({
            let items = seq![Content::Parent { node, pair }] + a + b;
            &&& leaves_over(target, items) == leaves_over(leaves_over(target, a), b)
            &&& parents_of(items) == seq![Parent { node, pair }] + parents_of(a) + parents_of(b)
        }),
{
    let own = seq![Content::Parent { node, pair }];
    lemma_items_concat(target, own + a, b);
    lemma_items_concat(target, own, a);
    assert(own.skip(1) =~= Seq::empty());
    assert(leaves_over(target, own) == target) by {
        assert(leaves_over(target, Seq::empty()) == target);
    }
    assert(parents_of(own) =~= seq![Parent { node, pair }]) by {
        assert(parents_of(Seq::empty()) =~= Seq::empty());
    }
}

/// The byte `i` of a blob lies in a selected chunk of the subtree of `len` bytes from the chunk
/// `s` on.
pub open spec fn selected_at(sel: Set<int>, s: int, len: int, i: int) -> bool {
    &&& byte_start(s) <= i < byte_start(s) + len
    &&& sel.contains(i / 1024)
}

/// The target `after` has the bytes of the blob where they are selected, and elsewhere what
/// `before` has. It is only as much longer as that needs; a gap is filled with zeros.
pub open spec fn received(
    before: Seq<u8>,
    after: Seq<u8>,
    bytes: Seq<u8>,
    s: int,
    sel: Set<int>,
) -> bool {
    let len = bytes.len() as int;
    &&& after.len() >= before.len()
    &&& after.len() > before.len() ==> selected_at(sel, s, len, after.len() - 1)
    &&& forall|i: int| #[trigger] selected_at(sel, s, len, i) ==> i < after.len()
    &&& forall|i: int|
        0 <= i < after.len() ==> #[trigger] after[i] == (if selected_at(sel, s, len, i) {
            bytes[i - byte_start(s)]
        } else if i < before.len() {
            before[i]
        } else {
            0u8
        })
}

/// Nothing is received of a subtree that is not wanted.
pub proof fn lemma_received_none(target: Seq<u8>, bytes: Seq<u8>, s: int, sel: Set<int>)
    requires
        !wanted(sel, s, chunk_count(bytes)),
    ensures
        received(target, target, bytes, s, sel),
{
    let m = chunk_count(bytes);
    assert forall|i: int| !(#[trigger] selected_at(sel, s, bytes.len() as int, i)) by {
        if selected_at(sel, s, bytes.len() as int, i) {
            let c = i / 1024;
            assert(s <= c < s + m && sel.contains(c));
        }
    }
}

/// A leaf all of whose chunks are selected is received as it is.
pub proof fn lemma_received_leaf(target: Seq<u8>, bytes: Seq<u8>, s: int, sel: Set<int>)
    requires
        0 <= s,
        bytes.len() > 0 || s == 0,
        byte_start(s) <= u64::MAX,
        full(sel, s, chunk_count(bytes)),
    ensures
        received(
            target,
            leaves_over(
                target,
                seq![Content::Leaf { offset: byte_start(s) as u64, data: bytes }],
            ),
            bytes,
            s,
            sel,
        ),
{
    let len = bytes.len() as int;
    let items = seq![Content::Leaf { offset: byte_start(s) as u64, data: bytes }];
    assert(items.skip(1) =~= Seq::empty());
    let after = write_over(target, byte_start(s), bytes);
    assert(leaves_over(after, Seq::empty()) == after);
    assert forall|i: int| byte_start(s) <= i < byte_start(s) + len implies #[trigger] selected_at(
        sel,
        s,
        len,
        i,
    ) by {
        assert(sel.contains(i / 1024));
    }
    if after.len() > target.len() {
        assert(selected_at(sel, s, len, after.len() - 1));
    }
}

/// The two halves of a subtree are received one after the other.
pub proof fn lemma_received_halves(
    before: Seq<u8>,
    mid: Seq<u8>,
    after: Seq<u8>,
    bytes: Seq<u8>,
    s: int,
    sel: Set<int>,
)
    requires
        chunk_count(bytes) >= 2,
        received(before, mid, left_half(bytes), s, sel),
        received(mid, after, right_half(bytes), s + split_point(chunk_count(bytes)), sel),
    ensures
        received(before, after, bytes, s, sel),
{
    lemma_halves(bytes);
    let p = split_point(chunk_count(bytes));
    let len = bytes.len() as int;
    let ll = left_half(bytes).len() as int;
    let rl = right_half(bytes).len() as int;
    assert forall|i: int| #[trigger] selected_at(sel, s, len, i) == (selected_at(sel, s, ll, i)
        || selected_at(sel, s + p, rl, i)) by {}
    assert forall|i: int| #[trigger] selected_at(sel, s, len, i) implies i < after.len() by {
        if selected_at(sel, s, ll, i) {
        } else {
            assert(selected_at(sel, s + p, rl, i));
        }
    }
    if after.len() > before.len() {
        if after.len() > mid.len() {
            assert(selected_at(sel, s + p, rl, after.len() - 1));
        } else {
            assert(selected_at(sel, s, ll, mid.len() - 1));
        }
        assert(selected_at(sel, s, len, after.len() - 1));
    }
    assert forall|i: int| 0 <= i < after.len() implies #[trigger] after[i] == (if selected_at(
        sel,
        s,
        len,
        i,
    ) {
        bytes[i - byte_start(s)]
    } else if i < before.len() {
        before[i]
    } else {
        0u8
    }) by {
        if selected_at(sel, s + p, rl, i) {
            assert(right_half(bytes)[i - byte_start(s + p)] == bytes[i - byte_start(s)]);
        } else if i < mid.len() {
            assert(after[i] == mid[i]);
            if selected_at(sel, s, ll, i) {
                assert(left_half(bytes)[i - byte_start(s)] == bytes[i - byte_start(s)]);
            }
        }
        assert(selected_at(sel, s, len, i) == (selected_at(sel, s, ll, i) || selected_at(
            sel,
            s + p,
            rl,
            i,
        )));
    }
}

/// The nodes of the hash pairs are distinct and lie between `lo` and `hi`.
pub open spec fn nodes_between(pairs: Seq<Parent>, lo: int, hi: int) -> bool {
    &&& distinct_nodes(pairs)
    &&& forall|i: int| 0 <= i < pairs.len() ==> lo <= (#[trigger] pairs[i]).node.0 < hi
}

pub proof fn lemma_nodes_between(own: Parent, a: Seq<Parent>, b: Seq<Parent>, s: int, p: int, m: int)
    requires
        0 < p < m,
        own.node.0 == s + p - 1,
        nodes_between(a, s, s + p - 1),
        nodes_between(b, s + p, s + m - 1),
    ensures
        nodes_between(seq![own] + a + b, s, s + m - 1),
{
    let all = seq![own] + a + b;
    assert forall|i: int, j: int| 0 <= i < j < all.len() implies all[i].node != all[j].node by {
        let x = if i == 0 {
            own
        } else if i < 1 + a.len() {
            a[i - 1]
        } else {
            b[i - 1 - a.len()]
        };
        let y = if j < 1 + a.len() {
            a[j - 1]
        } else {
            b[j - 1 - a.len()]
        };
        assert(all[i] == x);
        assert(all[j] == y);
    }
    assert forall|i: int| 0 <= i < all.len() implies s <= (#[trigger] all[i]).node.0 < s + m - 1 by {
        let x = if i == 0 {
            own
        } else if i < 1 + a.len() {
            a[i - 1]
        } else {
            b[i - 1 - a.len()]
        };
        assert(all[i] == x);
    }
}

/// What the items of a subtree's response bring inside a chunk group.
pub proof fn lemma_selected_received<H: Hasher>(
    target: Seq<u8>,
    bytes: Seq<u8>,
    g: int,
    s: int,
    sel: Set<int>,
)
    requires
        0 <= s,
        bytes.len() > 0 || s == 0,
        byte_start(s) + bytes.len() <= u64::MAX,
    ensures
        received(
            target,
            leaves_over(target, selected_items::<H>(bytes, g, s, sel)),
            bytes,
            s,
            sel,
        ),
        nodes_between(
            parents_of(selected_items::<H>(bytes, g, s, sel)),
            s,
            s + chunk_count(bytes) - 1,
        ),
    decreases bytes.len(),
{
    let m = chunk_count(bytes);
    let items = selected_items::<H>(bytes, g, s, sel);
    if !wanted(sel, s, m) {
        lemma_received_none(target, bytes, s, sel);
    } else if m <= 1 || (m <= g && full(sel, s, m)) {
        if m <= 1 {
            let c = choose|c: int| s <= c < s + m && #[trigger] sel.contains(c);
            assert(c == s);
        }
        lemma_received_leaf(target, bytes, s, sel);
        assert(items.skip(1) =~= Seq::empty());
        assert(parents_of(items.skip(1)) =~= Seq::empty());
    } else {
        let p = split_point(m);
        lemma_split_point(m);
        lemma_halves(bytes);
        let lb = left_half(bytes);
        let rb = right_half(bytes);
        let a = selected_items::<H>(lb, g, s, sel);
        let b = selected_items::<H>(rb, g, s + p, sel);
        let node = TreeNode(node_number(s, m) as u64);
        let pair = root_pair::<H>(bytes, 1, s);
        lemma_parent_items(target, node, pair, a, b);
        lemma_selected_received::<H>(target, lb, g, s, sel);
        let mid = leaves_over(target, a);
        lemma_selected_received::<H>(mid, rb, g, s + p, sel);
        lemma_received_halves(target, mid, leaves_over(mid, b), bytes, s, sel);
        lemma_nodes_between(Parent { node, pair }, parents_of(a), parents_of(b), s, p, m);
    }
}

/// What the items of a subtree's response bring.
proof fn lemma_response_received<H: Hasher>(
    target: Seq<u8>,
    bytes: Seq<u8>,
    g: int,
    s: int,
    sel: Set<int>,
)
    requires
        0 <= s,
        bytes.len() > 0 || s == 0,
        byte_start(s) + bytes.len() <= u64::MAX,
    ensures
        received(
            target,
            leaves_over(target, response_items::<H>(bytes, g, s, sel)),
            bytes,
            s,
            sel,
        ),
        nodes_between(
            parents_of(response_items::<H>(bytes, g, s, sel)),
            s,
            s + chunk_count(bytes) - 1,
        ),
    decreases bytes.len(),
{
    let m = chunk_count(bytes);
    let items = response_items::<H>(bytes, g, s, sel);
    if !wanted(sel, s, m) {
        lemma_received_none(target, bytes, s, sel);
    } else if m <= g || m <= 1 {
        lemma_selected_received::<H>(target, bytes, g, s, sel);
    } else {
        let p = split_point(m);
        lemma_split_point(m);
        lemma_halves(bytes);
        let lb = left_half(bytes);
        let rb = right_half(bytes);
        let a = response_items::<H>(lb, g, s, sel);
        let b = response_items::<H>(rb, g, s + p, sel);
        let node = TreeNode(node_number(s, m) as u64);
        let pair = root_pair::<H>(bytes, g, s);
        lemma_parent_items(target, node, pair, a, b);
        lemma_response_received::<H>(target, lb, g, s, sel);
        let mid = leaves_over(target, a);
        lemma_response_received::<H>(mid, rb, g, s + p, sel);
        lemma_received_halves(target, mid, leaves_over(mid, b), bytes, s, sel);
        lemma_nodes_between(Parent { node, pair }, parents_of(a), parents_of(b), s, p, m);
    }
}

/// Loading gives the hash pairs of the nodes of the tree over `bytes` that lie on the way to what
/// is selected.
pub open spec fn holds_selected<H: Hasher>(
    load: LoadFn,
    bytes: Seq<u8>,
    g: int,
    s: int,
    sel: Set<int>,
) -> bool
    decreases bytes.len(),
{
    let m = chunk_count(bytes);
    if !wanted(sel, s, m) || m <= g || m <= 1 {
        true
    } else {
        proof {
            lemma_halves(bytes);
        }
        &&& load(TreeNode(node_number(s, m) as u64)) == Ok::<Option<(Digest, Digest)>, IoError>(
            Some(root_pair::<H>(bytes, g, s)),
        )
        &&& holds_selected::<H>(load, left_half(bytes), g, s, sel)
        &&& holds_selected::<H>(load, right_half(bytes), g, s + split_point(m), sel)
    }
}

/// Where each tracked hash pair of a response is loaded, the selected hash pairs are.
proof fn lemma_holds_selected<H: Hasher>(
    load: LoadFn,
    nodes: Seq<int>,
    bytes: Seq<u8>,
    g: int,
    s: int,
    sel: Set<int>,
)
    requires
        0 <= s,
        byte_start(s) + bytes.len() <= u64::MAX,
        forall|n: int| #[trigger] pre_order(g, s, chunk_count(bytes)).contains(n) ==> nodes.contains(n),
        forall|i: int|
            0 <= i < parents_of(response_items::<H>(bytes, g, s, sel)).len() && nodes.contains(
                parents_of(response_items::<H>(bytes, g, s, sel))[i].node.0 as int,
            ) ==> load((#[trigger] parents_of(response_items::<H>(bytes, g, s, sel))[i]).node)
                == Ok::<Option<(Digest, Digest)>, IoError>(
                Some(parents_of(response_items::<H>(bytes, g, s, sel))[i].pair),
            ),
    ensures
        holds_selected::<H>(load, bytes, g, s, sel),
    decreases bytes.len(),
{
    let m = chunk_count(bytes);
    if wanted(sel, s, m) && m > g && m > 1 {
        let p = split_point(m);
        lemma_split_point(m);
        lemma_halves(bytes);
        let lb = left_half(bytes);
        let rb = right_half(bytes);
        let li = response_items::<H>(lb, g, s, sel);
        let ri = response_items::<H>(rb, g, s + p, sel);
        let node = TreeNode(node_number(s, m) as u64);
        let pair = root_pair::<H>(bytes, g, s);
        lemma_parent_items(Seq::empty(), node, pair, li, ri);
        let all = parents_of(response_items::<H>(bytes, g, s, sel));
        let a = parents_of(li);
        let b = parents_of(ri);
        let no = pre_order(g, s, m);
        let nl = pre_order(g, s, p);
        let nr = pre_order(g, s + p, m - p);
        assert(all =~= seq![Parent { node, pair }] + a + b);
        assert(no =~= seq![node_number(s, m)] + nl + nr);
        assert(no[0] == node_number(s, m));
        assert(no.contains(node_number(s, m)));
        assert forall|n: int| #[trigger] nl.contains(n) implies nodes.contains(n) by {
            let i = nl.index_of(n);
            assert(no[1 + i] == n);
            assert(no.contains(n));
        }
        assert forall|n: int| #[trigger] nr.contains(n) implies nodes.contains(n) by {
            let i = nr.index_of(n);
            assert(no[1 + nl.len() + i] == n);
            assert(no.contains(n));
        }
        assert forall|i: int| 0 <= i < a.len() && nodes.contains(a[i].node.0 as int) implies load(
            (#[trigger] a[i]).node,
        ) == Ok::<Option<(Digest, Digest)>, IoError>(Some(a[i].pair)) by {
            assert(all[1 + i] == a[i]);
        }
        assert forall|i: int| 0 <= i < b.len() && nodes.contains(b[i].node.0 as int) implies load(
            (#[trigger] b[i]).node,
        ) == Ok::<Option<(Digest, Digest)>, IoError>(Some(b[i].pair)) by {
            assert(all[1 + a.len() + i] == b[i]);
        }
        lemma_holds_selected::<H>(load, nodes, lb, g, s, sel);
        lemma_holds_selected::<H>(load, nodes, rb, g, s + p, sel);
        assert(all[0] == (Parent { node, pair }));
    }
}

/// Items that come in to a pre order outboard.
pub proof fn lemma_apply_pre<H: Hasher>(items: Seq<Content>, target: Seq<u8>, st: OutboardState)
    ensures
        apply_items::<PreOrderOutboard<H>>(items, target, st) == (
            leaves_over(target, items),
            OutboardState {
                root: st.root,
                tree: st.tree,
                data: save_slots(st.data, st.tree.pre_order_nodes(), parents_of(items)),
            },
            Ok::<(), DecodeError>(()),
        ),
    decreases items.len(),
{
    if items.len() > 0 {
        match items[0] {
            Content::Parent { node, pair } => {
                let st1 = <PreOrderOutboard<H> as OutboardMut>::saved(st, node, pair).0;
                lemma_apply_pre::<H>(items.skip(1), target, st1);
                let all = parents_of(items);
                assert(all[0] == (Parent { node, pair }));
                assert(all.skip(1) =~= parents_of(items.skip(1)));
            },
            Content::Leaf { offset, data } => {
                lemma_apply_pre::<H>(
                    items.skip(1),
                    write_over(target, offset as int, data),
                    st,
                );
            },
        }
    }
}

/// A receiver that knows the root hash of a blob, and decodes the response for it into a target
/// and a pre order outboard, succeeds. It then has the selected data and the hash pairs on the
/// way to it, and keeps the rest of the target. What follows the response is not read.
pub proof fn law_received_pre_order<H: Hasher>(
    st: OutboardState,
    ranges: Set<int>,
    blob: Seq<u8>,
    more: Seq<u8>,
    target: Seq<u8>,
)
    requires
        st.tree.wf(),
        blob.len() == st.tree.size,
        st.root == tree_hash::<H>(blob, st.tree.group(), 0, true),
        parts_fit::<H>(blob, st.tree.group(), 0, selection(ranges, st.tree.total()), true),
    ensures
        ({
            let g = st.tree.group();
            let sel = selection(ranges, st.tree.total());
            let (after, st1, res) = decode_run::<PreOrderOutboard<H>>(
                Walk::response(st.tree, ranges).all_steps(),
                seq![st.root],
                response_bytes::<H>(blob, g, 0, sel) + more,
                target,
                st,
            );
            &&& res is Ok
            &&& received(target, after, blob, 0, sel)
            &&& st1.root == st.root && st1.tree == st.tree
            &&& holds_selected::<H>(outboard_loader::<PreOrderOutboard<H>>(st1), blob, g, 0, sel)
            &&& holds_selected::<H>(stored_loader::<PreOrderOutboard<H>>(st1), blob, g, 0, sel)
        }),
{
    let g = st.tree.group();
    let sel = selection(ranges, st.tree.total());
    let items = response_items::<H>(blob, g, 0, sel);
    let nodes = st.tree.pre_order_nodes();
    let pairs = parents_of(items);
    law_decode_response::<PreOrderOutboard<H>>(st.tree, ranges, blob, more, target, st);
    lemma_apply_pre::<H>(items, target, st);
    lemma_response_received::<H>(target, blob, g, 0, sel);
    lemma_save_slots(st.data, nodes, pairs);
    lemma_tracked(st.tree);
    let st1 = apply_items::<PreOrderOutboard<H>>(items, target, st).1;
    let load = outboard_loader::<PreOrderOutboard<H>>(st1);
    assert forall|i: int| 0 <= i < pairs.len() && nodes.contains(
        pairs[i].node.0 as int,
    ) implies load((#[trigger] pairs[i]).node) == Ok::<Option<(Digest, Digest)>, IoError>(
        Some(pairs[i].pair),
    ) by {
        assert(slot_of(nodes, pairs[i].node) is Some);
    }
    lemma_holds_selected::<H>(load, nodes, blob, g, 0, sel);
    let strict = stored_loader::<PreOrderOutboard<H>>(st1);
    assert forall|i: int| 0 <= i < pairs.len() && nodes.contains(
        pairs[i].node.0 as int,
    ) implies strict((#[trigger] pairs[i]).node) == Ok::<Option<(Digest, Digest)>, IoError>(
        Some(pairs[i].pair),
    ) by {
        assert(slot_of(nodes, pairs[i].node) is Some);
    }
    lemma_holds_selected::<H>(strict, nodes, blob, g, 0, sel);
}

/// What one side encodes with validation, the other side decodes: the response of a sender that
/// has what the query needs succeeds, and gives a receiver with a pre order outboard and the
/// same root hash the selected data and the hash pairs on the way to it.
pub proof fn law_roundtrip_pre_order<H: Hasher>(
    load: LoadFn,
    data: Seq<u8>,
    st: OutboardState,
    ranges: Set<int>,
    blob: Seq<u8>,
    target: Seq<u8>,
)
    requires
        st.tree.wf(),
        blob.len() == st.tree.size,
        st.root == tree_hash::<H>(blob, st.tree.group(), 0, true),
        parts_fit::<H>(blob, st.tree.group(), 0, selection(ranges, st.tree.total()), true),
        provides::<H>(load, data, blob, st.tree.group(), 0, selection(ranges, st.tree.total())),
    ensures
        ({
            let g = st.tree.group();
            let sel = selection(ranges, st.tree.total());
            let (encoded, sent) = validated_run::<H>(
                load,
                g,
                sel,
                Walk::encode(st.tree, ranges).all_steps(),
                seq![st.root],
                data,
            );
            let (after, st1, res) = decode_run::<PreOrderOutboard<H>>(
                Walk::response(st.tree, ranges).all_steps(),
                seq![st.root],
                encoded,
                target,
                st,
            );
            &&& sent is Ok
            &&& res is Ok
            &&& received(target, after, blob, 0, sel)
            &&& holds_selected::<H>(outboard_loader::<PreOrderOutboard<H>>(st1), blob, g, 0, sel)
            &&& holds_selected::<H>(stored_loader::<PreOrderOutboard<H>>(st1), blob, g, 0, sel)
        }),
{
    let none = Seq::<u8>::empty();
    let sel = selection(ranges, st.tree.total());
    let encoded = response_bytes::<H>(blob, st.tree.group(), 0, sel);
    law_encode_validated::<H>(load, st.tree, ranges, data, blob);
    law_received_pre_order::<H>(st, ranges, blob, none, target);
    assert(encoded + none =~= encoded);
}

/// Items that come in to a post order outboard.
pub proof fn lemma_apply_post<H: Hasher>(items: Seq<Content>, target: Seq<u8>, st: OutboardState)
    ensures
        apply_items::<PostOrderOutboard<H>>(items, target, st) == (
            leaves_over(target, items),
            OutboardState {
                root: st.root,
                tree: st.tree,
                data: save_slots(st.data, st.tree.post_order_nodes(), parents_of(items)),
            },
            Ok::<(), DecodeError>(()),
        ),
    decreases items.len(),
{
    if items.len() > 0 {
        match items[0] {
            Content::Parent { node, pair } => {
                let st1 = <PostOrderOutboard<H> as OutboardMut>::saved(st, node, pair).0;
                lemma_apply_post::<H>(items.skip(1), target, st1);
                let all = parents_of(items);
                assert(all[0] == (Parent { node, pair }));
                assert(all.skip(1) =~= parents_of(items.skip(1)));
            },
            Content::Leaf { offset, data } => {
                lemma_apply_post::<H>(
                    items.skip(1),
                    write_over(target, offset as int, data),
                    st,
                );
            },
        }
    }
}

/// A receiver that knows the root hash of a blob, and decodes the response for it into a target
/// and a post order outboard, succeeds. It then has the selected data and the hash pairs on the
/// way to it, and keeps the rest of the target. What follows the response is not read.
pub proof fn law_received_post_order<H: Hasher>(
    st: OutboardState,
    ranges: Set<int>,
    blob: Seq<u8>,
    more: Seq<u8>,
    target: Seq<u8>,
)
    requires
        st.tree.wf(),
        blob.len() == st.tree.size,
        st.root == tree_hash::<H>(blob, st.tree.group(), 0, true),
        parts_fit::<H>(blob, st.tree.group(), 0, selection(ranges, st.tree.total()), true),
    ensures
        ({
            let g = st.tree.group();
            let sel = selection(ranges, st.tree.total());
            let (after, st1, res) = decode_run::<PostOrderOutboard<H>>(
                Walk::response(st.tree, ranges).all_steps(),
                seq![st.root],
                response_bytes::<H>(blob, g, 0, sel) + more,
                target,
                st,
            );
            &&& res is Ok
            &&& received(target, after, blob, 0, sel)
            &&& st1.root == st.root && st1.tree == st.tree
            &&& holds_selected::<H>(outboard_loader::<PostOrderOutboard<H>>(st1), blob, g, 0, sel)
            &&& holds_selected::<H>(stored_loader::<PostOrderOutboard<H>>(st1), blob, g, 0, sel)
        }),
{
    let g = st.tree.group();
    let sel = selection(ranges, st.tree.total());
    let items = response_items::<H>(blob, g, 0, sel);
    let nodes = st.tree.post_order_nodes();
    let pairs = parents_of(items);
    law_decode_response::<PostOrderOutboard<H>>(st.tree, ranges, blob, more, target, st);
    lemma_apply_post::<H>(items, target, st);
    lemma_response_received::<H>(target, blob, g, 0, sel);
    lemma_save_slots(st.data, nodes, pairs);
    lemma_tracked(st.tree);
    let st1 = apply_items::<PostOrderOutboard<H>>(items, target, st).1;
    let load = outboard_loader::<PostOrderOutboard<H>>(st1);
    assert forall|i: int| 0 <= i < pairs.len() && nodes.contains(
        pairs[i].node.0 as int,
    ) implies load((#[trigger] pairs[i]).node) == Ok::<Option<(Digest, Digest)>, IoError>(
        Some(pairs[i].pair),
    ) by {
        assert(slot_of(nodes, pairs[i].node) is Some);
    }
    lemma_holds_selected::<H>(load, nodes, blob, g, 0, sel);
    let strict = stored_loader::<PostOrderOutboard<H>>(st1);
    assert forall|i: int| 0 <= i < pairs.len() && nodes.contains(
        pairs[i].node.0 as int,
    ) implies strict((#[trigger] pairs[i]).node) == Ok::<Option<(Digest, Digest)>, IoError>(
        Some(pairs[i].pair),
    ) by {
        assert(slot_of(nodes, pairs[i].node) is Some);
    }
    lemma_holds_selected::<H>(strict, nodes, blob, g, 0, sel);
}

/// What one side encodes with validation, the other side decodes: the response of a sender that
/// has what the query needs succeeds, and gives a receiver with a post order outboard and the
/// same root hash the selected data and the hash pairs on the way to it.
pub proof fn law_roundtrip_post_order<H: Hasher>(
    load: LoadFn,
    data: Seq<u8>,
    st: OutboardState,
    ranges: Set<int>,
    blob: Seq<u8>,
    target: Seq<u8>,
)
    requires
        st.tree.wf(),
        blob.len() == st.tree.size,
        st.root == tree_hash::<H>(blob, st.tree.group(), 0, true),
        parts_fit::<H>(blob, st.tree.group(), 0, selection(ranges, st.tree.total()), true),
        provides::<H>(load, data, blob, st.tree.group(), 0, selection(ranges, st.tree.total())),
    ensures
        ({
            let g = st.tree.group();
            let sel = selection(ranges, st.tree.total());
            let (encoded, sent) = validated_run::<H>(
                load,
                g,
                sel,
                Walk::encode(st.tree, ranges).all_steps(),
                seq![st.root],
                data,
            );
            let (after, st1, res) = decode_run::<PostOrderOutboard<H>>(
                Walk::response(st.tree, ranges).all_steps(),
                seq![st.root],
                encoded,
                target,
                st,
            );
            &&& sent is Ok
            &&& res is Ok
            &&& received(target, after, blob, 0, sel)
            &&& holds_selected::<H>(outboard_loader::<PostOrderOutboard<H>>(st1), blob, g, 0, sel)
            &&& holds_selected::<H>(stored_loader::<PostOrderOutboard<H>>(st1), blob, g, 0, sel)
        }),
{
    let none = Seq::<u8>::empty();
    let sel = selection(ranges, st.tree.total());
    let encoded = response_bytes::<H>(blob, st.tree.group(), 0, sel);
    law_encode_validated::<H>(load, st.tree, ranges, data, blob);
    law_received_post_order::<H>(st, ranges, blob, none, target);
    assert(encoded + none =~= encoded);
}

/// Each chunk group of which a part is selected is selected as a whole.
pub open spec fn whole_groups(bytes: Seq<u8>, g: int, s: int, sel: Set<int>) -> bool
    decreases bytes.len(),
{
    let m = chunk_count(bytes);
    if !wanted(sel, s, m) {
        true
    } else if m <= g || m <= 1 {
        full(sel, s, m)
    } else {
        proof {
            lemma_halves(bytes);
        }
        &&& whole_groups(left_half(bytes), g, s, sel)
        &&& whole_groups(right_half(bytes), g, s + split_point(m), sel)
    }
}

/// A receiver that has decoded a response can send it on: where chunk groups were selected as a
/// whole, it has what the same query needs.
pub proof fn law_received_provides<H: Hasher>(
    load: LoadFn,
    target: Seq<u8>,
    after: Seq<u8>,
    blob: Seq<u8>,
    g: int,
    sel: Set<int>,
)
    requires
        received(target, after, blob, 0, sel),
        holds_selected::<H>(load, blob, g, 0, sel),
        whole_groups(blob, g, 0, sel),
    ensures
        provides::<H>(load, after, blob, g, 0, sel),
        parts_fit::<H>(blob, g, 0, sel, true),
{
    assert(blob =~= blob.subrange(0, blob.len() as int));
    lemma_received_provides::<H>(load, target, after, blob, blob, g, 0, sel, true);
}

proof fn lemma_received_provides<H: Hasher>(
    load: LoadFn,
    target: Seq<u8>,
    after: Seq<u8>,
    blob: Seq<u8>,
    bytes: Seq<u8>,
    g: int,
    s: int,
    sel: Set<int>,
    is_root: bool,
)
    requires
        received(target, after, blob, 0, sel),
        0 <= s,
        bytes.len() > 0 || s == 0,
        byte_start(s) + bytes.len() <= blob.len(),
        bytes == blob.subrange(byte_start(s), byte_start(s) + bytes.len()),
        holds_selected::<H>(load, bytes, g, s, sel),
        whole_groups(bytes, g, s, sel),
    ensures
        provides::<H>(load, after, bytes, g, s, sel),
        parts_fit::<H>(bytes, g, s, sel, is_root),
    decreases bytes.len(),
{
    let m = chunk_count(bytes);
    let start = byte_start(s);
    let len = bytes.len() as int;
    if !wanted(sel, s, m) {
    } else if m <= g || m <= 1 {
        assert forall|i: int| start <= i < start + len implies i < after.len() && #[trigger] after[i]
            == blob[i] by {
            assert(sel.contains(i / 1024));
            assert(selected_at(sel, 0, blob.len() as int, i));
        }
        if len > 0 {
            assert(after[start + len - 1] == blob[start + len - 1]);
        }
        assert(after.subrange(start, start + len) =~= bytes);
    } else {
        lemma_halves(bytes);
        let p = split_point(m);
        let lb = left_half(bytes);
        let rb = right_half(bytes);
        assert(lb =~= blob.subrange(start, start + lb.len()));
        assert(rb =~= blob.subrange(byte_start(s + p), byte_start(s + p) + rb.len()));
        lemma_received_provides::<H>(load, target, after, blob, lb, g, s, sel, false);
        lemma_received_provides::<H>(load, target, after, blob, rb, g, s + p, sel, false);
    }
}

} // verus!
