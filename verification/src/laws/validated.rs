//! What passed the validation of a sender is what a receiver gets, whatever the root hash is.
use crate::content::{bytes_at, Content, Parent};
use crate::copy::{outboard_loader, LoadFn};
use crate::decode::decode_run;
use crate::encode::{leaf_hash, loaded, validated_run, with_children};
use crate::error::{EncodeError, IoError};
use crate::geometry::{
    byte_end, byte_start, in_tree, lemma_split_point, node_number, pre_order, split_point,
};
use crate::hash::{
    chunk_count, lemma_halves, left_half, pair_bytes, right_half, zero_hash, Digest, Hasher,
};
use crate::iter::{leaf_chunk, lemma_leaf_count, parent_chunk, BaoChunk, Walk};
use crate::laws::received::{
    leaves_over, lemma_apply_post, lemma_apply_pre, lemma_nodes_between, lemma_parent_items,
    lemma_received_halves, lemma_received_none, lemma_selected_received, nodes_between, parents_of,
    received, selected_at,
};
use crate::laws::roundtrip::{
    apply_items, decode_after, lemma_apply_concat, lemma_decode_leaf, lemma_decode_parent,
    lemma_decode_selected, lemma_one_wanted, insides_fit, selected_items,
};
use crate::laws::store::lemma_save_slots;
use crate::outboard::{
    lemma_tracked, slot_of, Outboard, OutboardMut, OutboardState, PostOrderOutboard,
    PreOrderOutboard,
};
use crate::ranges::{full, selection, wanted};
use crate::select::selected_bytes;
use crate::tree::{BaoTree, TreeNode};
use vstd::prelude::*;

verus! {

/// The first `size` bytes of the data, with zeros for those that are missing.
pub open spec fn filled(data: Seq<u8>, size: int) -> Seq<u8> {
    Seq::new(
        size as nat,
        |i: int|
            if i < data.len() {
                data[i]
            } else {
                0u8
            },
    )
}

/// The hash pair that is loaded for a node.
pub open spec fn pair_for(load: LoadFn, node: TreeNode) -> (Digest, Digest) {
    match load(node) {
        Ok(Some(pair)) => pair,
        _ => (zero_hash(), zero_hash()),
    }
}

/// What a sender writes for a subtree: the hash pairs that it loads on the way to what is selected,
/// and the selected data.
pub open spec fn sent_bytes<H: Hasher>(
    load: LoadFn,
    bytes: Seq<u8>,
    g: int,
    s: int,
    sel: Set<int>,
) -> Seq<u8>
    decreases bytes.len(),
{
    let m = chunk_count(bytes);
    if !wanted(sel, s, m) {
        Seq::empty()
    } else if m <= g || m <= 1 {
        selected_bytes::<H>(bytes, g, s, sel)
    } else {
        proof {
            lemma_halves(bytes);
        }
        let pair = pair_for(load, TreeNode(node_number(s, m) as u64));
        pair_bytes(pair.0, pair.1) + sent_bytes::<H>(load, left_half(bytes), g, s, sel)
            + sent_bytes::<H>(load, right_half(bytes), g, s + split_point(m), sel)
    }
}

/// The items that a sender writes for a subtree.
pub open spec fn sent_items<H: Hasher>(
    load: LoadFn,
    bytes: Seq<u8>,
    g: int,
    s: int,
    sel: Set<int>,
) -> Seq<Content>
    decreases bytes.len(),
{
    let m = chunk_count(bytes);
    if !wanted(sel, s, m) {
        Seq::empty()
    } else if m <= g || m <= 1 {
        selected_items::<H>(bytes, g, s, sel)
    } else {
        proof {
            lemma_halves(bytes);
        }
        let node = TreeNode(node_number(s, m) as u64);
        seq![Content::Parent { node, pair: pair_for(load, node) }] + sent_items::<H>(
            load,
            left_half(bytes),
            g,
            s,
            sel,
        ) + sent_items::<H>(load, right_half(bytes), g, s + split_point(m), sel)
    }
}

/// What is selected of a subtree is there, and hashes up to `hash`.
pub open spec fn hashes_up<H: Hasher>(
    load: LoadFn,
    data: Seq<u8>,
    bytes: Seq<u8>,
    g: int,
    s: int,
    sel: Set<int>,
    is_root: bool,
    hash: Digest,
) -> bool
    decreases bytes.len(),
{
    let m = chunk_count(bytes);
    if !wanted(sel, s, m) {
        true
    } else if m <= g || m <= 1 {
        &&& byte_start(s) + bytes.len() <= data.len()
        &&& leaf_hash::<H>(s as u64, bytes, is_root, full(sel, s, m)) == hash
    } else {
        proof {
            lemma_halves(bytes);
        }
        let node = TreeNode(node_number(s, m) as u64);
        let pair = pair_for(load, node);
        &&& load(node) == Ok::<Option<(Digest, Digest)>, IoError>(Some(pair))
        &&& H::inner_hash(pair.0, pair.1, is_root) == hash
        &&& hashes_up::<H>(load, data, left_half(bytes), g, s, sel, false, pair.0)
        &&& hashes_up::<H>(
            load,
            data,
            right_half(bytes),
            g,
            s + split_point(m),
            sel,
            false,
            pair.1,
        )
    }
}

/// A leaf of a validated encoding that succeeds.
proof fn lemma_leaf_succeeds<H: Hasher>(
    load: LoadFn,
    data: Seq<u8>,
    w: Walk,
    s: int,
    m: int,
    is_root: bool,
    bytes: Seq<u8>,
    hash: Digest,
    rest: Seq<BaoChunk>,
    stack: Seq<Digest>,
)
    requires
        0 <= w.size <= u64::MAX,
        in_tree(w.size, s, m),
        m <= w.leaf || m <= 1,
        bytes == filled(data, w.size).subrange(byte_start(s), byte_end(w.size, s, m)),
        wanted(w.sel, s, m),
        validated_run::<H>(
            load,
            w.leaf,
            w.sel,
            w.steps(s, m, is_root) + rest,
            stack.push(hash),
            data,
        ).1 is Ok,
    ensures
        hashes_up::<H>(load, data, bytes, w.leaf, s, w.sel, is_root, hash),
        validated_run::<H>(
            load,
            w.leaf,
            w.sel,
            w.steps(s, m, is_root) + rest,
            stack.push(hash),
            data,
        ) == ({
            let (out, res) = validated_run::<H>(load, w.leaf, w.sel, rest, stack, data);
            (sent_bytes::<H>(load, bytes, w.leaf, s, w.sel) + out, res)
        }),
{
    lemma_leaf_count(w.size, s, m);
    assert(chunk_count(bytes) == m);
    let todo = w.steps(s, m, is_root) + rest;
    let all = full(w.sel, s, m);
    if m <= 1 {
        lemma_one_wanted(w.sel, s, m);
    }
    assert(stack.push(hash).drop_last() =~= stack);
    assert(todo[0] == leaf_chunk(w.size, s, m, is_root, all));
    assert(todo.skip(1) =~= rest);
    let read = bytes_at(data, byte_start(s), bytes.len() as int);
    if read is Ok {
        assert(read->Ok_0 =~= bytes);
    }
}

/// A subtree of a validated encoding that succeeds.
#[verifier::rlimit(40)]
proof fn lemma_succeeds<H: Hasher>(
    load: LoadFn,
    data: Seq<u8>,
    w: Walk,
    s: int,
    m: int,
    is_root: bool,
    bytes: Seq<u8>,
    hash: Digest,
    rest: Seq<BaoChunk>,
    stack: Seq<Digest>,
)
    requires
        0 <= w.size <= u64::MAX,
        w.whole == 1,
        in_tree(w.size, s, m),
        bytes == filled(data, w.size).subrange(byte_start(s), byte_end(w.size, s, m)),
        wanted(w.sel, s, m),
        validated_run::<H>(
            load,
            w.leaf,
            w.sel,
            w.steps(s, m, is_root) + rest,
            stack.push(hash),
            data,
        ).1 is Ok,
    ensures
        hashes_up::<H>(load, data, bytes, w.leaf, s, w.sel, is_root, hash),
        validated_run::<H>(
            load,
            w.leaf,
            w.sel,
            w.steps(s, m, is_root) + rest,
            stack.push(hash),
            data,
        ) == ({
            let (out, res) = validated_run::<H>(load, w.leaf, w.sel, rest, stack, data);
            (sent_bytes::<H>(load, bytes, w.leaf, s, w.sel) + out, res)
        }),
    decreases m,
{
    let g = w.leaf;
    lemma_leaf_count(w.size, s, m);
    assert(chunk_count(bytes) == m);
    if m <= g || m <= 1 {
        lemma_leaf_succeeds::<H>(load, data, w, s, m, is_root, bytes, hash, rest, stack);
    } else {
        let p = split_point(m);
        lemma_split_point(m);
        lemma_halves(bytes);
        let wl = wanted(w.sel, s, p);
        let wr = wanted(w.sel, s + p, m - p);
        let lb = left_half(bytes);
        let rb = right_half(bytes);
        let blob = filled(data, w.size);
        assert(lb =~= blob.subrange(byte_start(s), byte_end(w.size, s, p)));
        assert(rb =~= blob.subrange(byte_start(s + p), byte_end(w.size, s + p, m - p)));
        let a = w.steps(s, p, false);
        let b = w.steps(s + p, m - p, false);
        let node = TreeNode(node_number(s, m) as u64);
        let pair = pair_for(load, node);
        let todo = w.steps(s, m, is_root) + rest;
        assert(stack.push(hash).drop_last() =~= stack);
        assert(todo[0] == parent_chunk(s, m, is_root, wl, wr));
        assert(todo.skip(1) =~= a + (b + rest));
        assert(loaded(load, node) == Ok::<(Digest, Digest), EncodeError>(pair));
        assert(H::inner_hash(pair.0, pair.1, is_root) == hash);
        let stack1 = if wr {
            stack.push(pair.1)
        } else {
            stack
        };
        let lo = sent_bytes::<H>(load, lb, g, s, w.sel);
        let ro = sent_bytes::<H>(load, rb, g, s + p, w.sel);
        let both = validated_run::<H>(
            load,
            g,
            w.sel,
            a + (b + rest),
            with_children(stack, pair, wl, wr),
            data,
        );
        let right = validated_run::<H>(load, g, w.sel, b + rest, stack1, data);
        let (out, res) = validated_run::<H>(load, g, w.sel, rest, stack, data);
        assert(both == (lo + right.0, right.1) && hashes_up::<H>(
            load,
            data,
            lb,
            g,
            s,
            w.sel,
            false,
            pair.0,
        )) by {
            if wl {
                lemma_succeeds::<H>(load, data, w, s, p, false, lb, pair.0, b + rest, stack1);
            } else {
                assert(a + (b + rest) =~= b + rest);
                assert(lo + right.0 =~= right.0);
            }
        }
        assert(right == (ro + out, res) && hashes_up::<H>(
            load,
            data,
            rb,
            g,
            s + p,
            w.sel,
            false,
            pair.1,
        )) by {
            if wr {
                lemma_succeeds::<H>(
                    load,
                    data,
                    w,
                    s + p,
                    m - p,
                    false,
                    rb,
                    pair.1,
                    rest,
                    stack,
                );
            } else {
                assert(b + rest =~= rest);
                assert(ro + out =~= out);
            }
        }
        let own = pair_bytes(pair.0, pair.1);
        assert(own + (lo + (ro + out)) =~= own + lo + ro + out);
    }
}

/// Decoding what was sent for a subtree.
proof fn lemma_decode_sent<O: Outboard + OutboardMut>(
    load: LoadFn,
    data: Seq<u8>,
    w: Walk,
    s: int,
    m: int,
    is_root: bool,
    bytes: Seq<u8>,
    hash: Digest,
    rest: Seq<BaoChunk>,
    stack: Seq<Digest>,
    more: Seq<u8>,
    target: Seq<u8>,
    st: <O as View>::V,
)
    requires
        0 <= w.size <= u64::MAX,
        w.leaf == 1,
        in_tree(w.size, s, m),
        bytes.len() == byte_end(w.size, s, m) - byte_start(s),
        wanted(w.sel, s, m),
        hashes_up::<<O as Outboard>::Hasher>(load, data, bytes, w.whole, s, w.sel, is_root, hash),
        insides_fit::<<O as Outboard>::Hasher>(bytes, w.whole, s, w.sel),
    ensures
        decode_run::<O>(
            w.steps(s, m, is_root) + rest,
            stack.push(hash),
            sent_bytes::<<O as Outboard>::Hasher>(load, bytes, w.whole, s, w.sel) + more,
            target,
            st,
        ) == decode_after::<O>(
            sent_items::<<O as Outboard>::Hasher>(load, bytes, w.whole, s, w.sel),
            rest,
            stack,
            more,
            target,
            st,
        ),
    decreases m,
{
    let g = w.whole;
    lemma_leaf_count(w.size, s, m);
    assert(chunk_count(bytes) == m);
    if m <= 1 {
        lemma_one_wanted(w.sel, s, m);
    }
    if m <= g || m <= 1 {
        if full(w.sel, s, m) {
            lemma_decode_leaf::<O>(w, s, m, is_root, bytes, rest, stack, more, target, st);
        } else {
            lemma_decode_selected::<O>(w, s, m, is_root, bytes, rest, stack, more, target, st);
        }
    } else {
        let p = split_point(m);
        lemma_split_point(m);
        lemma_halves(bytes);
        let wl = wanted(w.sel, s, p);
        let wr = wanted(w.sel, s + p, m - p);
        let lb = left_half(bytes);
        let rb = right_half(bytes);
        let a = w.steps(s, p, false);
        let b = w.steps(s + p, m - p, false);
        let node = TreeNode(node_number(s, m) as u64);
        let pair = pair_for(load, node);
        let lo = sent_bytes::<<O as Outboard>::Hasher>(load, lb, g, s, w.sel);
        let ro = sent_bytes::<<O as Outboard>::Hasher>(load, rb, g, s + p, w.sel);
        let li = sent_items::<<O as Outboard>::Hasher>(load, lb, g, s, w.sel);
        let ri = sent_items::<<O as Outboard>::Hasher>(load, rb, g, s + p, w.sel);
        let own = pair_bytes(pair.0, pair.1);
        assert(own + lo + ro + more =~= own + (lo + (ro + more)));
        assert(seq![Content::Parent { node, pair }] + li + ri =~= seq![
            Content::Parent { node, pair },
        ] + (li + ri));
        lemma_decode_parent::<O>(
            w,
            s,
            m,
            is_root,
            pair,
            li + ri,
            rest,
            stack,
            lo + (ro + more),
            target,
            st,
        );
        let (st1, res) = O::saved(st, node, pair);
        if res is Ok {
            let stack1 = if wr {
                stack.push(pair.1)
            } else {
                stack
            };
            lemma_apply_concat::<O>(li, ri, target, st1);
            if wl {
                lemma_decode_sent::<O>(
                    load,
                    data,
                    w,
                    s,
                    p,
                    false,
                    lb,
                    pair.0,
                    b + rest,
                    stack1,
                    ro + more,
                    target,
                    st1,
                );
            } else {
                assert(a + (b + rest) =~= b + rest);
                assert(lo + (ro + more) =~= ro + more);
            }
            let (t2, st2, res2) = apply_items::<O>(li, target, st1);
            if res2 is Ok {
                if wr {
                    lemma_decode_sent::<O>(
                        load,
                        data,
                        w,
                        s + p,
                        m - p,
                        false,
                        rb,
                        pair.1,
                        rest,
                        stack,
                        more,
                        t2,
                        st2,
                    );
                } else {
                    assert(b + rest =~= rest);
                    assert(ro + more =~= more);
                }
            }
        }
    }
}

/// Validated encoding of a whole tree that succeeds.
pub proof fn lemma_tree_succeeds<H: Hasher>(
    load: LoadFn,
    data: Seq<u8>,
    tree: BaoTree,
    ranges: Set<int>,
    root: Digest,
)
    requires
        tree.wf(),
        validated_run::<H>(
            load,
            tree.group(),
            selection(ranges, tree.total()),
            Walk::encode(tree, ranges).all_steps(),
            seq![root],
            data,
        ).1 is Ok,
    ensures
        ({
            let g = tree.group();
            let sel = selection(ranges, tree.total());
            let blob = filled(data, tree.size as int);
            &&& validated_run::<H>(
                load,
                g,
                sel,
                Walk::encode(tree, ranges).all_steps(),
                seq![root],
                data,
            ).0 == sent_bytes::<H>(load, blob, g, 0, sel)
            &&& hashes_up::<H>(load, data, blob, g, 0, sel, true, root)
        }),
{
    let w = Walk::encode(tree, ranges);
    let m = tree.total();
    let blob = filled(data, tree.size as int);
    let none = Seq::<BaoChunk>::empty();
    assert(Seq::empty().push(root) =~= seq![root]);
    lemma_leaf_count(tree.size as int, 0, m);
    assert(byte_end(tree.size as int, 0, m) == tree.size);
    assert(blob =~= blob.subrange(0, byte_end(tree.size as int, 0, m)));
    if wanted(w.sel, 0, m) {
        assert(w.steps(0, m, true) + none =~= w.steps(0, m, true));
        lemma_succeeds::<H>(load, data, w, 0, m, true, blob, root, none, Seq::empty());
        let sent = sent_bytes::<H>(load, blob, tree.group(), 0, w.sel);
        assert(sent + Seq::<u8>::empty() =~= sent);
    }
}

/// What a sender has written with validation, and without a failure, a receiver with the same root
/// hash accepts, whatever that hash is: it gets the hash pairs that the sender loaded and the data
/// that the sender read. What follows is not read.
pub proof fn law_validated_decodes<O: Outboard + OutboardMut>(
    load: LoadFn,
    data: Seq<u8>,
    tree: BaoTree,
    ranges: Set<int>,
    root: Digest,
    more: Seq<u8>,
    target: Seq<u8>,
    st: <O as View>::V,
)
    requires
        tree.wf(),
        insides_fit::<<O as Outboard>::Hasher>(
            filled(data, tree.size as int),
            tree.group(),
            0,
            selection(ranges, tree.total()),
        ),
        validated_run::<<O as Outboard>::Hasher>(
            load,
            tree.group(),
            selection(ranges, tree.total()),
            Walk::encode(tree, ranges).all_steps(),
            seq![root],
            data,
        ).1 is Ok,
    ensures
        ({
            let g = tree.group();
            let sel = selection(ranges, tree.total());
            let encoded = validated_run::<<O as Outboard>::Hasher>(
                load,
                g,
                sel,
                Walk::encode(tree, ranges).all_steps(),
                seq![root],
                data,
            ).0;
            decode_run::<O>(
                Walk::response(tree, ranges).all_steps(),
                seq![root],
                encoded + more,
                target,
                st,
            ) == apply_items::<O>(
                sent_items::<<O as Outboard>::Hasher>(
                    load,
                    filled(data, tree.size as int),
                    g,
                    0,
                    sel,
                ),
                target,
                st,
            )
        }),
{
    let w = Walk::response(tree, ranges);
    let m = tree.total();
    let blob = filled(data, tree.size as int);
    let none = Seq::<BaoChunk>::empty();
    lemma_tree_succeeds::<<O as Outboard>::Hasher>(load, data, tree, ranges, root);
    assert(Seq::empty().push(root) =~= seq![root]);
    if wanted(w.sel, 0, m) {
        lemma_decode_sent::<O>(
            load,
            data,
            w,
            0,
            m,
            true,
            blob,
            root,
            none,
            Seq::empty(),
            more,
            target,
            st,
        );
        assert(w.steps(0, m, true) + none =~= w.steps(0, m, true));
        let items = sent_items::<<O as Outboard>::Hasher>(load, blob, tree.group(), 0, w.sel);
        let (t1, st1, res) = apply_items::<O>(items, target, st);
        assert(res matches Ok(unit) ==> unit == ());
        assert(res is Ok ==> decode_run::<O>(none, Seq::empty(), more, t1, st1) == (t1, st1, res));
    }
}

/// What the items that were sent for a subtree bring.
proof fn lemma_sent_received<H: Hasher>(
    load: LoadFn,
    target: Seq<u8>,
    bytes: Seq<u8>,
    g: int,
    s: int,
    sel: Set<int>,
)
    requires
        0 <= s,
        bytes.len() > 0 || s == 0,
        byte_start(s) + bytes.len() <= u64::MAX,
    ensures
        received(
            target,
            leaves_over(target, sent_items::<H>(load, bytes, g, s, sel)),
            bytes,
            s,
            sel,
        ),
        nodes_between(
            parents_of(sent_items::<H>(load, bytes, g, s, sel)),
            s,
            s + chunk_count(bytes) - 1,
        ),
    decreases bytes.len(),
{
    let m = chunk_count(bytes);
    if !wanted(sel, s, m) {
        lemma_received_none(target, bytes, s, sel);
    } else if m <= g || m <= 1 {
        lemma_selected_received::<H>(target, bytes, g, s, sel);
    } else {
        let p = split_point(m);
        lemma_split_point(m);
        lemma_halves(bytes);
        let lb = left_half(bytes);
        let rb = right_half(bytes);
        let a = sent_items::<H>(load, lb, g, s, sel);
        let b = sent_items::<H>(load, rb, g, s + p, sel);
        let node = TreeNode(node_number(s, m) as u64);
        let pair = pair_for(load, node);
        lemma_parent_items(target, node, pair, a, b);
        lemma_sent_received::<H>(load, target, lb, g, s, sel);
        let mid = leaves_over(target, a);
        lemma_sent_received::<H>(load, mid, rb, g, s + p, sel);
        lemma_received_halves(target, mid, leaves_over(mid, b), bytes, s, sel);
        lemma_nodes_between(Parent { node, pair }, parents_of(a), parents_of(b), s, p, m);
    }
}

/// For each tracked node on the way to what is selected, both give the same hash pair.
pub open spec fn loads_alike(
    load: LoadFn,
    other: LoadFn,
    bytes: Seq<u8>,
    g: int,
    s: int,
    sel: Set<int>,
) -> bool
    decreases bytes.len(),
{
    let m = chunk_count(bytes);
    if !wanted(sel, s, m) || m <= g || m <= 1 {
        true
    } else {
        proof {
            lemma_halves(bytes);
        }
        let node = TreeNode(node_number(s, m) as u64);
        &&& load(node) == other(node)
        &&& other(node) matches Ok(Some(_))
        &&& loads_alike(load, other, left_half(bytes), g, s, sel)
        &&& loads_alike(load, other, right_half(bytes), g, s + split_point(m), sel)
    }
}

/// Where each tracked hash pair that was sent is loaded, what is loaded is what the sender loads.
proof fn lemma_loads_alike<H: Hasher>(
    load: LoadFn,
    other: LoadFn,
    data: Seq<u8>,
    nodes: Seq<int>,
    bytes: Seq<u8>,
    g: int,
    s: int,
    sel: Set<int>,
    is_root: bool,
    hash: Digest,
)
    requires
        0 <= s,
        byte_start(s) + bytes.len() <= u64::MAX,
        hashes_up::<H>(other, data, bytes, g, s, sel, is_root, hash),
        forall|n: int| #[trigger]
            pre_order(g, s, chunk_count(bytes)).contains(n) ==> nodes.contains(n),
        forall|i: int|
            0 <= i < parents_of(sent_items::<H>(other, bytes, g, s, sel)).len() && nodes.contains(
                parents_of(sent_items::<H>(other, bytes, g, s, sel))[i].node.0 as int,
            ) ==> load((#[trigger] parents_of(sent_items::<H>(other, bytes, g, s, sel))[i]).node)
                == Ok::<Option<(Digest, Digest)>, IoError>(
                Some(parents_of(sent_items::<H>(other, bytes, g, s, sel))[i].pair),
            ),
    ensures
        loads_alike(load, other, bytes, g, s, sel),
    decreases bytes.len(),
{
    let m = chunk_count(bytes);
    if wanted(sel, s, m) && m > g && m > 1 {
        let p = split_point(m);
        lemma_split_point(m);
        lemma_halves(bytes);
        let lb = left_half(bytes);
        let rb = right_half(bytes);
        let li = sent_items::<H>(other, lb, g, s, sel);
        let ri = sent_items::<H>(other, rb, g, s + p, sel);
        let node = TreeNode(node_number(s, m) as u64);
        let pair = pair_for(other, node);
        lemma_parent_items(Seq::empty(), node, pair, li, ri);
        let all = parents_of(sent_items::<H>(other, bytes, g, s, sel));
        let a = parents_of(li);
        let b = parents_of(ri);
        let no = pre_order(g, s, m);
        let nl = pre_order(g, s, p);
        let nr = pre_order(g, s + p, m - p);
        assert(all =~= seq![Parent { node, pair }] + a + b);
        assert(no =~= seq![node_number(s, m)] + nl + nr);
        assert(no[0] == node_number(s, m));
        assert(no.contains(node_number(s, m)));
        assert forall|n: int| #[trigger] nl.contains(n) implies nodes.contains(n) by {
            let i = nl.index_of(n);
            assert(no[1 + i] == n);
            assert(no.contains(n));
        }
        assert forall|n: int| #[trigger] nr.contains(n) implies nodes.contains(n) by {
            let i = nr.index_of(n);
            assert(no[1 + nl.len() + i] == n);
            assert(no.contains(n));
        }
        assert forall|i: int| 0 <= i < a.len() && nodes.contains(a[i].node.0 as int) implies load(
            (#[trigger] a[i]).node,
        ) == Ok::<Option<(Digest, Digest)>, IoError>(Some(a[i].pair)) by {
            assert(all[1 + i] == a[i]);
        }
        assert forall|i: int| 0 <= i < b.len() && nodes.contains(b[i].node.0 as int) implies load(
            (#[trigger] b[i]).node,
        ) == Ok::<Option<(Digest, Digest)>, IoError>(Some(b[i].pair)) by {
            assert(all[1 + a.len() + i] == b[i]);
        }
        lemma_loads_alike::<H>(load, other, data, nodes, lb, g, s, sel, false, pair.0);
        lemma_loads_alike::<H>(load, other, data, nodes, rb, g, s + p, sel, false, pair.1);
        assert(all[0] == (Parent { node, pair }));
    }
}

/// The selected bytes of a subtree that hashes up are in the data.
proof fn lemma_data_there<H: Hasher>(
    load: LoadFn,
    data: Seq<u8>,
    bytes: Seq<u8>,
    g: int,
    s: int,
    sel: Set<int>,
    is_root: bool,
    hash: Digest,
)
    requires
        hashes_up::<H>(load, data, bytes, g, s, sel, is_root, hash),
    ensures
        forall|i: int| #[trigger]
            selected_at(sel, s, bytes.len() as int, i) ==> i < data.len(),
    decreases bytes.len(),
{
    let m = chunk_count(bytes);
    let len = bytes.len() as int;
    if !wanted(sel, s, m) {
        assert forall|i: int| !(#[trigger] selected_at(sel, s, len, i)) by {
            if selected_at(sel, s, len, i) {
                let c = i / 1024;
                assert(s <= c < s + m && sel.contains(c));
            }
        }
    } else if m > g && m > 1 {
        lemma_halves(bytes);
        let p = split_point(m);
        let pair = pair_for(load, TreeNode(node_number(s, m) as u64));
        let lb = left_half(bytes);
        let rb = right_half(bytes);
        lemma_data_there::<H>(load, data, lb, g, s, sel, false, pair.0);
        lemma_data_there::<H>(load, data, rb, g, s + p, sel, false, pair.1);
        assert forall|i: int| #[trigger] selected_at(sel, s, len, i) implies i < data.len() by {
            assert(selected_at(sel, s, lb.len() as int, i) || selected_at(
                sel,
                s + p,
                rb.len() as int,
                i,
            ));
        }
    }
}

/// Where encoding with validation succeeds, decoding what it wrote into a target and a pre order
/// outboard with the same root hash and tree succeeds, whatever that hash is. The target then
/// equals the sender's data on every selected chunk, and is as it was elsewhere; and the outboard
/// gives the hash pair that the sender loads for every tracked node on the way to a selected chunk.
pub proof fn law_validated_roundtrip_pre_order<H: Hasher>(
    load: LoadFn,
    data: Seq<u8>,
    st: OutboardState,
    ranges: Set<int>,
    target: Seq<u8>,
)
    requires
        st.tree.wf(),
        insides_fit::<H>(
            filled(data, st.tree.size as int),
            st.tree.group(),
            0,
            selection(ranges, st.tree.total()),
        ),
        validated_run::<H>(
            load,
            st.tree.group(),
            selection(ranges, st.tree.total()),
            Walk::encode(st.tree, ranges).all_steps(),
            seq![st.root],
            data,
        ).1 is Ok,
    ensures
        ({
            let g = st.tree.group();
            let sel = selection(ranges, st.tree.total());
            let blob = filled(data, st.tree.size as int);
            let encoded = validated_run::<H>(
                load,
                g,
                sel,
                Walk::encode(st.tree, ranges).all_steps(),
                seq![st.root],
                data,
            ).0;
            let (after, st1, res) = decode_run::<PreOrderOutboard<H>>(
                Walk::response(st.tree, ranges).all_steps(),
                seq![st.root],
                encoded,
                target,
                st,
            );
            &&& res is Ok
            &&& received(target, after, blob, 0, sel)
            &&& forall|i: int| #[trigger]
                selected_at(sel, 0, st.tree.size as int, i) ==> i < data.len() && i < after.len()
                    && after[i] == data[i]
            &&& st1.root == st.root && st1.tree == st.tree
            &&& loads_alike(outboard_loader::<PreOrderOutboard<H>>(st1), load, blob, g, 0, sel)
        }),
{
    let g = st.tree.group();
    let sel = selection(ranges, st.tree.total());
    let blob = filled(data, st.tree.size as int);
    let items = sent_items::<H>(load, blob, g, 0, sel);
    let nodes = st.tree.pre_order_nodes();
    let pairs = parents_of(items);
    let none = Seq::<u8>::empty();
    lemma_tree_succeeds::<H>(load, data, st.tree, ranges, st.root);
    law_validated_decodes::<PreOrderOutboard<H>>(
        load,
        data,
        st.tree,
        ranges,
        st.root,
        none,
        target,
        st,
    );
    let encoded = sent_bytes::<H>(load, blob, g, 0, sel);
    assert(encoded + none =~= encoded);
    lemma_apply_pre::<H>(items, target, st);
    lemma_sent_received::<H>(load, target, blob, g, 0, sel);
    lemma_data_there::<H>(load, data, blob, g, 0, sel, true, st.root);
    lemma_save_slots(st.data, nodes, pairs);
    lemma_tracked(st.tree);
    let after = leaves_over(target, items);
    assert forall|i: int| #[trigger] selected_at(sel, 0, st.tree.size as int, i) implies i
        < data.len() && i < after.len() && after[i] == data[i] by {
        assert(selected_at(sel, 0, blob.len() as int, i));
        assert(after[i] == blob[i]);
    }
    let st1 = apply_items::<PreOrderOutboard<H>>(items, target, st).1;
    let mine = outboard_loader::<PreOrderOutboard<H>>(st1);
    assert forall|i: int| 0 <= i < pairs.len() && nodes.contains(
        pairs[i].node.0 as int,
    ) implies mine((#[trigger] pairs[i]).node) == Ok::<Option<(Digest, Digest)>, IoError>(
        Some(pairs[i].pair),
    ) by {
        assert(slot_of(nodes, pairs[i].node) is Some);
    }
    lemma_loads_alike::<H>(mine, load, data, nodes, blob, g, 0, sel, true, st.root);
}

/// Where encoding with validation succeeds, decoding what it wrote into a target and a post order
/// outboard with the same root hash and tree succeeds, whatever that hash is. The target then
/// equals the sender's data on every selected chunk, and is as it was elsewhere; and the outboard
/// gives the hash pair that the sender loads for every tracked node on the way to a selected chunk.
pub proof fn law_validated_roundtrip_post_order<H: Hasher>(
    load: LoadFn,
    data: Seq<u8>,
    st: OutboardState,
    ranges: Set<int>,
    target: Seq<u8>,
)
    requires
        st.tree.wf(),
        insides_fit::<H>(
            filled(data, st.tree.size as int),
            st.tree.group(),
            0,
            selection(ranges, st.tree.total()),
        ),
        validated_run::<H>(
            load,
            st.tree.group(),
            selection(ranges, st.tree.total()),
            Walk::encode(st.tree, ranges).all_steps(),
            seq![st.root],
            data,
        ).1 is Ok,
    ensures
        ({
            let g = st.tree.group();
            let sel = selection(ranges, st.tree.total());
            let blob = filled(data, st.tree.size as int);
            let encoded = validated_run::<H>(
                load,
                g,
                sel,
                Walk::encode(st.tree, ranges).all_steps(),
                seq![st.root],
                data,
            ).0;
            let (after, st1, res) = decode_run::<PostOrderOutboard<H>>(
                Walk::response(st.tree, ranges).all_steps(),
                seq![st.root],
                encoded,
                target,
                st,
            );
            &&& res is Ok
            &&& received(target, after, blob, 0, sel)
            &&& forall|i: int| #[trigger]
                selected_at(sel, 0, st.tree.size as int, i) ==> i < data.len() && i < after.len()
                    && after[i] == data[i]
            &&& st1.root == st.root && st1.tree == st.tree
            &&& loads_alike(outboard_loader::<PostOrderOutboard<H>>(st1), load, blob, g, 0, sel)
        }),
{
    let g = st.tree.group();
    let sel = selection(ranges, st.tree.total());
    let blob = filled(data, st.tree.size as int);
    let items = sent_items::<H>(load, blob, g, 0, sel);
    let nodes = st.tree.post_order_nodes();
    let pairs = parents_of(items);
    let none = Seq::<u8>::empty();
    lemma_tree_succeeds::<H>(load, data, st.tree, ranges, st.root);
    law_validated_decodes::<PostOrderOutboard<H>>(
        load,
        data,
        st.tree,
        ranges,
        st.root,
        none,
        target,
        st,
    );
    let encoded = sent_bytes::<H>(load, blob, g, 0, sel);
    assert(encoded + none =~= encoded);
    lemma_apply_post::<H>(items, target, st);
    lemma_sent_received::<H>(load, target, blob, g, 0, sel);
    lemma_data_there::<H>(load, data, blob, g, 0, sel, true, st.root);
    lemma_save_slots(st.data, nodes, pairs);
    lemma_tracked(st.tree);
    let after = leaves_over(target, items);
    assert forall|i: int| #[trigger] selected_at(sel, 0, st.tree.size as int, i) implies i
        < data.len() && i < after.len() && after[i] == data[i] by {
        assert(selected_at(sel, 0, blob.len() as int, i));
        assert(after[i] == blob[i]);
    }
    let st1 = apply_items::<PostOrderOutboard<H>>(items, target, st).1;
    let mine = outboard_loader::<PostOrderOutboard<H>>(st1);
    assert forall|i: int| 0 <= i < pairs.len() && nodes.contains(
        pairs[i].node.0 as int,
    ) implies mine((#[trigger] pairs[i]).node) == Ok::<Option<(Digest, Digest)>, IoError>(
        Some(pairs[i].pair),
    ) by {
        assert(slot_of(nodes, pairs[i].node) is Some);
    }
    lemma_loads_alike::<H>(mine, load, data, nodes, blob, g, 0, sel, true, st.root);
}

} // verus!
