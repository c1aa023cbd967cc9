//! What a decoder accepts of any input.
use crate::content::{write_over, Content};
use crate::decode::{decode_run, decode_step, read_step, step_bytes};
use crate::encode::with_children;
use crate::error::DecodeError;
use crate::geometry::{byte_end, byte_start, in_tree, lemma_split_point, node_number, split_point};
use crate::hash::{
    chunk_count, lemma_halves, left_half, right_half, root_pair, tree_hash, Digest, Hasher,
};
use crate::iter::{
    leaf_chunk, lemma_leaf_count, lemma_wanted_split, parent_chunk, BaoChunk, Walk,
};
use crate::laws::roundtrip::{
    apply_items, inside_fits, lemma_inside_full, parts_fit, response_items, selected_items,
};
use crate::outboard::{Outboard, OutboardMut};
use crate::ranges::{full, selection, wanted};
use crate::tree::{BaoTree, TreeNode};
use vstd::prelude::*;

verus! {

/// The items that decoding accepts before its first failure, and that failure.
pub open spec fn decode_items<H: Hasher>(
    todo: Seq<BaoChunk>,
    stack: Seq<Digest>,
    encoded: Seq<u8>,
) -> (Seq<Content>, Result<(), DecodeError>)
    decreases todo.len(),
{
    if todo.len() == 0 {
        (Seq::empty(), Ok(()))
    } else {
        let (after, item) = decode_step::<H>(todo[0], stack, read_step(todo[0], encoded));
        match item {
            Err(e) => (Seq::empty(), Err(e)),
            Ok(content) => {
                let (items, res) = decode_items::<H>(
                    todo.skip(1),
                    after,
                    encoded.skip(step_bytes(todo[0])),
                );
                (seq![content] + items, res)
            },
        }
    }
}

/// Decoding writes and saves the items that it accepts, one by one, and nothing else.
pub proof fn law_decode_applies_items<O: Outboard + OutboardMut>(
    todo: Seq<BaoChunk>,
    stack: Seq<Digest>,
    encoded: Seq<u8>,
    target: Seq<u8>,
    st: <O as View>::V,
)
    ensures
        decode_run::<O>(todo, stack, encoded, target, st) == ({
            let (items, res) = decode_items::<<O as Outboard>::Hasher>(todo, stack, encoded);
            let (after, st1, saved) = apply_items::<O>(items, target, st);
            (
                after,
                st1,
                match saved {
                    Err(e) => Err::<(), DecodeError>(e),
                    Ok(_) => res,
                },
            )
        }),
    decreases todo.len(),
{
    if todo.len() > 0 {
        let step = todo[0];
        let (expected, item) = decode_step::<<O as Outboard>::Hasher>(
            step,
            stack,
            read_step(step, encoded),
        );
        let next = encoded.skip(step_bytes(step));
        if item is Ok {
            let content = item->Ok_0;
            let (items, res) = decode_items::<<O as Outboard>::Hasher>(
                todo.skip(1),
                expected,
                next,
            );
            let all = seq![content] + items;
            assert(all[0] == content);
            assert(all.skip(1) =~= items);
            match content {
                Content::Parent { node, pair } => {
                    let (st1, saved) = O::saved(st, node, pair);
                    if saved is Ok {
                        law_decode_applies_items::<O>(todo.skip(1), expected, next, target, st1);
                    }
                },
                Content::Leaf { offset, data } => {
                    law_decode_applies_items::<O>(
                        todo.skip(1),
                        expected,
                        next,
                        write_over(target, offset as int, data),
                        st,
                    );
                },
            }
        }
    }
}

/// Two items for the same place in the tree that have the same hash.
pub open spec fn same_hash<H: Hasher>(a: Content, b: Content, is_root: bool) -> bool {
    match (a, b) {
        (Content::Parent { node: n, pair: p }, Content::Parent { node, pair }) => {
            &&& n == node
            &&& H::inner_hash(p.0, p.1, is_root) == H::inner_hash(pair.0, pair.1, is_root)
        },
        (Content::Leaf { offset: o, data: d }, Content::Leaf { offset, data }) => {
            &&& o == offset
            &&& d.len() == data.len()
            &&& H::chunk_hash((o / 1024) as u64, d, is_root) == H::chunk_hash(
                (offset / 1024) as u64,
                data,
                is_root,
            )
        },
        _ => false,
    }
}

/// The items agree with those of the blob before the place `k`. There decoding failed, or it
/// accepted another item with the same hash.
pub open spec fn departs_at<H: Hasher>(
    items: Seq<Content>,
    res: Result<(), DecodeError>,
    truth: Seq<Content>,
    is_root: bool,
    k: int,
) -> bool {
    &&& 0 <= k < truth.len()
    &&& k <= items.len()
    &&& items.take(k) == truth.take(k)
    &&& if k == items.len() {
        res is Err
    } else {
        items[k] != truth[k] && same_hash::<H>(items[k], truth[k], is_root && k == 0)
    }
}

/// The items depart from those of the blob somewhere.
pub open spec fn departs<H: Hasher>(
    items: Seq<Content>,
    res: Result<(), DecodeError>,
    truth: Seq<Content>,
    is_root: bool,
) -> bool {
    exists|k: int| #[trigger] departs_at::<H>(items, res, truth, is_root, k)
}

/// Departing after a common part is departing.
proof fn lemma_departs_after<H: Hasher>(
    first: Seq<Content>,
    items: Seq<Content>,
    res: Result<(), DecodeError>,
    truth: Seq<Content>,
    more: Seq<Content>,
    is_root: bool,
)
    requires
        departs::<H>(items, res, truth, false),
        first.len() > 0,
    ensures
        departs::<H>(first + items, res, first + truth + more, is_root),
{
    let k = choose|k: int| #[trigger] departs_at::<H>(items, res, truth, false, k);
    let n = first.len() as int;
    let all = first + truth + more;
    assert((first + items).take(n + k) =~= first + items.take(k));
    assert(all.take(n + k) =~= first + truth.take(k));
    if k < items.len() {
        assert((first + items)[n + k] == items[k]);
        assert(all[n + k] == truth[k]);
    }
    assert(departs_at::<H>(first + items, res, all, is_root, n + k));
}

/// Either the items depart from those of the blob, or they start with them and go on with others.
spec fn follows<H: Hasher>(
    decoded: (Seq<Content>, Result<(), DecodeError>),
    truth: Seq<Content>,
    is_root: bool,
    next: (Seq<Content>, Result<(), DecodeError>),
) -> bool {
    ||| departs::<H>(decoded.0, decoded.1, truth, is_root)
    ||| decoded.0 == truth + next.0 && decoded.1 == next.1
}

/// Either the items depart from those of the blob, or they start with them and decoding goes on
/// behind them.
spec fn accepts<H: Hasher>(
    decoded: (Seq<Content>, Result<(), DecodeError>),
    truth: Seq<Content>,
    is_root: bool,
    rest: Seq<BaoChunk>,
    stack: Seq<Digest>,
) -> bool {
    exists|next: Seq<u8>|
        follows::<H>(decoded, truth, is_root, #[trigger] decode_items::<H>(rest, stack, next))
}

/// The items of a parent and of its two children.
proof fn lemma_follows_halves<H: Hasher>(
    whole: (Seq<Content>, Result<(), DecodeError>),
    own: Seq<Content>,
    a: Seq<Content>,
    b: Seq<Content>,
    is_root: bool,
    d1: (Seq<Content>, Result<(), DecodeError>),
    d2: (Seq<Content>, Result<(), DecodeError>),
    d3: (Seq<Content>, Result<(), DecodeError>),
)
    requires
        own.len() > 0,
        departs::<H>(whole.0, whole.1, own + a + b, is_root) || (whole.0 == own + d1.0 && whole.1
            == d1.1),
        follows::<H>(d1, a, false, d2),
        follows::<H>(d2, b, false, d3),
    ensures
        follows::<H>(whole, own + a + b, is_root, d3),
{
    if !departs::<H>(whole.0, whole.1, own + a + b, is_root) {
        if departs::<H>(d1.0, d1.1, a, false) {
            lemma_departs_after::<H>(own, d1.0, d1.1, a, b, is_root);
        } else {
            assert(whole.0 =~= (own + a) + d2.0);
            if departs::<H>(d2.0, d2.1, b, false) {
                let none = Seq::<Content>::empty();
                lemma_departs_after::<H>(own + a, d2.0, d2.1, b, none, is_root);
                assert(own + a + b + none =~= own + a + b);
            } else {
                assert(whole.0 =~= own + a + b + d3.0);
            }
        }
    }
}

/// Decoding a leaf for which the expected hash is right.
proof fn lemma_accept_leaf<H: Hasher>(
    w: Walk,
    s: int,
    m: int,
    is_root: bool,
    bytes: Seq<u8>,
    rest: Seq<BaoChunk>,
    stack: Seq<Digest>,
    encoded: Seq<u8>,
)
    requires
        0 <= w.size <= u64::MAX,
        in_tree(w.size, s, m),
        bytes.len() == byte_end(w.size, s, m) - byte_start(s),
        wanted(w.sel, s, m),
        w.stops(s, m),
    ensures
        accepts::<H>(
            decode_items::<H>(
                w.steps(s, m, is_root) + rest,
                stack.push(H::chunk_hash(s as u64, bytes, is_root)),
                encoded,
            ),
            seq![Content::Leaf { offset: byte_start(s) as u64, data: bytes }],
            is_root,
            rest,
            stack,
        ),
{
    lemma_leaf_count(w.size, s, m);
    let todo = w.steps(s, m, is_root) + rest;
    let expected = stack.push(H::chunk_hash(s as u64, bytes, is_root));
    let (items, res) = decode_items::<H>(todo, expected, encoded);
    let own = Content::Leaf { offset: byte_start(s) as u64, data: bytes };
    assert(todo[0] == leaf_chunk(w.size, s, m, is_root, full(w.sel, s, m)));
    assert(todo.skip(1) =~= rest);
    assert(expected.drop_last() =~= stack);
    assert(items.take(0) =~= seq![own].take(0));
    if items.len() == 0 || items[0] != own {
        assert(departs_at::<H>(items, res, seq![own], is_root, 0));
    }
    let next = decode_items::<H>(rest, stack, encoded.skip(bytes.len() as int));
    assert(follows::<H>((items, res), seq![own], is_root, next));
}

/// Decoding a parent for which the expected hash is right.
proof fn lemma_accept_parent<H: Hasher>(
    w: Walk,
    s: int,
    m: int,
    is_root: bool,
    pair: (Digest, Digest),
    truth: Seq<Content>,
    rest: Seq<BaoChunk>,
    stack: Seq<Digest>,
    encoded: Seq<u8>,
)
    requires
        !w.stops(s, m),
        wanted(w.sel, s, m),
    ensures
        ({
            let p = split_point(m);
            let own = seq![Content::Parent { node: TreeNode(node_number(s, m) as u64), pair }];
            let (items, res) = decode_items::<H>(
                w.steps(s, m, is_root) + rest,
                stack.push(H::inner_hash(pair.0, pair.1, is_root)),
                encoded,
            );
            let next = decode_items::<H>(
                w.steps(s, p, false) + (w.steps(s + p, m - p, false) + rest),
                with_children(stack, pair, wanted(w.sel, s, p), wanted(w.sel, s + p, m - p)),
                encoded.skip(64),
            );
            ||| departs::<H>(items, res, own + truth, is_root)
            ||| items == own + next.0 && res == next.1
        }),
{
    let p = split_point(m);
    lemma_split_point(m);
    let node = TreeNode(node_number(s, m) as u64);
    let own = Content::Parent { node, pair };
    let todo = w.steps(s, m, is_root) + rest;
    let a = w.steps(s, p, false);
    let b = w.steps(s + p, m - p, false);
    let expected = stack.push(H::inner_hash(pair.0, pair.1, is_root));
    let (items, res) = decode_items::<H>(todo, expected, encoded);
    assert(todo[0] == parent_chunk(
        s,
        m,
        is_root,
        wanted(w.sel, s, p),
        wanted(w.sel, s + p, m - p),
    ));
    assert(todo.skip(1) =~= a + (b + rest));
    assert(expected.drop_last() =~= stack);
    let all = seq![own] + truth;
    assert(items.take(0) =~= all.take(0));
    assert(all[0] == own);
    if items.len() == 0 || items[0] != own {
        assert(departs_at::<H>(items, res, all, is_root, 0));
    }
}

/// Decoding a subtree inside a chunk group for which the expected hash is right.
proof fn lemma_accept_selected<H: Hasher>(
    w: Walk,
    s: int,
    m: int,
    is_root: bool,
    bytes: Seq<u8>,
    rest: Seq<BaoChunk>,
    stack: Seq<Digest>,
    encoded: Seq<u8>,
)
    requires
        0 <= w.size <= u64::MAX,
        w.leaf == 1,
        in_tree(w.size, s, m),
        bytes.len() == byte_end(w.size, s, m) - byte_start(s),
        wanted(w.sel, s, m),
        m <= w.whole || m <= 1,
        inside_fits::<H>(bytes, w.whole, s, w.sel),
        m <= w.whole && full(w.sel, s, m) ==> H::chunk_hash(s as u64, bytes, is_root)
            == tree_hash::<H>(bytes, 1, s, is_root),
    ensures
        accepts::<H>(
            decode_items::<H>(
                w.steps(s, m, is_root) + rest,
                stack.push(tree_hash::<H>(bytes, 1, s, is_root)),
                encoded,
            ),
            selected_items::<H>(bytes, w.whole, s, w.sel),
            is_root,
            rest,
            stack,
        ),
    decreases m,
{
    let g = w.whole;
    lemma_leaf_count(w.size, s, m);
    assert(chunk_count(bytes) == m);
    if m <= 1 || (m <= g && full(w.sel, s, m)) {
        lemma_accept_leaf::<H>(w, s, m, is_root, bytes, rest, stack, encoded);
    } else {
        let p = split_point(m);
        lemma_split_point(m);
        lemma_halves(bytes);
        lemma_wanted_split(w.sel, s, m, p);
        let wl = wanted(w.sel, s, p);
        let wr = wanted(w.sel, s + p, m - p);
        let lb = left_half(bytes);
        let rb = right_half(bytes);
        let a = w.steps(s, p, false);
        let b = w.steps(s + p, m - p, false);
        let pair = root_pair::<H>(bytes, 1, s);
        let li = selected_items::<H>(lb, g, s, w.sel);
        let ri = selected_items::<H>(rb, g, s + p, w.sel);
        let node = TreeNode(node_number(s, m) as u64);
        let own = seq![Content::Parent { node, pair }];
        let truth = selected_items::<H>(bytes, g, s, w.sel);
        assert(truth =~= own + li + ri);
        assert(truth =~= own + (li + ri));
        let whole = decode_items::<H>(
            w.steps(s, m, is_root) + rest,
            stack.push(tree_hash::<H>(bytes, 1, s, is_root)),
            encoded,
        );
        lemma_accept_parent::<H>(w, s, m, is_root, pair, li + ri, rest, stack, encoded);
        let stack1 = if wr {
            stack.push(pair.1)
        } else {
            stack
        };
        let e1 = encoded.skip(64);
        let d1 = decode_items::<H>(a + (b + rest), with_children(stack, pair, wl, wr), e1);
        if wl {
            if full(w.sel, s, p) {
                lemma_inside_full::<H>(lb, g, s, w.sel);
            }
            lemma_accept_selected::<H>(w, s, p, false, lb, b + rest, stack1, e1);
        } else {
            assert(a + (b + rest) =~= b + rest);
            assert(li + d1.0 =~= d1.0);
            assert(follows::<H>(d1, li, false, decode_items::<H>(b + rest, stack1, e1)));
        }
        let e2 = choose|e: Seq<u8>|
            follows::<H>(d1, li, false, #[trigger] decode_items::<H>(b + rest, stack1, e));
        let d2 = decode_items::<H>(b + rest, stack1, e2);
        if wr {
            if full(w.sel, s + p, m - p) {
                lemma_inside_full::<H>(rb, g, s + p, w.sel);
            }
            lemma_accept_selected::<H>(w, s + p, m - p, false, rb, rest, stack, e2);
        } else {
            assert(b + rest =~= rest);
            assert(ri + d2.0 =~= d2.0);
            assert(follows::<H>(d2, ri, false, decode_items::<H>(rest, stack, e2)));
        }
        let e3 = choose|e: Seq<u8>|
            follows::<H>(d2, ri, false, #[trigger] decode_items::<H>(rest, stack, e));
        let d3 = decode_items::<H>(rest, stack, e3);
        lemma_follows_halves::<H>(whole, own, li, ri, is_root, d1, d2, d3);
        assert(follows::<H>(whole, truth, is_root, d3));
    }
}

/// Decoding a subtree for which the expected hash is right.
proof fn lemma_accept_response<H: Hasher>(
    w: Walk,
    s: int,
    m: int,
    is_root: bool,
    bytes: Seq<u8>,
    rest: Seq<BaoChunk>,
    stack: Seq<Digest>,
    encoded: Seq<u8>,
)
    requires
        0 <= w.size <= u64::MAX,
        w.leaf == 1,
        in_tree(w.size, s, m),
        bytes.len() == byte_end(w.size, s, m) - byte_start(s),
        wanted(w.sel, s, m),
        parts_fit::<H>(bytes, w.whole, s, w.sel, is_root),
    ensures
        accepts::<H>(
            decode_items::<H>(
                w.steps(s, m, is_root) + rest,
                stack.push(tree_hash::<H>(bytes, w.whole, s, is_root)),
                encoded,
            ),
            response_items::<H>(bytes, w.whole, s, w.sel),
            is_root,
            rest,
            stack,
        ),
    decreases m,
{
    let g = w.whole;
    lemma_leaf_count(w.size, s, m);
    assert(chunk_count(bytes) == m);
    if m <= 1 {
        let c = choose|c: int| s <= c < s + m && #[trigger] w.sel.contains(c);
        assert(c == s);
        assert(full(w.sel, s, m));
    }
    if m <= g || m <= 1 {
        if full(w.sel, s, m) {
            lemma_accept_leaf::<H>(w, s, m, is_root, bytes, rest, stack, encoded);
        } else {
            lemma_accept_selected::<H>(w, s, m, is_root, bytes, rest, stack, encoded);
        }
    } else {
        let p = split_point(m);
        lemma_split_point(m);
        lemma_halves(bytes);
        lemma_wanted_split(w.sel, s, m, p);
        let wl = wanted(w.sel, s, p);
        let wr = wanted(w.sel, s + p, m - p);
        let lb = left_half(bytes);
        let rb = right_half(bytes);
        let a = w.steps(s, p, false);
        let b = w.steps(s + p, m - p, false);
        let pair = root_pair::<H>(bytes, g, s);
        let li = response_items::<H>(lb, g, s, w.sel);
        let ri = response_items::<H>(rb, g, s + p, w.sel);
        let node = TreeNode(node_number(s, m) as u64);
        let own = seq![Content::Parent { node, pair }];
        let truth = response_items::<H>(bytes, g, s, w.sel);
        assert(truth =~= own + li + ri);
        assert(truth =~= own + (li + ri));
        let whole = decode_items::<H>(
            w.steps(s, m, is_root) + rest,
            stack.push(tree_hash::<H>(bytes, g, s, is_root)),
            encoded,
        );
        lemma_accept_parent::<H>(w, s, m, is_root, pair, li + ri, rest, stack, encoded);
        let stack1 = if wr {
            stack.push(pair.1)
        } else {
            stack
        };
        let e1 = encoded.skip(64);
        let d1 = decode_items::<H>(a + (b + rest), with_children(stack, pair, wl, wr), e1);
        if wl {
            lemma_accept_response::<H>(w, s, p, false, lb, b + rest, stack1, e1);
        } else {
            assert(a + (b + rest) =~= b + rest);
            assert(li + d1.0 =~= d1.0);
            assert(follows::<H>(d1, li, false, decode_items::<H>(b + rest, stack1, e1)));
        }
        let e2 = choose|e: Seq<u8>|
            follows::<H>(d1, li, false, #[trigger] decode_items::<H>(b + rest, stack1, e));
        let d2 = decode_items::<H>(b + rest, stack1, e2);
        if wr {
            lemma_accept_response::<H>(w, s + p, m - p, false, rb, rest, stack, e2);
        } else {
            assert(b + rest =~= rest);
            assert(ri + d2.0 =~= d2.0);
            assert(follows::<H>(d2, ri, false, decode_items::<H>(rest, stack, e2)));
        }
        let e3 = choose|e: Seq<u8>|
            follows::<H>(d2, ri, false, #[trigger] decode_items::<H>(rest, stack, e));
        let d3 = decode_items::<H>(rest, stack, e3);
        lemma_follows_halves::<H>(whole, own, li, ri, is_root, d1, d2, d3);
        assert(follows::<H>(whole, truth, is_root, d3));
    }
}

/// Decoding any input with the root hash of a blob either gives the items of the response for the
/// blob, or fails after some of them, or accepts an item that is not the blob's but has the same
/// hash: the first item in which what was accepted differs from the blob is a hash collision.
pub proof fn law_decode_accepts<H: Hasher>(
    tree: BaoTree,
    ranges: Set<int>,
    blob: Seq<u8>,
    encoded: Seq<u8>,
)
    requires
        tree.wf(),
        blob.len() == tree.size,
        parts_fit::<H>(blob, tree.group(), 0, selection(ranges, tree.total()), true),
    ensures
        ({
            let g = tree.group();
            let (items, res) = decode_items::<H>(
                Walk::response(tree, ranges).all_steps(),
                seq![tree_hash::<H>(blob, g, 0, true)],
                encoded,
            );
            let truth = response_items::<H>(blob, g, 0, selection(ranges, tree.total()));
            departs::<H>(items, res, truth, true) || (items == truth && res is Ok)
        }),
{
    let w = Walk::response(tree, ranges);
    let m = tree.total();
    let root = tree_hash::<H>(blob, tree.group(), 0, true);
    let none = Seq::<BaoChunk>::empty();
    assert(Seq::empty().push(root) =~= seq![root]);
    if wanted(w.sel, 0, m) {
        lemma_accept_response::<H>(w, 0, m, true, blob, none, Seq::empty(), encoded);
        assert(w.steps(0, m, true) + none =~= w.steps(0, m, true));
        let truth = response_items::<H>(blob, tree.group(), 0, w.sel);
        assert(truth + Seq::<Content>::empty() =~= truth);
        assert(forall|e: Seq<u8>| #[trigger]
            decode_items::<H>(none, Seq::empty(), e) == (
                Seq::<Content>::empty(),
                Ok::<(), DecodeError>(()),
            ));
    }
}

} // verus!
