//! What decoding takes from a response: which bytes go where, and what makes it fail.
use crate::content::{write_over, Content};
use crate::copy::LoadFn;
use crate::decode::{decode_run, decode_step, read_step, step_bytes};
use crate::encode::validated_run;
use crate::error::DecodeError;
use crate::geometry::{in_tree, lemma_split_point, node_number, split_point};
use crate::hash::{lemma_hash_bytes, Digest, Hasher};
use crate::iter::{parent_chunk, BaoChunk, Walk};
use crate::laws::accepted::{decode_items, law_decode_applies_items};
use crate::laws::queries::{
    law_response_chunks, law_response_leaf, lemma_steps_within, lemma_total,
};
use crate::laws::received::{
    leaves_over, lemma_apply_post, lemma_apply_pre, parents_of, selected_at,
};
use crate::laws::roundtrip::{apply_items, insides_fit};
use crate::laws::store::{distinct_nodes, lemma_save_slots};
use crate::laws::validated::{
    filled, law_validated_roundtrip_post_order, law_validated_roundtrip_pre_order,
};
use crate::laws::whole::{leaf_before, lemma_leaves};
use crate::laws::written::place;
use crate::outboard::{
    slot_of, Outboard, OutboardMut, OutboardState, PostOrderOutboard, PreOrderOutboard,
};
use crate::ranges::{selection, wanted};
use crate::tree::{BaoTree, TreeNode};
use vstd::prelude::*;

verus! {

/// The place of a step, counted from the second step on.
proof fn lemma_place_rest(steps: Seq<BaoChunk>, i: int)
    requires
        1 <= i <= steps.len(),
    ensures
        place(steps, i) == (match steps[0] {
            BaoChunk::Parent { .. } => 64,
            BaoChunk::Leaf { size, .. } => size as int,
        }) + place(steps.skip(1), i - 1),
    decreases i,
{
    if i > 1 {
        lemma_place_rest(steps, i - 1);
        assert(steps.skip(1)[i - 2] == steps[i - 1]);
    } else {
        assert(place(steps, 0) == 0);
    }
}

/// What was accepted for a step stands in the response: for a parent its two hashes, the left one
/// first, for a leaf its data, which belongs 1024 bytes into the blob for each chunk before it.
pub open spec fn taken_from(item: Content, step: BaoChunk, encoded: Seq<u8>, at: int) -> bool {
    match (step, item) {
        (BaoChunk::Parent { node, .. }, Content::Parent { node: x, pair }) => {
            &&& x == node
            &&& at + 64 <= encoded.len()
            &&& pair.0@ + pair.1@ == encoded.subrange(at, at + 64)
        },
        (BaoChunk::Leaf { start_chunk, size, .. }, Content::Leaf { offset, data }) => {
            &&& 1024 * start_chunk.0 <= u64::MAX ==> offset == 1024 * start_chunk.0
            &&& at + size <= encoded.len()
            &&& data == encoded.subrange(at, at + size)
        },
        _ => false,
    }
}

/// Each item that decoding accepts is taken from the place of its step in the response.
pub proof fn law_taken_at<H: Hasher>(
    todo: Seq<BaoChunk>,
    stack: Seq<Digest>,
    encoded: Seq<u8>,
    i: int,
)
    requires
        0 <= i < decode_items::<H>(todo, stack, encoded).0.len(),
    ensures
        i < todo.len(),
        0 <= place(todo, i),
        taken_from(
            decode_items::<H>(todo, stack, encoded).0[i],
            todo[i],
            encoded,
            place(todo, i),
        ),
    decreases todo.len(),
{
    if todo.len() > 0 {
        let step = todo[0];
        let rest = todo.skip(1);
        let n = step_bytes(step);
        let (after, item) = decode_step::<H>(step, stack, read_step(step, encoded));
        if item is Ok {
            let next = encoded.skip(n);
            let items = decode_items::<H>(todo, stack, encoded).0;
            let tail = decode_items::<H>(rest, after, next).0;
            assert(items =~= seq![item->Ok_0] + tail);
            if i == 0 {
                let own = encoded.take(n);
                assert(own =~= encoded.subrange(0, n));
                if step is Parent {
                    lemma_hash_bytes(own.subrange(0, 32));
                    lemma_hash_bytes(own.subrange(32, 64));
                    assert(own.subrange(0, 32) + own.subrange(32, 64) =~= own);
                }
            } else {
                assert(items[i] == tail[i - 1]);
                law_taken_at::<H>(rest, after, next, i - 1);
                assert(todo[i] == rest[i - 1]);
                lemma_place_rest(todo, i);
                let at = place(todo, i);
                let len = match todo[i] {
                    BaoChunk::Parent { .. } => 64,
                    BaoChunk::Leaf { size, .. } => size as int,
                };
                assert(next.subrange(at - n, at - n + len) =~= encoded.subrange(at, at + len));
            }
        }
    }
}

/// Decoding accepts one item for each step up to its first failure. It fails where the response ends
/// before what the step needs, or where what stands there does not have the expected hash; the error
/// says which, and for which node or chunk.
pub proof fn law_decoding_fails<H: Hasher>(
    todo: Seq<BaoChunk>,
    stack: Seq<Digest>,
    encoded: Seq<u8>,
)
    ensures
        ({
            let (items, res) = decode_items::<H>(todo, stack, encoded);
            let k = items.len() as int;
            &&& k <= todo.len()
            &&& 0 <= place(todo, k) <= encoded.len()
            &&& res is Ok <==> k == todo.len()
            &&& k < todo.len() ==> match todo[k] {
                BaoChunk::Parent { node, .. } => res == Err::<(), DecodeError>(
                    if place(todo, k) + 64 > encoded.len() {
                        DecodeError::ParentNotFound(node)
                    } else {
                        DecodeError::ParentHashMismatch(node)
                    },
                ),
                BaoChunk::Leaf { start_chunk, size, .. } => res == Err::<(), DecodeError>(
                    if place(todo, k) + size > encoded.len() {
                        DecodeError::LeafNotFound(start_chunk)
                    } else {
                        DecodeError::LeafHashMismatch(start_chunk)
                    },
                ),
            }
        }),
    decreases todo.len(),
{
    if todo.len() > 0 {
        let step = todo[0];
        let rest = todo.skip(1);
        let (after, item) = decode_step::<H>(step, stack, read_step(step, encoded));
        if item is Ok {
            let next = encoded.skip(step_bytes(step));
            law_decoding_fails::<H>(rest, after, next);
            let tail = decode_items::<H>(rest, after, next).0;
            let k = 1 + tail.len() as int;
            lemma_place_rest(todo, k);
            if k < todo.len() {
                assert(todo[k] == rest[k - 1]);
            }
        } else {
            assert(place(todo, 0) == 0);
        }
    }
}

/// A leaf among the items has the byte `b` of the blob.
spec fn item_has(item: Content, b: int) -> bool {
    item matches Content::Leaf { offset, data } && offset <= b < offset + data.len()
}

/// The leaves among the items follow each other without an overlap.
spec fn items_ascend(items: Seq<Content>) -> bool {
    forall|i: int, j: int|
        0 <= i < j < items.len() ==> (#[trigger] items[i] matches Content::Leaf { offset, data }
            ==> (#[trigger] items[j] matches Content::Leaf { offset: next, .. } ==> offset
            + data.len() <= next))
}

/// What a target has after the items were written over it.
proof fn lemma_leaves_over_at(target: Seq<u8>, items: Seq<Content>)
    requires
        items_ascend(items),
    ensures
        ({
            let after = leaves_over(target, items);
            &&& after.len() >= target.len()
            &&& forall|i: int, b: int|
                0 <= i < items.len() && #[trigger] item_has(items[i], b) ==> b < after.len()
                    && after[b] == items[i]->Leaf_data[b - items[i]->Leaf_offset]
            &&& forall|b: int|
                0 <= b < after.len() && (forall|i: int|
                    0 <= i < items.len() ==> !#[trigger] item_has(items[i], b)) ==> #[trigger] after[b]
                    == (if b < target.len() {
                    target[b]
                } else {
                    0u8
                })
            &&& after.len() > target.len() ==> exists|i: int|
                0 <= i < items.len() && (#[trigger] items[i] matches Content::Leaf { offset, data }
                    && after.len() == offset + data.len())
            &&& forall|i: int|
                0 <= i < items.len() ==> (#[trigger] items[i] matches Content::Leaf { offset, data }
                    ==> after.len() >= offset + data.len())
        }),
    decreases items.len(),
{
    if items.len() > 0 {
        let rest = items.skip(1);
        assert(forall|i: int| 0 <= i < rest.len() ==> rest[i] == items[i + 1]);
        let mid = match items[0] {
            Content::Parent { .. } => target,
            Content::Leaf { offset, data } => write_over(target, offset as int, data),
        };
        lemma_leaves_over_at(mid, rest);
        let after = leaves_over(mid, rest);
        assert(after == leaves_over(target, items));
        assert forall|i: int, b: int|
            0 <= i < items.len() && #[trigger] item_has(items[i], b) implies b < after.len()
            && after[b] == items[i]->Leaf_data[b - items[i]->Leaf_offset] by {
            if i > 0 {
                assert(item_has(rest[i - 1], b));
            } else {
                assert forall|j: int| 0 <= j < rest.len() implies !#[trigger] item_has(
                    rest[j],
                    b,
                ) by {
                    assert(rest[j] == items[j + 1]);
                    assert(items[0] is Leaf);
                    if item_has(items[j + 1], b) {
                        assert(items[j + 1] is Leaf);
                    }
                }
                assert(after[b] == mid[b]);
            }
        }
        assert forall|b: int|
            0 <= b < after.len() && (forall|i: int|
                0 <= i < items.len() ==> !#[trigger] item_has(items[i], b)) implies #[trigger] after[b]
            == (if b < target.len() {
            target[b]
        } else {
            0u8
        }) by {
            assert(!item_has(items[0], b));
            assert forall|j: int| 0 <= j < rest.len() implies !#[trigger] item_has(rest[j], b) by {
                assert(!item_has(items[j + 1], b));
            }
        }
        if after.len() > target.len() {
            if after.len() > mid.len() {
                let j = choose|j: int|
                    0 <= j < rest.len() && (#[trigger] rest[j] matches Content::Leaf {
                        offset,
                        data,
                    } && after.len() == offset + data.len());
                assert(items[j + 1] == rest[j]);
            } else {
                assert(items[0] is Leaf);
            }
        }
        assert forall|i: int| 0 <= i < items.len() implies (
        #[trigger] items[i] matches Content::Leaf { offset, data } ==> after.len() >= offset
            + data.len()) by {
            if i > 0 {
                assert(rest[i - 1] == items[i]);
            }
        }
    }
}

/// Where no save fails, the target gets the data of the leaves.
proof fn lemma_apply_target<O: OutboardMut>(items: Seq<Content>, target: Seq<u8>, st: O::V)
    requires
        apply_items::<O>(items, target, st).2 is Ok,
    ensures
        apply_items::<O>(items, target, st).0 == leaves_over(target, items),
    decreases items.len(),
{
    if items.len() > 0 {
        match items[0] {
            Content::Parent { node, pair } => {
                lemma_apply_target::<O>(items.skip(1), target, O::saved(st, node, pair).0);
            },
            Content::Leaf { offset, data } => {
                lemma_apply_target::<O>(items.skip(1), write_over(target, offset as int, data), st);
            },
        }
    }
}

/// The items that are taken for the steps of a response follow each other without an overlap.
proof fn lemma_taken_ascend<H: Hasher>(
    tree: BaoTree,
    ranges: Set<int>,
    stack: Seq<Digest>,
    encoded: Seq<u8>,
)
    requires
        tree.wf(),
    ensures
        items_ascend(
            decode_items::<H>(Walk::response(tree, ranges).all_steps(), stack, encoded).0,
        ),
{
    let w = Walk::response(tree, ranges);
    let steps = w.all_steps();
    let items = decode_items::<H>(steps, stack, encoded).0;
    lemma_leaves(w, 0, tree.total(), true);
    assert forall|i: int, j: int| 0 <= i < j < items.len() implies (
    #[trigger] items[i] matches Content::Leaf { offset, data } ==> (
    #[trigger] items[j] matches Content::Leaf { offset: next, .. } ==> offset + data.len()
        <= next)) by {
        law_taken_at::<H>(steps, stack, encoded, i);
        law_taken_at::<H>(steps, stack, encoded, j);
        assert(leaf_before(steps[i], steps[j]));
        law_response_leaf(tree, ranges, i);
        law_response_leaf(tree, ranges, j);
    }
}

/// Where decoding a response succeeds, the target has at each byte of a leaf what stands in the
/// response at the place of the leaf, as far behind that as the byte lies behind the leaf's start. A
/// byte `b` of a chunk that the query does not ask for is as it was, or zero where the target ended
/// before. The target does not get longer than the leaves need.
pub proof fn law_decoded_target<O: Outboard + OutboardMut>(
    tree: BaoTree,
    ranges: Set<int>,
    root: Digest,
    encoded: Seq<u8>,
    target: Seq<u8>,
    st: <O as View>::V,
    n: int,
    i: int,
    b: int,
)
    requires
        tree.wf(),
        n >= 1,
        tree.size <= 1024 * n,
        n == 1 || 1024 * (n - 1) < tree.size,
        decode_run::<O>(
            Walk::response(tree, ranges).all_steps(),
            seq![root],
            encoded,
            target,
            st,
        ).2 is Ok,
    ensures
        ({
            let steps = Walk::response(tree, ranges).all_steps();
            let after = decode_run::<O>(steps, seq![root], encoded, target, st).0;
            let c = b / 1024;
            &&& place(steps, steps.len() as int) <= encoded.len()
            &&& after.len() >= target.len()
            &&& after.len() == target.len() || after.len() <= tree.size
            &&& 0 <= i < steps.len() ==> (steps[i] matches BaoChunk::Leaf { start_chunk, size, .. }
                ==> {
                &&& 0 <= place(steps, i)
                &&& place(steps, i) + size <= encoded.len()
                &&& 1024 * start_chunk.0 + size <= after.len()
                &&& after.subrange(1024 * start_chunk.0, 1024 * start_chunk.0 + size)
                    == encoded.subrange(place(steps, i), place(steps, i) + size)
            })
            &&& 0 <= b < after.len() && (b >= tree.size || !(if c < n - 1 {
                ranges.contains(c)
            } else {
                exists|d: int| d >= n - 1 && #[trigger] ranges.contains(d)
            })) ==> after[b] == (if b < target.len() {
                target[b]
            } else {
                0u8
            })
        }),
{
    let steps = Walk::response(tree, ranges).all_steps();
    let stack = seq![root];
    let items = decode_items::<<O as Outboard>::Hasher>(steps, stack, encoded).0;
    law_decode_applies_items::<O>(steps, stack, encoded, target, st);
    law_decoding_fails::<<O as Outboard>::Hasher>(steps, stack, encoded);
    lemma_apply_target::<O>(items, target, st);
    lemma_taken_ascend::<<O as Outboard>::Hasher>(tree, ranges, stack, encoded);
    lemma_leaves_over_at(target, items);
    let after = leaves_over(target, items);
    if after.len() > target.len() {
        let j = choose|j: int|
            0 <= j < items.len() && (#[trigger] items[j] matches Content::Leaf { offset, data }
                && after.len() == offset + data.len());
        law_taken_at::<<O as Outboard>::Hasher>(steps, stack, encoded, j);
        law_response_leaf(tree, ranges, j);
    }
    if 0 <= i < steps.len() && steps[i] is Leaf {
        law_taken_at::<<O as Outboard>::Hasher>(steps, stack, encoded, i);
        law_response_leaf(tree, ranges, i);
        let at = place(steps, i);
        if let BaoChunk::Leaf { start_chunk, size, .. } = steps[i] {
            let from = 1024 * start_chunk.0;
            assert forall|k: int| 0 <= k < size implies #[trigger] after.subrange(
                from,
                from + size,
            )[k] == encoded.subrange(at, at + size)[k] by {
                assert(item_has(items[i], from + k));
            }
            assert(after.subrange(from, from + size) =~= encoded.subrange(at, at + size));
        }
    }
    let c = b / 1024;
    if 0 <= b < after.len() && (b >= tree.size || !(if c < n - 1 {
        ranges.contains(c)
    } else {
        exists|d: int| d >= n - 1 && #[trigger] ranges.contains(d)
    })) {
        assert forall|k: int| 0 <= k < items.len() implies !#[trigger] item_has(items[k], b) by {
            law_taken_at::<<O as Outboard>::Hasher>(steps, stack, encoded, k);
            law_response_leaf(tree, ranges, k);
            if item_has(items[k], b) {
                law_response_chunks(tree, ranges, n, c);
                assert(steps[k] is Leaf);
            }
        }
    }
}

/// Where decoding fails for another reason than a save, target and outboard are as if the response
/// had been that of the steps before the one that failed.
pub proof fn law_decoding_stops<O: Outboard + OutboardMut>(
    todo: Seq<BaoChunk>,
    stack: Seq<Digest>,
    encoded: Seq<u8>,
    target: Seq<u8>,
    st: <O as View>::V,
)
    ensures
        ({
            let (items, res) = decode_items::<<O as Outboard>::Hasher>(todo, stack, encoded);
            let k = items.len() as int;
            let (after, st1, res1) = decode_run::<O>(todo, stack, encoded, target, st);
            let (after2, st2, res2) = decode_run::<O>(todo.take(k), stack, encoded, target, st);
            &&& after == after2
            &&& st1 == st2
            &&& res2 is Ok ==> res1 == res
            &&& res2 is Err ==> res1 == res2
        }),
    decreases todo.len(),
{
    if todo.len() == 0 {
        assert(todo.take(0) =~= todo);
    } else {
        let step = todo[0];
        let rest = todo.skip(1);
        let (after, item) = decode_step::<<O as Outboard>::Hasher>(
            step,
            stack,
            read_step(step, encoded),
        );
        if item is Ok {
            let next = encoded.skip(step_bytes(step));
            let tail = decode_items::<<O as Outboard>::Hasher>(rest, after, next).0;
            law_decoding_fails::<<O as Outboard>::Hasher>(rest, after, next);
            let k = 1 + tail.len() as int;
            assert(todo.take(k)[0] == step);
            assert(todo.take(k).skip(1) =~= rest.take(k - 1));
            match item->Ok_0 {
                Content::Parent { node, pair } => {
                    let (st1, saved) = O::saved(st, node, pair);
                    if saved is Ok {
                        law_decoding_stops::<O>(rest, after, next, target, st1);
                    }
                },
                Content::Leaf { offset, data } => {
                    law_decoding_stops::<O>(
                        rest,
                        after,
                        next,
                        write_over(target, offset as int, data),
                        st,
                    );
                },
            }
        } else {
            assert(todo.take(0) =~= Seq::empty());
        }
    }
}

/// No two parents among the steps of a walk are the same node.
proof fn lemma_parents_differ(w: Walk, s: int, m: int, is_root: bool, i: int, j: int)
    requires
        0 <= w.size <= u64::MAX,
        in_tree(w.size, s, m),
        0 <= i < j < w.steps(s, m, is_root).len(),
    ensures
        w.steps(s, m, is_root)[i] matches BaoChunk::Parent { node, .. } ==> (w.steps(
            s,
            m,
            is_root,
        )[j] matches BaoChunk::Parent { node: other, .. } ==> node != other),
    decreases m,
{
    let steps = w.steps(s, m, is_root);
    if !w.stops(s, m) {
        let h = split_point(m);
        lemma_split_point(m);
        let a = w.steps(s, h, false);
        let b = w.steps(s + h, m - h, false);
        let r = node_number(s, m);
        assert(r as u64 == r);
        assert(steps[0] == parent_chunk(
            s,
            m,
            is_root,
            wanted(w.sel, s, h),
            wanted(w.sel, s + h, m - h),
        ));
        if j < 1 + a.len() {
            assert(steps[j] == a[j - 1]);
            lemma_steps_within(w, s, h, false, j - 1);
        } else {
            assert(steps[j] == b[j - 1 - a.len()]);
            lemma_steps_within(w, s + h, m - h, false, j - 1 - a.len());
        }
        if 1 <= i < 1 + a.len() {
            assert(steps[i] == a[i - 1]);
            lemma_steps_within(w, s, h, false, i - 1);
            if j < 1 + a.len() {
                lemma_parents_differ(w, s, h, false, i - 1, j - 1);
            }
        } else if i >= 1 + a.len() {
            assert(steps[i] == b[i - 1 - a.len()]);
            lemma_parents_differ(w, s + h, m - h, false, i - 1 - a.len(), j - 1 - a.len());
        }
    }
}

/// Each hash pair among the items is one of the items.
proof fn lemma_parents_from(items: Seq<Content>, k: int) -> (i: int)
    requires
        0 <= k < parents_of(items).len(),
    ensures
        0 <= i < items.len(),
        items[i] == (Content::Parent {
            node: parents_of(items)[k].node,
            pair: parents_of(items)[k].pair,
        }),
    decreases items.len(),
{
    let rest = items.skip(1);
    match items[0] {
        Content::Parent { .. } => if k == 0 {
            0
        } else {
            assert(parents_of(items)[k] == parents_of(rest)[k - 1]);
            let i = lemma_parents_from(rest, k - 1);
            assert(rest[i] == items[i + 1]);
            i + 1
        },
        Content::Leaf { .. } => {
            let i = lemma_parents_from(rest, k);
            assert(rest[i] == items[i + 1]);
            i + 1
        },
    }
}

/// Each hash pair that is one of the items is among them.
proof fn lemma_parents_have(items: Seq<Content>, i: int) -> (k: int)
    requires
        0 <= i < items.len(),
        items[i] is Parent,
    ensures
        0 <= k < parents_of(items).len(),
        items[i] == (Content::Parent {
            node: parents_of(items)[k].node,
            pair: parents_of(items)[k].pair,
        }),
    decreases items.len(),
{
    let rest = items.skip(1);
    if i == 0 {
        0
    } else {
        assert(items[i] == rest[i - 1]);
        let k = lemma_parents_have(rest, i - 1);
        match items[0] {
            Content::Parent { .. } => {
                assert(parents_of(items)[k + 1] == parents_of(rest)[k]);
                k + 1
            },
            Content::Leaf { .. } => k,
        }
    }
}

/// Items for different nodes have hash pairs for different nodes.
proof fn lemma_parents_distinct(items: Seq<Content>)
    requires
        forall|i: int, j: int|
            0 <= i < j < items.len() ==> (#[trigger] items[i] matches Content::Parent { node, .. }
                ==> (#[trigger] items[j] matches Content::Parent { node: other, .. } ==> node
                != other)),
    ensures
        distinct_nodes(parents_of(items)),
    decreases items.len(),
{
    if items.len() > 0 {
        let rest = items.skip(1);
        assert(forall|i: int| 0 <= i < rest.len() ==> rest[i] == items[i + 1]);
        lemma_parents_distinct(rest);
        let all = parents_of(items);
        let tail = parents_of(rest);
        assert forall|i: int, j: int| 0 <= i < j < all.len() implies all[i].node
            != all[j].node by {
            if items[0] is Parent {
                assert(all[j] == tail[j - 1]);
                if i == 0 {
                    let k = lemma_parents_from(rest, j - 1);
                    assert(items[k + 1] == rest[k]);
                } else {
                    assert(all[i] == tail[i - 1]);
                }
            }
        }
    }
}

/// The hash pairs that decoding a response accepts are for different nodes.
proof fn lemma_taken_distinct<H: Hasher>(
    tree: BaoTree,
    ranges: Set<int>,
    stack: Seq<Digest>,
    encoded: Seq<u8>,
)
    requires
        tree.wf(),
    ensures
        distinct_nodes(
            parents_of(
                decode_items::<H>(Walk::response(tree, ranges).all_steps(), stack, encoded).0,
            ),
        ),
{
    let w = Walk::response(tree, ranges);
    let steps = w.all_steps();
    let items = decode_items::<H>(steps, stack, encoded).0;
    assert forall|i: int, j: int| 0 <= i < j < items.len() implies (
    #[trigger] items[i] matches Content::Parent { node, .. } ==> (
    #[trigger] items[j] matches Content::Parent { node: other, .. } ==> node != other)) by {
        law_taken_at::<H>(steps, stack, encoded, i);
        law_taken_at::<H>(steps, stack, encoded, j);
        lemma_parents_differ(w, 0, tree.total(), true, i, j);
    }
    lemma_parents_distinct(items);
}

/// Where decoding a response into a pre order outboard succeeds, the outboard has for each tracked
/// node of the response the two hashes that stand at the place of the node. For a node that is not
/// in the response it has what it had, if it had something.
pub proof fn law_decoded_pairs_pre_order<H: Hasher>(
    st: OutboardState,
    ranges: Set<int>,
    root: Digest,
    encoded: Seq<u8>,
    target: Seq<u8>,
    i: int,
    x: TreeNode,
)
    requires
        st.tree.wf(),
        decode_run::<PreOrderOutboard<H>>(
            Walk::response(st.tree, ranges).all_steps(),
            seq![root],
            encoded,
            target,
            st,
        ).2 is Ok,
    ensures
        ({
            let steps = Walk::response(st.tree, ranges).all_steps();
            let st1 = decode_run::<PreOrderOutboard<H>>(
                steps,
                seq![root],
                encoded,
                target,
                st,
            ).1;
            &&& st1.root == st.root && st1.tree == st.tree
            &&& 0 <= i < steps.len() ==> (steps[i] matches BaoChunk::Parent { node, .. } ==> (
            st.tree.pre_order_nodes().contains(node.0 as int) ==> {
                &&& PreOrderOutboard::<H>::stored_in(st1, node)
                &&& PreOrderOutboard::<H>::load_from(st1, node) matches Ok(Some(pair)) && pair.0@
                    + pair.1@ == encoded.subrange(place(steps, i), place(steps, i) + 64)
            }))
            &&& PreOrderOutboard::<H>::stored_in(st, x) && (forall|k: int|
                0 <= k < steps.len() ==> (#[trigger] steps[k] matches BaoChunk::Parent { node, .. }
                    ==> node != x)) ==> PreOrderOutboard::<H>::load_from(st1, x)
                == PreOrderOutboard::<H>::load_from(st, x)
        }),
{
    let steps = Walk::response(st.tree, ranges).all_steps();
    let stack = seq![root];
    let items = decode_items::<H>(steps, stack, encoded).0;
    law_decode_applies_items::<PreOrderOutboard<H>>(steps, stack, encoded, target, st);
    law_decoding_fails::<H>(steps, stack, encoded);
    lemma_apply_pre::<H>(items, target, st);
    lemma_taken_distinct::<H>(st.tree, ranges, stack, encoded);
    let nodes = st.tree.pre_order_nodes();
    let pairs = parents_of(items);
    lemma_save_slots(st.data, nodes, pairs);
    if 0 <= i < steps.len() && steps[i] is Parent {
        law_taken_at::<H>(steps, stack, encoded, i);
        let k = lemma_parents_have(items, i);
        assert(pairs[k].node == steps[i]->Parent_node);
    }
    if PreOrderOutboard::<H>::stored_in(st, x) && (forall|k: int|
        0 <= k < steps.len() ==> (#[trigger] steps[k] matches BaoChunk::Parent { node, .. } ==> node
            != x)) {
        assert forall|k: int| 0 <= k < pairs.len() implies pairs[k].node != x by {
            let j = lemma_parents_from(items, k);
            law_taken_at::<H>(steps, stack, encoded, j);
            assert(steps[j] is Parent);
        }
        assert(slot_of(nodes, x) is Some);
    }
}

/// As `law_decoded_pairs_pre_order`, for a post order outboard.
pub proof fn law_decoded_pairs_post_order<H: Hasher>(
    st: OutboardState,
    ranges: Set<int>,
    root: Digest,
    encoded: Seq<u8>,
    target: Seq<u8>,
    i: int,
    x: TreeNode,
)
    requires
        st.tree.wf(),
        decode_run::<PostOrderOutboard<H>>(
            Walk::response(st.tree, ranges).all_steps(),
            seq![root],
            encoded,
            target,
            st,
        ).2 is Ok,
    ensures
        ({
            let steps = Walk::response(st.tree, ranges).all_steps();
            let st1 = decode_run::<PostOrderOutboard<H>>(
                steps,
                seq![root],
                encoded,
                target,
                st,
            ).1;
            &&& st1.root == st.root && st1.tree == st.tree
            &&& 0 <= i < steps.len() ==> (steps[i] matches BaoChunk::Parent { node, .. } ==> (
            st.tree.post_order_nodes().contains(node.0 as int) ==> {
                &&& PostOrderOutboard::<H>::stored_in(st1, node)
                &&& PostOrderOutboard::<H>::load_from(st1, node) matches Ok(Some(pair)) && pair.0@
                    + pair.1@ == encoded.subrange(place(steps, i), place(steps, i) + 64)
            }))
            &&& PostOrderOutboard::<H>::stored_in(st, x) && (forall|k: int|
                0 <= k < steps.len() ==> (#[trigger] steps[k] matches BaoChunk::Parent { node, .. }
                    ==> node != x)) ==> PostOrderOutboard::<H>::load_from(st1, x)
                == PostOrderOutboard::<H>::load_from(st, x)
        }),
{
    let steps = Walk::response(st.tree, ranges).all_steps();
    let stack = seq![root];
    let items = decode_items::<H>(steps, stack, encoded).0;
    law_decode_applies_items::<PostOrderOutboard<H>>(steps, stack, encoded, target, st);
    law_decoding_fails::<H>(steps, stack, encoded);
    lemma_apply_post::<H>(items, target, st);
    lemma_taken_distinct::<H>(st.tree, ranges, stack, encoded);
    let nodes = st.tree.post_order_nodes();
    let pairs = parents_of(items);
    lemma_save_slots(st.data, nodes, pairs);
    if 0 <= i < steps.len() && steps[i] is Parent {
        law_taken_at::<H>(steps, stack, encoded, i);
        let k = lemma_parents_have(items, i);
        assert(pairs[k].node == steps[i]->Parent_node);
    }
    if PostOrderOutboard::<H>::stored_in(st, x) && (forall|k: int|
        0 <= k < steps.len() ==> (#[trigger] steps[k] matches BaoChunk::Parent { node, .. } ==> node
            != x)) {
        assert forall|k: int| 0 <= k < pairs.len() implies pairs[k].node != x by {
            let j = lemma_parents_from(items, k);
            law_taken_at::<H>(steps, stack, encoded, j);
            assert(steps[j] is Parent);
        }
        assert(slot_of(nodes, x) is Some);
    }
}

/// Where a sender encodes the answer to a query with validation and without a failure, and a receiver
/// with a pre order outboard, the same root hash and the same tree decodes it, the receiver
/// succeeds. A byte `b` of a chunk that the query asks for is then that of the sender's data, and
/// every other byte is as it was, or zero where the target ended before.
pub proof fn law_sent_and_taken_pre_order<H: Hasher>(
    load: LoadFn,
    data: Seq<u8>,
    st: OutboardState,
    ranges: Set<int>,
    target: Seq<u8>,
    n: int,
    b: int,
)
    requires
        st.tree.wf(),
        n >= 1,
        st.tree.size <= 1024 * n,
        n == 1 || 1024 * (n - 1) < st.tree.size,
        insides_fit::<H>(
            filled(data, st.tree.size as int),
            st.tree.group(),
            0,
            selection(ranges, n),
        ),
        validated_run::<H>(
            load,
            st.tree.group(),
            selection(ranges, n),
            Walk::encode(st.tree, ranges).all_steps(),
            seq![st.root],
            data,
        ).1 is Ok,
    ensures
        ({
            let encoded = validated_run::<H>(
                load,
                st.tree.group(),
                selection(ranges, n),
                Walk::encode(st.tree, ranges).all_steps(),
                seq![st.root],
                data,
            ).0;
            let (after, st1, res) = decode_run::<PreOrderOutboard<H>>(
                Walk::response(st.tree, ranges).all_steps(),
                seq![st.root],
                encoded,
                target,
                st,
            );
            let asked = if b / 1024 < n - 1 {
                ranges.contains(b / 1024)
            } else {
                exists|d: int| d >= n - 1 && #[trigger] ranges.contains(d)
            };
            &&& res is Ok
            &&& 0 <= b < st.tree.size && asked ==> b < data.len() && b < after.len() && after[b]
                == data[b]
            &&& 0 <= b < after.len() && !(b < st.tree.size && asked) ==> after[b] == (if b
                < target.len() {
                target[b]
            } else {
                0u8
            })
            &&& after.len() >= target.len()
        }),
{
    lemma_total(st.tree, n);
    let sel = selection(ranges, n);
    let size = st.tree.size as int;
    law_validated_roundtrip_pre_order::<H>(load, data, st, ranges, target);
    assert(selected_at(sel, 0, size, b) <==> 0 <= b < size && sel.contains(b / 1024));
}

/// Where a sender encodes the answer to a query with validation and without a failure, and a receiver
/// with a post order outboard, the same root hash and the same tree decodes it, the receiver
/// succeeds. A byte `b` of a chunk that the query asks for is then that of the sender's data, and
/// every other byte is as it was, or zero where the target ended before.
pub proof fn law_sent_and_taken_post_order<H: Hasher>(
    load: LoadFn,
    data: Seq<u8>,
    st: OutboardState,
    ranges: Set<int>,
    target: Seq<u8>,
    n: int,
    b: int,
)
    requires
        st.tree.wf(),
        n >= 1,
        st.tree.size <= 1024 * n,
        n == 1 || 1024 * (n - 1) < st.tree.size,
        insides_fit::<H>(
            filled(data, st.tree.size as int),
            st.tree.group(),
            0,
            selection(ranges, n),
        ),
        validated_run::<H>(
            load,
            st.tree.group(),
            selection(ranges, n),
            Walk::encode(st.tree, ranges).all_steps(),
            seq![st.root],
            data,
        ).1 is Ok,
    ensures
        ({
            let encoded = validated_run::<H>(
                load,
                st.tree.group(),
                selection(ranges, n),
                Walk::encode(st.tree, ranges).all_steps(),
                seq![st.root],
                data,
            ).0;
            let (after, st1, res) = decode_run::<PostOrderOutboard<H>>(
                Walk::response(st.tree, ranges).all_steps(),
                seq![st.root],
                encoded,
                target,
                st,
            );
            let asked = if b / 1024 < n - 1 {
                ranges.contains(b / 1024)
            } else {
                exists|d: int| d >= n - 1 && #[trigger] ranges.contains(d)
            };
            &&& res is Ok
            &&& 0 <= b < st.tree.size && asked ==> b < data.len() && b < after.len() && after[b]
                == data[b]
            &&& 0 <= b < after.len() && !(b < st.tree.size && asked) ==> after[b] == (if b
                < target.len() {
                target[b]
            } else {
                0u8
            })
            &&& after.len() >= target.len()
        }),
{
    lemma_total(st.tree, n);
    let sel = selection(ranges, n);
    let size = st.tree.size as int;
    law_validated_roundtrip_post_order::<H>(load, data, st, ranges, target);
    assert(selected_at(sel, 0, size, b) <==> 0 <= b < size && sel.contains(b / 1024));
}

} // verus!
