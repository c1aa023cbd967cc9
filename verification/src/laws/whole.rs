//! The leaves and the length of a whole response.
use crate::content::Content;
use crate::decode::{decode_step, read_step, step_bytes};
use crate::geometry::{
    byte_end, byte_start, in_tree, lemma_split_point, split_point, tree_chunks,
};
use crate::hash::{Digest, Hasher};
use crate::iter::{leaf_chunk, lemma_leaf_count, BaoChunk, Walk};
use crate::laws::accepted::decode_items;
use crate::ranges::{full, selection, wanted};
use crate::tree::BaoTree;
use vstd::prelude::*;

verus! {

/// The leaves among the steps lie in the subtree.
pub open spec fn leaves_within(steps: Seq<BaoChunk>, size: int, s: int, m: int) -> bool {
    forall|i: int|
        0 <= i < steps.len() ==> (#[trigger] steps[i] matches BaoChunk::Leaf {
            start_chunk,
            size: len,
            ..
        } ==> {
            &&& s <= start_chunk.0
            &&& start_chunk.0 + tree_chunks(len as int) <= s + m
            &&& byte_start(start_chunk.0 as int) + len <= byte_end(size, s, m)
        })
}

/// Each leaf starts behind the end of those before it, and behind their start.
pub open spec fn leaves_ascend(steps: Seq<BaoChunk>) -> bool {
    forall|i: int, j: int|
        0 <= i < j < steps.len() ==> leaf_before(#[trigger] steps[i], #[trigger] steps[j])
}

/// If both steps are leaves, the first one ends before the second one starts.
pub open spec fn leaf_before(a: BaoChunk, b: BaoChunk) -> bool {
    match (a, b) {
        (
            BaoChunk::Leaf { start_chunk, size, .. },
            BaoChunk::Leaf { start_chunk: next, .. },
        ) => {
            &&& start_chunk.0 < next.0
            &&& start_chunk.0 + tree_chunks(size as int) <= next.0
            &&& byte_start(start_chunk.0 as int) + size <= byte_start(next.0 as int)
        },
        _ => true,
    }
}

/// The step is a leaf that holds the chunk `c`.
pub open spec fn leaf_holds(step: BaoChunk, c: int) -> bool {
    step matches BaoChunk::Leaf { start_chunk, size, .. } && start_chunk.0 <= c < start_chunk.0
        + tree_chunks(size as int)
}

/// A leaf among the steps holds the chunk `c`.
pub open spec fn leaves_hold(steps: Seq<BaoChunk>, c: int) -> bool {
    exists|i: int| 0 <= i < steps.len() && leaf_holds(#[trigger] steps[i], c)
}

pub proof fn lemma_leaves(w: Walk, s: int, m: int, is_root: bool)
    requires
        0 <= w.size <= u64::MAX,
        in_tree(w.size, s, m),
    ensures
        leaves_within(w.steps(s, m, is_root), w.size, s, m),
        leaves_ascend(w.steps(s, m, is_root)),
        forall|c: int|
            s <= c < s + m && #[trigger] w.sel.contains(c) ==> leaves_hold(
                w.steps(s, m, is_root),
                c,
            ),
        w.leaf <= 1 ==> forall|c: int|
            leaves_hold(w.steps(s, m, is_root), c) ==> #[trigger] w.sel.contains(c),
    decreases m,
{
    lemma_leaf_count(w.size, s, m);
    let steps = w.steps(s, m, is_root);
    if !wanted(w.sel, s, m) {
    } else if w.stops(s, m) {
        let all = full(w.sel, s, m);
        assert(steps[0] == leaf_chunk(w.size, s, m, is_root, all));
        if m <= 1 {
            let c = choose|c: int| s <= c < s + m && #[trigger] w.sel.contains(c);
            assert(c == s);
        }
        assert forall|c: int| s <= c < s + m && #[trigger] w.sel.contains(c) implies leaves_hold(
            steps,
            c,
        ) by {
            assert(leaf_holds(steps[0], c));
        }
    } else {
        let p = split_point(m);
        lemma_split_point(m);
        lemma_leaves(w, s, p, false);
        lemma_leaves(w, s + p, m - p, false);
        let a = w.steps(s, p, false);
        let b = w.steps(s + p, m - p, false);
        let n = 1 + a.len();
        assert(forall|i: int| 1 <= i < n ==> steps[i] == a[i - 1]);
        assert(forall|i: int| n <= i < steps.len() ==> steps[i] == b[i - n]);
        assert(steps.len() == n + b.len());
        assert forall|i: int| 0 <= i < steps.len() implies (
        #[trigger] steps[i] matches BaoChunk::Leaf { start_chunk, size: len, .. } ==> {
            &&& s <= start_chunk.0
            &&& start_chunk.0 + tree_chunks(len as int) <= s + m
            &&& byte_start(start_chunk.0 as int) + len <= byte_end(w.size, s, m)
        }) by {
            if 1 <= i < n {
                assert(steps[i] == a[i - 1]);
            } else if i >= n {
                assert(steps[i] == b[i - n]);
            }
        }
        assert forall|i: int, j: int| 0 <= i < j < steps.len() implies leaf_before(
            #[trigger] steps[i],
            #[trigger] steps[j],
        ) by {
            if i >= 1 {
                if j < n {
                    assert(leaf_before(a[i - 1], a[j - 1]));
                } else if i >= n {
                    assert(leaf_before(b[i - n], b[j - n]));
                } else {
                    assert(steps[i] == a[i - 1]);
                    assert(steps[j] == b[j - n]);
                }
            }
        }
        assert forall|c: int| s <= c < s + m && #[trigger] w.sel.contains(c) implies leaves_hold(
            steps,
            c,
        ) by {
            if c < s + p {
                let i = choose|i: int| 0 <= i < a.len() && leaf_holds(#[trigger] a[i], c);
                assert(leaf_holds(steps[1 + i], c));
            } else {
                let i = choose|i: int| 0 <= i < b.len() && leaf_holds(#[trigger] b[i], c);
                assert(leaf_holds(steps[n + i], c));
            }
        }
        if w.leaf <= 1 {
            assert forall|c: int| leaves_hold(steps, c) implies #[trigger] w.sel.contains(c) by {
                let i = choose|i: int| 0 <= i < steps.len() && leaf_holds(#[trigger] steps[i], c);
                if i < n {
                    assert(leaf_holds(a[i - 1], c));
                    assert(leaves_hold(a, c));
                } else {
                    assert(leaf_holds(b[i - n], c));
                    assert(leaves_hold(b, c));
                }
            }
        }
    }
}

/// The leaves of a whole response ascend strictly, do not overlap and lie in the blob. They hold
/// every chunk that is selected, and no other.
pub proof fn law_response_leaves(tree: BaoTree, ranges: Set<int>)
    requires
        tree.wf(),
    ensures
        ({
            let steps = Walk::response(tree, ranges).all_steps();
            &&& leaves_ascend(steps)
            &&& leaves_within(steps, tree.size as int, 0, tree.total())
            &&& forall|c: int|
                0 <= c < tree.total() ==> (#[trigger] selection(ranges, tree.total()).contains(c)
                    <==> leaves_hold(steps, c))
        }),
{
    lemma_leaves(Walk::response(tree, ranges), 0, tree.total(), true);
}

/// The leaves from which a response is written ascend strictly, do not overlap and lie in the blob.
/// They hold every chunk that is selected.
pub proof fn law_encode_leaves(tree: BaoTree, ranges: Set<int>)
    requires
        tree.wf(),
    ensures
        ({
            let steps = Walk::encode(tree, ranges).all_steps();
            &&& leaves_ascend(steps)
            &&& leaves_within(steps, tree.size as int, 0, tree.total())
            &&& forall|c: int|
                0 <= c < tree.total() && #[trigger] selection(ranges, tree.total()).contains(c)
                    ==> leaves_hold(steps, c)
        }),
{
    lemma_leaves(Walk::encode(tree, ranges), 0, tree.total(), true);
}

/// Number of bytes of the response for the steps.
pub open spec fn steps_length(todo: Seq<BaoChunk>) -> int
    decreases todo.len(),
{
    if todo.len() == 0 {
        0
    } else {
        step_bytes(todo[0]) + steps_length(todo.skip(1))
    }
}

/// Number of bytes that items take in a response: 64 for a hash pair, and the length of the data.
pub open spec fn items_length(items: Seq<Content>) -> int
    decreases items.len(),
{
    if items.len() == 0 {
        0
    } else {
        (match items[0] {
            Content::Parent { .. } => 64,
            Content::Leaf { data, .. } => data.len() as int,
        }) + items_length(items.skip(1))
    }
}

/// The item is one for the step: a hash pair of its node, or data of its size from its start on.
pub open spec fn item_fits(item: Content, step: BaoChunk) -> bool {
    match (item, step) {
        (Content::Parent { node, .. }, BaoChunk::Parent { node: n, .. }) => node == n,
        (Content::Leaf { offset, data }, BaoChunk::Leaf { start_chunk, size, .. }) => {
            &&& offset == byte_start(start_chunk.0 as int) as u64
            &&& data.len() == size
        },
        _ => false,
    }
}

/// Decoding gives one item for each step, in order, up to the first failure. Where it does not
/// fail, it has read as many bytes as the items take, and what follows them makes no difference.
pub proof fn law_decode_consumes<H: Hasher>(
    todo: Seq<BaoChunk>,
    stack: Seq<Digest>,
    encoded: Seq<u8>,
)
    ensures
        ({
            let (items, res) = decode_items::<H>(todo, stack, encoded);
            &&& items.len() <= todo.len()
            &&& forall|i: int|
                0 <= i < items.len() ==> item_fits(#[trigger] items[i], todo[i])
            &&& res is Ok ==> {
                &&& items.len() == todo.len()
                &&& 0 <= steps_length(todo) <= encoded.len()
                &&& items_length(items) == steps_length(todo)
                &&& forall|more: Seq<u8>| #[trigger]
                    decode_items::<H>(
                        todo,
                        stack,
                        encoded.take(steps_length(todo)) + more,
                    ) == (items, res)
            }
        }),
    decreases todo.len(),
{
    if todo.len() > 0 {
        let step = todo[0];
        let rest = todo.skip(1);
        let n = step_bytes(step);
        let (after, item) = decode_step::<H>(step, stack, read_step(step, encoded));
        if item is Ok {
            let content = item->Ok_0;
            let next = encoded.skip(n);
            law_decode_consumes::<H>(rest, after, next);
            let (tail, res) = decode_items::<H>(rest, after, next);
            let items = seq![content] + tail;
            assert(items.skip(1) =~= tail);
            assert forall|i: int| 0 <= i < items.len() implies item_fits(
                #[trigger] items[i],
                todo[i],
            ) by {
                if i > 0 {
                    assert(items[i] == tail[i - 1]);
                    assert(todo[i] == rest[i - 1]);
                }
            }
            if res is Ok {
                let len = steps_length(todo);
                assert forall|more: Seq<u8>| #[trigger]
                    decode_items::<H>(todo, stack, encoded.take(len) + more) == (items, res) by {
                    let other = encoded.take(len) + more;
                    assert(other.take(n) =~= encoded.take(n));
                    assert(other.skip(n) =~= next.take(steps_length(rest)) + more);
                    assert(read_step(step, other) == read_step(step, encoded));
                    assert(decode_items::<H>(
                        rest,
                        after,
                        next.take(steps_length(rest)) + more,
                    ) == (tail, res));
                }
            }
        }
    }
}

} // verus!
