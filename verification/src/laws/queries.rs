//! What a query asks for, and the steps of the walks that answer it.
//!
//! Here `ranges` is the query itself, and `n` is the number of chunks of the tree. Of a node `x` the
//! laws say which chunks it covers by the power of two `p` that `x + 1` is an odd multiple of: those
//! from `x + 1 - p` up to `x + 1 + p`, as far as the blob goes.
use crate::geometry::{
    in_tree, lemma_split_at_group, lemma_split_point, node_number, split_point, tree_chunks,
};
use crate::iter::{leaf_chunk, lemma_leaf_count, parent_chunk, BaoChunk, Walk};
use crate::laws::shape::{
    lemma_grid_halves, lemma_grid_root, lemma_inside_block, lemma_mod_sum, lemma_pow2_gap,
    lemma_width_unique, on_grid,
};
use crate::laws::whole::{leaf_holds, leaves_hold, lemma_leaves};
use crate::ranges::{full, selection, wanted};
use crate::tree::{lemma_group, BaoTree};
use vstd::arithmetic::div_mod::{lemma_fundamental_div_mod, lemma_mod_multiples_basic};
use vstd::arithmetic::power2::is_pow2;
use vstd::prelude::*;

verus! {

/// A tree of `n` chunks selects of a query the chunks before its last one that the query has, and
/// the last one where the query has that or anything behind it.
pub proof fn law_selection(ranges: Set<int>, n: int, c: int)
    ensures
        c < n - 1 ==> (selection(ranges, n).contains(c) <==> ranges.contains(c)),
        c >= n - 1 ==> (selection(ranges, n).contains(c) <==> exists|d: int|
            d >= n - 1 && #[trigger] ranges.contains(d)),
{
}

/// Something of a run of chunks is asked for where one of the chunks is, and all of it where each
/// of them is.
pub proof fn law_wanted_and_full(sel: Set<int>, s: int, m: int)
    ensures
        wanted(sel, s, m) <==> exists|c: int| s <= c < s + m && #[trigger] sel.contains(c),
        full(sel, s, m) <==> forall|c: int| s <= c < s + m ==> #[trigger] sel.contains(c),
{
}

/// The number of chunks of a tree is the one that is large enough and not too large.
pub proof fn lemma_total(tree: BaoTree, n: int)
    requires
        n >= 1,
        tree.size <= 1024 * n,
        n == 1 || 1024 * (n - 1) < tree.size,
    ensures
        n == tree.total(),
{
}

/// A response has data of a chunk exactly where the query asks for it. Of the last chunk it has data
/// where the query asks for that or for anything behind it.
pub proof fn law_response_chunks(tree: BaoTree, ranges: Set<int>, n: int, c: int)
    requires
        tree.wf(),
        n >= 1,
        tree.size <= 1024 * n,
        n == 1 || 1024 * (n - 1) < tree.size,
        0 <= c < n,
    ensures
        ({
            let steps = Walk::response(tree, ranges).all_steps();
            (exists|i: int|
                0 <= i < steps.len() && (#[trigger] steps[i] matches BaoChunk::Leaf {
                    start_chunk,
                    size,
                    ..
                } && start_chunk.0 <= c && (c == start_chunk.0 || 1024 * c < 1024 * start_chunk.0
                    + size))) <==> (if c < n - 1 {
                ranges.contains(c)
            } else {
                exists|d: int| d >= n - 1 && #[trigger] ranges.contains(d)
            })
        }),
{
    lemma_total(tree, n);
    let w = Walk::response(tree, ranges);
    let steps = w.all_steps();
    lemma_leaves(w, 0, n, true);
    assert(w.sel.contains(c) <==> leaves_hold(steps, c));
    lemma_holds_plain(steps, c);
}

/// The leaves that hold a chunk, in terms of their bytes.
proof fn lemma_holds_plain(steps: Seq<BaoChunk>, c: int)
    ensures
        leaves_hold(steps, c) <==> exists|i: int|
            0 <= i < steps.len() && (#[trigger] steps[i] matches BaoChunk::Leaf {
                start_chunk,
                size,
                ..
            } && start_chunk.0 <= c && (c == start_chunk.0 || 1024 * c < 1024 * start_chunk.0
                + size)),
{
    assert forall|i: int| 0 <= i < steps.len() implies leaf_holds(#[trigger] steps[i], c) == (
    steps[i] matches BaoChunk::Leaf { start_chunk, size, .. } && start_chunk.0 <= c && (c
        == start_chunk.0 || 1024 * c < 1024 * start_chunk.0 + size)) by {}
}

/// An empty query has an empty response, and is answered from nothing.
pub proof fn law_empty_query(tree: BaoTree, ranges: Set<int>)
    requires
        tree.wf(),
        forall|c: int| c >= 0 ==> !#[trigger] ranges.contains(c),
    ensures
        Walk::response(tree, ranges).all_steps().len() == 0,
        Walk::encode(tree, ranges).all_steps().len() == 0,
{
    let sel = selection(ranges, tree.total());
    assert(!wanted(sel, 0, tree.total())) by {
        if wanted(sel, 0, tree.total()) {
            let c = choose|c: int| 0 <= c < 0 + tree.total() && #[trigger] sel.contains(c);
            if c < tree.total() - 1 {
                assert(ranges.contains(c));
            } else {
                let d = choose|d: int| d >= tree.total() - 1 && #[trigger] ranges.contains(d);
                assert(ranges.contains(d));
            }
        }
    }
}

/// The chunk `c` is in the group that starts with the chunk `s`.
pub proof fn lemma_in_group(c: int, g: int, s: int)
    requires
        1 <= g,
        s % g == 0,
    ensures
        s <= c < s + g <==> c / g == s / g,
{
    lemma_fundamental_div_mod(c, g);
    lemma_fundamental_div_mod(s, g);
    let i = c / g;
    let k = s / g;
    let r = c % g;
    assert(g * k <= g * i + r < g * k + g <==> i == k) by (nonlinear_arith)
        requires
            0 <= r < g,
    {
        if i < k {
            assert(g * i + g <= g * k) by (nonlinear_arith)
                requires
                    i < k,
                    0 < g,
            ;
        } else if i > k {
            assert(g * k + g <= g * i) by (nonlinear_arith)
                requires
                    i > k,
                    0 < g,
            ;
        }
    };
}

/// The subtree starts with a group, and is not smaller than one unless it ends the tree.
pub open spec fn grouped(n: int, g: int, s: int, m: int) -> bool {
    &&& s % g == 0
    &&& m >= g || s + m == n
}

pub proof fn lemma_grouped_halves(n: int, g: int, s: int, m: int)
    requires
        is_pow2(g),
        1 <= g < m,
        on_grid(n, s, m),
        grouped(n, g, s, m),
    ensures
        grouped(n, g, s, split_point(m)),
        grouped(n, g, s + split_point(m), m - split_point(m)),
        g <= split_point(m),
{
    lemma_split_at_group(g, m);
    lemma_split_point(m);
    lemma_mod_sum(s, split_point(m), g);
}

/// The leaf of a walk that stops at groups which holds a chunk is there exactly where something of
/// the group is selected.
proof fn lemma_group_held(w: Walk, n: int, s: int, m: int, is_root: bool, c: int)
    requires
        0 <= w.size <= u64::MAX,
        n == tree_chunks(w.size),
        w.whole == 1,
        is_pow2(w.leaf),
        1 <= w.leaf,
        on_grid(n, s, m),
        grouped(n, w.leaf, s, m),
        s <= c < s + m,
    ensures
        leaves_hold(w.steps(s, m, is_root), c) <==> exists|d: int|
            0 <= d < n && d / w.leaf == c / w.leaf && #[trigger] w.sel.contains(d),
    decreases m,
{
    let g = w.leaf;
    let steps = w.steps(s, m, is_root);
    lemma_leaf_count(w.size, s, m);
    if m <= g {
        assert forall|d: int|
            #![trigger w.sel.contains(d)]
            0 <= d < n implies (s <= d < s + m <==> d / g == c / g) by {
            lemma_in_group(d, g, s);
            lemma_in_group(c, g, s);
        }
        if wanted(w.sel, s, m) {
            let d = choose|d: int| s <= d < s + m && #[trigger] w.sel.contains(d);
            assert(0 <= d < n && d / g == c / g && w.sel.contains(d));
            assert(steps[0] == leaf_chunk(w.size, s, m, is_root, full(w.sel, s, m)));
            assert(leaf_holds(steps[0], c));
        } else {
            assert(!leaves_hold(steps, c));
        }
    } else {
        let p = split_point(m);
        lemma_split_point(m);
        lemma_grid_halves(n, s, m);
        lemma_grouped_halves(n, g, s, m);
        let a = w.steps(s, p, false);
        let b = w.steps(s + p, m - p, false);
        let left = c < s + p;
        if left {
            lemma_group_held(w, n, s, p, false, c);
        } else {
            lemma_group_held(w, n, s + p, m - p, false, c);
        }
        if wanted(w.sel, s, m) {
            lemma_leaves(w, s, p, false);
            lemma_leaves(w, s + p, m - p, false);
            assert(steps.len() == 1 + a.len() + b.len());
            assert(forall|i: int| 0 <= i < a.len() ==> steps[1 + i] == a[i]);
            assert(forall|i: int| 0 <= i < b.len() ==> steps[1 + a.len() + i] == b[i]);
            if leaves_hold(steps, c) {
                let i = choose|i: int| 0 <= i < steps.len() && leaf_holds(#[trigger] steps[i], c);
                if i < 1 + a.len() {
                    assert(steps[i] == a[i - 1]);
                    assert(leaf_holds(a[i - 1], c));
                    assert(left);
                } else {
                    assert(steps[i] == b[i - 1 - a.len()]);
                    assert(leaf_holds(b[i - 1 - a.len()], c));
                    assert(!left);
                }
            }
            if left && leaves_hold(a, c) {
                let i = choose|i: int| 0 <= i < a.len() && leaf_holds(#[trigger] a[i], c);
                assert(leaf_holds(steps[1 + i], c));
            }
            if !left && leaves_hold(b, c) {
                let i = choose|i: int| 0 <= i < b.len() && leaf_holds(#[trigger] b[i], c);
                assert(leaf_holds(steps[1 + a.len() + i], c));
            }
        } else {
            assert(!leaves_hold(steps, c));
            let child = if left {
                a
            } else {
                b
            };
            if leaves_hold(child, c) {
                if left {
                    assert(wanted(w.sel, s, p));
                    let d = choose|d: int| s <= d < s + p && #[trigger] w.sel.contains(d);
                    assert(s <= d < s + m && w.sel.contains(d));
                } else {
                    assert(wanted(w.sel, s + p, m - p));
                    let d = choose|d: int| s + p <= d < s + p + (m - p) && #[trigger]
                        w.sel.contains(d);
                    assert(s <= d < s + m && w.sel.contains(d));
                }
            }
        }
    }
}

/// A response is written from the data of the chunk groups that the query touches, and of no
/// others: a leaf has the chunk `c` exactly where the query asks for a chunk of the group of `c`.
pub proof fn law_encode_chunks(tree: BaoTree, ranges: Set<int>, n: int, c: int)
    requires
        tree.wf(),
        n >= 1,
        tree.size <= 1024 * n,
        n == 1 || 1024 * (n - 1) < tree.size,
        0 <= c < n,
    ensures
        ({
            let steps = Walk::encode(tree, ranges).all_steps();
            (exists|i: int|
                0 <= i < steps.len() && (#[trigger] steps[i] matches BaoChunk::Leaf {
                    start_chunk,
                    size,
                    ..
                } && start_chunk.0 <= c && (c == start_chunk.0 || 1024 * c < 1024 * start_chunk.0
                    + size))) <==> (exists|d: int|
                d >= 0 && #[trigger] ranges.contains(d) && (if d < n - 1 {
                    d
                } else {
                    n - 1
                }) / tree.group() == c / tree.group())
        }),
{
    lemma_total(tree, n);
    lemma_group(tree.block_size);
    lemma_grid_root(n);
    let w = Walk::encode(tree, ranges);
    let g = tree.group();
    let steps = w.all_steps();
    lemma_mod_multiples_basic(0, g);
    lemma_group_held(w, n, 0, n, true, c);
    lemma_holds_plain(steps, c);
    if exists|d: int| 0 <= d < n && d / g == c / g && #[trigger] w.sel.contains(d) {
        let d = choose|d: int| 0 <= d < n && d / g == c / g && #[trigger] w.sel.contains(d);
        if d < n - 1 {
            assert(ranges.contains(d));
        } else {
            let e = choose|e: int| e >= n - 1 && #[trigger] ranges.contains(e);
            assert(ranges.contains(e));
        }
    }
    if exists|d: int|
        d >= 0 && #[trigger] ranges.contains(d) && (if d < n - 1 {
            d
        } else {
            n - 1
        }) / g == c / g {
        let d = choose|d: int|
            d >= 0 && #[trigger] ranges.contains(d) && (if d < n - 1 {
                d
            } else {
                n - 1
            }) / g == c / g;
        let k = if d < n - 1 {
            d
        } else {
            n - 1
        };
        assert(w.sel.contains(k));
        assert(0 <= k < n && k / g == c / g && w.sel.contains(k));
    }
}

/// The leaves of a walk that stops at groups are groups.
proof fn lemma_group_leaf(w: Walk, n: int, s: int, m: int, is_root: bool, i: int)
    requires
        0 <= w.size <= u64::MAX,
        n == tree_chunks(w.size),
        w.whole == 1,
        is_pow2(w.leaf),
        1 <= w.leaf,
        on_grid(n, s, m),
        grouped(n, w.leaf, s, m),
        0 <= i < w.steps(s, m, is_root).len(),
    ensures
        w.steps(s, m, is_root)[i] matches BaoChunk::Leaf { start_chunk, size, full: all, .. } ==> {
            let a = start_chunk.0 as int;
            &&& a % w.leaf == 0
            &&& 0 <= a < n
            &&& 1024 * a + size == (if 1024 * (a + w.leaf) <= w.size {
                1024 * (a + w.leaf)
            } else {
                w.size
            })
            &&& all <==> forall|c: int| a <= c < a + w.leaf && c < n ==> #[trigger] w.sel.contains(c)
        },
    decreases m,
{
    let g = w.leaf;
    let steps = w.steps(s, m, is_root);
    lemma_leaf_count(w.size, s, m);
    if m <= g {
        assert(steps[0] == leaf_chunk(w.size, s, m, is_root, full(w.sel, s, m)));
        assert(full(w.sel, s, m) <==> forall|c: int|
            s <= c < s + g && c < n ==> #[trigger] w.sel.contains(c));
    } else {
        let p = split_point(m);
        lemma_split_point(m);
        lemma_grid_halves(n, s, m);
        lemma_grouped_halves(n, g, s, m);
        let a = w.steps(s, p, false);
        let b = w.steps(s + p, m - p, false);
        if 1 <= i < 1 + a.len() {
            assert(steps[i] == a[i - 1]);
            lemma_group_leaf(w, n, s, p, false, i - 1);
        } else if i >= 1 + a.len() {
            assert(steps[i] == b[i - 1 - a.len()]);
            lemma_group_leaf(w, n, s + p, m - p, false, i - 1 - a.len());
        }
    }
}

/// The leaves from which a response is written are whole chunk groups, as far as the blob goes. One
/// counts as selected where the query asks for each of its chunks.
pub proof fn law_encode_leaf(tree: BaoTree, ranges: Set<int>, n: int, i: int)
    requires
        tree.wf(),
        n >= 1,
        tree.size <= 1024 * n,
        n == 1 || 1024 * (n - 1) < tree.size,
        0 <= i < Walk::encode(tree, ranges).all_steps().len(),
    ensures
        Walk::encode(tree, ranges).all_steps()[i] matches BaoChunk::Leaf {
            start_chunk,
            size,
            full: all,
            ..
        } ==> {
            let a = start_chunk.0 as int;
            &&& a % tree.group() == 0
            &&& 0 <= a < n
            &&& 1024 * a + size == (if 1024 * (a + tree.group()) <= tree.size {
                1024 * (a + tree.group())
            } else {
                tree.size as int
            })
            &&& all <==> (forall|c: int|
                a <= c < a + tree.group() && c < n - 1 ==> #[trigger] ranges.contains(c)) && (n - 1
                < a + tree.group() ==> exists|d: int| d >= n - 1 && #[trigger] ranges.contains(d))
        },
{
    lemma_total(tree, n);
    lemma_group(tree.block_size);
    lemma_grid_root(n);
    let w = Walk::encode(tree, ranges);
    lemma_mod_multiples_basic(0, tree.group());
    lemma_group_leaf(w, n, 0, n, true, i);
    if let BaoChunk::Leaf { start_chunk, full: all, .. } = w.all_steps()[i] {
        let a = start_chunk.0 as int;
        if all {
            assert forall|c: int| a <= c < a + tree.group() && c < n - 1 implies #[trigger]
                ranges.contains(c) by {
                assert(w.sel.contains(c));
            }
            if n - 1 < a + tree.group() {
                assert(w.sel.contains(n - 1));
            }
        }
        if (forall|c: int|
            a <= c < a + tree.group() && c < n - 1 ==> #[trigger] ranges.contains(c)) && (n - 1 < a
            + tree.group() ==> exists|d: int| d >= n - 1 && #[trigger] ranges.contains(d)) {
            assert forall|c: int| a <= c < a + w.leaf && c < n implies #[trigger]
                w.sel.contains(c) by {
                if c < n - 1 {
                    assert(ranges.contains(c));
                }
            }
        }
    }
}

/// The leaves of a walk that goes down to chunks.
proof fn lemma_response_leaf(w: Walk, s: int, m: int, is_root: bool, i: int)
    requires
        0 <= w.size <= u64::MAX,
        w.leaf == 1,
        in_tree(w.size, s, m),
        0 <= i < w.steps(s, m, is_root).len(),
    ensures
        w.steps(s, m, is_root)[i] matches BaoChunk::Leaf { start_chunk, size, full: all, .. } ==> {
            &&& all
            &&& 1024 * start_chunk.0 + size <= w.size
            &&& size % 1024 == 0 || 1024 * start_chunk.0 + size == w.size
            &&& size > 0 || w.size == 0
            &&& size <= 1024 || size <= 1024 * w.whole
        },
    decreases m,
{
    let steps = w.steps(s, m, is_root);
    lemma_leaf_count(w.size, s, m);
    if w.stops(s, m) {
        if m <= 1 {
            let c = choose|c: int| s <= c < s + m && #[trigger] w.sel.contains(c);
            assert(c == s);
        }
        assert(steps[0] == leaf_chunk(w.size, s, m, is_root, full(w.sel, s, m)));
    } else {
        let p = split_point(m);
        lemma_split_point(m);
        let a = w.steps(s, p, false);
        let b = w.steps(s + p, m - p, false);
        if 1 <= i < 1 + a.len() {
            assert(steps[i] == a[i - 1]);
            lemma_response_leaf(w, s, p, false, i - 1);
        } else if i >= 1 + a.len() {
            assert(steps[i] == b[i - 1 - a.len()]);
            lemma_response_leaf(w, s + p, m - p, false, i - 1 - a.len());
        }
    }
}

/// A leaf of a response lies in the blob, holds whole chunks as far as the blob goes, is not larger
/// than a chunk group, and is empty only for an empty blob.
pub proof fn law_response_leaf(tree: BaoTree, ranges: Set<int>, i: int)
    requires
        tree.wf(),
        0 <= i < Walk::response(tree, ranges).all_steps().len(),
    ensures
        Walk::response(tree, ranges).all_steps()[i] matches BaoChunk::Leaf {
            start_chunk,
            size,
            full: all,
            ..
        } ==> {
            &&& all
            &&& 1024 * start_chunk.0 + size <= tree.size
            &&& size % 1024 == 0 || 1024 * start_chunk.0 + size == tree.size
            &&& size > 0 || tree.size == 0
            &&& size <= 1024 * tree.group()
        },
{
    lemma_group(tree.block_size);
    let w = Walk::response(tree, ranges);
    lemma_response_leaf(w, 0, tree.total(), true, i);
}

/// The parents of the steps lie in the subtree, and only its root is marked as one.
pub proof fn lemma_steps_within(w: Walk, s: int, m: int, is_root: bool, i: int)
    requires
        0 <= w.size <= u64::MAX,
        in_tree(w.size, s, m),
        0 <= i < w.steps(s, m, is_root).len(),
    ensures
        match w.steps(s, m, is_root)[i] {
            BaoChunk::Parent { node, is_root: r, .. } => s <= node.0 < s + m - 1 && r == (is_root
                && i == 0),
            BaoChunk::Leaf { start_chunk, size, is_root: r, .. } => s <= start_chunk.0
                && start_chunk.0 + tree_chunks(size as int) <= s + m && r == (is_root && i == 0),
        },
    decreases m,
{
    let steps = w.steps(s, m, is_root);
    lemma_leaf_count(w.size, s, m);
    if w.stops(s, m) {
        assert(steps[0] == leaf_chunk(w.size, s, m, is_root, full(w.sel, s, m)));
    } else {
        let p = split_point(m);
        lemma_split_point(m);
        let a = w.steps(s, p, false);
        let b = w.steps(s + p, m - p, false);
        if 1 <= i < 1 + a.len() {
            assert(steps[i] == a[i - 1]);
            lemma_steps_within(w, s, p, false, i - 1);
        } else if i >= 1 + a.len() {
            assert(steps[i] == b[i - 1 - a.len()]);
            lemma_steps_within(w, s + p, m - p, false, i - 1 - a.len());
        } else {
            assert(node_number(s, m) as u64 == node_number(s, m));
        }
    }
}

/// The node `x` is among the steps.
spec fn visits(steps: Seq<BaoChunk>, x: int) -> bool {
    exists|i: int|
        0 <= i < steps.len() && (#[trigger] steps[i] matches BaoChunk::Parent { node, .. }
            && node.0 == x)
}

/// Where the node `x` is among the steps, the walk goes on to its children as far as something of
/// them is selected.
spec fn goes_on(steps: Seq<BaoChunk>, sel: Set<int>, x: int, lo: int, hi: int) -> bool {
    forall|i: int|
        0 <= i < steps.len() ==> (#[trigger] steps[i] matches BaoChunk::Parent {
            node,
            left,
            right,
            ..
        } ==> (node.0 == x ==> left == wanted(sel, lo, x + 1 - lo) && right == wanted(
            sel,
            x + 1,
            hi - (x + 1),
        )))
}

/// Selecting from a part is selecting from the whole.
proof fn lemma_wanted_part(sel: Set<int>, s: int, m: int, a: int, k: int)
    requires
        s <= a,
        a + k <= s + m,
        wanted(sel, a, k),
    ensures
        wanted(sel, s, m),
{
    let c = choose|c: int| a <= c < a + k && #[trigger] sel.contains(c);
    assert(s <= c < s + m && sel.contains(c));
}

/// Which nodes a walk visits, and where it goes on from them.
#[verifier::spinoff_prover]
#[verifier::rlimit(40)]
proof fn lemma_visits(w: Walk, n: int, s: int, m: int, is_root: bool, x: int, p: int)
    requires
        0 <= w.size <= u64::MAX,
        n == tree_chunks(w.size),
        on_grid(n, s, m),
        s < x + 1 < s + m,
        is_pow2(p),
        (x + 1) % (2 * p) == p,
    ensures
        ({
            let lo = x + 1 - p;
            let hi = if x + 1 + p <= n {
                x + 1 + p
            } else {
                n
            };
            &&& s <= lo
            &&& hi <= s + m
            &&& visits(w.steps(s, m, is_root), x) <==> wanted(w.sel, lo, hi - lo) && !w.stops(
                lo,
                hi - lo,
            )
            &&& goes_on(w.steps(s, m, is_root), w.sel, x, lo, hi)
        }),
    decreases m,
{
    let steps = w.steps(s, m, is_root);
    let h = split_point(m);
    lemma_split_point(m);
    lemma_grid_halves(n, s, m);
    let r = node_number(s, m);
    let lo = x + 1 - p;
    let hi = if x + 1 + p <= n {
        x + 1 + p
    } else {
        n
    };
    if x == r {
        lemma_width_unique(x + 1, p, h);
    } else if x < r {
        lemma_inside_block(s, h, x + 1, p);
    } else {
        lemma_inside_block(s + h, h, x + 1, p);
    }
    assert(s <= lo && hi <= s + m);
    let a = w.steps(s, h, false);
    let b = w.steps(s + h, m - h, false);
    if x < r {
        lemma_visits(w, n, s, h, false, x, p);
    } else if x > r {
        lemma_visits(w, n, s + h, m - h, false, x, p);
    }
    if !wanted(w.sel, s, m) {
        if wanted(w.sel, lo, hi - lo) {
            lemma_wanted_part(w.sel, s, m, lo, hi - lo);
        }
        assert(!visits(steps, x));
    } else if w.stops(s, m) {
        assert(steps[0] == leaf_chunk(w.size, s, m, is_root, full(w.sel, s, m)));
        assert(!visits(steps, x));
        assert(w.stops(lo, hi - lo));
    } else {
        let own = parent_chunk(
            s,
            m,
            is_root,
            wanted(w.sel, s, h),
            wanted(w.sel, s + h, m - h),
        );
        assert(steps.len() == 1 + a.len() + b.len());
        assert(steps[0] == own);
        assert(r as u64 == r);
        assert(forall|i: int| 0 <= i < a.len() ==> steps[1 + i] == a[i]);
        assert(forall|i: int| 0 <= i < b.len() ==> steps[1 + a.len() + i] == b[i]);
        assert forall|i: int| 1 <= i < 1 + a.len() implies (
        #[trigger] steps[i] matches BaoChunk::Parent { node, .. } ==> node.0 < r) by {
            assert(steps[i] == a[i - 1]);
            lemma_steps_within(w, s, h, false, i - 1);
        }
        assert forall|i: int| 1 + a.len() <= i < steps.len() implies (
        #[trigger] steps[i] matches BaoChunk::Parent { node, .. } ==> node.0 > r) by {
            assert(steps[i] == b[i - 1 - a.len()]);
            lemma_steps_within(w, s + h, m - h, false, i - 1 - a.len());
        }
        if x == r {
            assert(lo == s);
            assert(hi == s + m);
            assert(visits(steps, x));
        } else if x < r {
            if visits(steps, x) {
                let i = choose|i: int|
                    0 <= i < steps.len() && (#[trigger] steps[i] matches BaoChunk::Parent {
                        node,
                        ..
                    } && node.0 == x);
                assert(steps[i] == a[i - 1]);
                assert(visits(a, x));
            }
            if visits(a, x) {
                let i = choose|i: int|
                    0 <= i < a.len() && (#[trigger] a[i] matches BaoChunk::Parent { node, .. }
                        && node.0 == x);
                assert(steps[1 + i] == a[i]);
                assert(visits(steps, x));
            }
            assert forall|i: int| 0 <= i < steps.len() implies (
            #[trigger] steps[i] matches BaoChunk::Parent { node, left, right, .. } ==> (node.0 == x
                ==> left == wanted(w.sel, lo, x + 1 - lo) && right == wanted(
                w.sel,
                x + 1,
                hi - (x + 1),
            ))) by {
                if 1 <= i < 1 + a.len() {
                    assert(steps[i] == a[i - 1]);
                }
            }
        } else {
            if visits(steps, x) {
                let i = choose|i: int|
                    0 <= i < steps.len() && (#[trigger] steps[i] matches BaoChunk::Parent {
                        node,
                        ..
                    } && node.0 == x);
                assert(steps[i] == b[i - 1 - a.len()]);
                assert(visits(b, x));
            }
            if visits(b, x) {
                let i = choose|i: int|
                    0 <= i < b.len() && (#[trigger] b[i] matches BaoChunk::Parent { node, .. }
                        && node.0 == x);
                assert(steps[1 + a.len() + i] == b[i]);
                assert(visits(steps, x));
            }
            assert forall|i: int| 0 <= i < steps.len() implies (
            #[trigger] steps[i] matches BaoChunk::Parent { node, left, right, .. } ==> (node.0 == x
                ==> left == wanted(w.sel, lo, x + 1 - lo) && right == wanted(
                w.sel,
                x + 1,
                hi - (x + 1),
            ))) by {
                if i >= 1 + a.len() {
                    assert(steps[i] == b[i - 1 - a.len()]);
                }
            }
        }
    }
}

/// A response has the hash pair of a node exactly where the query asks for a chunk that the node
/// covers, unless the node covers no more than a chunk group and the query asks for all of it. The
/// walk goes on to each child of which the query asks for a chunk.
pub proof fn law_response_node(tree: BaoTree, ranges: Set<int>, n: int, x: int, p: int)
    requires
        tree.wf(),
        n >= 1,
        tree.size <= 1024 * n,
        n == 1 || 1024 * (n - 1) < tree.size,
        0 < x + 1 < n,
        is_pow2(p),
        (x + 1) % (2 * p) == p,
    ensures
        ({
            let steps = Walk::response(tree, ranges).all_steps();
            let sel = selection(ranges, n);
            let lo = x + 1 - p;
            let hi = if x + 1 + p <= n {
                x + 1 + p
            } else {
                n
            };
            &&& (exists|i: int|
                0 <= i < steps.len() && (#[trigger] steps[i] matches BaoChunk::Parent { node, .. }
                    && node.0 == x)) <==> (exists|c: int|
                lo <= c < hi && #[trigger] sel.contains(c)) && (hi - lo > tree.group() || (exists|c: int|
                lo <= c < hi && !#[trigger] sel.contains(c)))
            &&& forall|i: int|
                0 <= i < steps.len() ==> (#[trigger] steps[i] matches BaoChunk::Parent {
                    node,
                    left,
                    right,
                    ..
                } ==> (node.0 == x ==> (left <==> exists|c: int|
                    lo <= c < x + 1 && #[trigger] sel.contains(c)) && (right <==> exists|c: int|
                    x + 1 <= c < hi && #[trigger] sel.contains(c))))
        }),
{
    lemma_total(tree, n);
    lemma_group(tree.block_size);
    lemma_grid_root(n);
    let w = Walk::response(tree, ranges);
    lemma_visits(w, n, 0, n, true, x, p);
    lemma_node_plain(w, n, x, p);
}

/// A response is written from the hash pairs of the nodes between chunk groups that cover a chunk
/// that the query asks for, and of no others.
pub proof fn law_encode_node(tree: BaoTree, ranges: Set<int>, n: int, x: int, p: int)
    requires
        tree.wf(),
        n >= 1,
        tree.size <= 1024 * n,
        n == 1 || 1024 * (n - 1) < tree.size,
        0 < x + 1 < n,
        is_pow2(p),
        (x + 1) % (2 * p) == p,
    ensures
        ({
            let steps = Walk::encode(tree, ranges).all_steps();
            let sel = selection(ranges, n);
            let lo = x + 1 - p;
            let hi = if x + 1 + p <= n {
                x + 1 + p
            } else {
                n
            };
            &&& (exists|i: int|
                0 <= i < steps.len() && (#[trigger] steps[i] matches BaoChunk::Parent { node, .. }
                    && node.0 == x)) <==> (exists|c: int|
                lo <= c < hi && #[trigger] sel.contains(c)) && p >= tree.group()
            &&& forall|i: int|
                0 <= i < steps.len() ==> (#[trigger] steps[i] matches BaoChunk::Parent {
                    node,
                    left,
                    right,
                    ..
                } ==> (node.0 == x ==> (left <==> exists|c: int|
                    lo <= c < x + 1 && #[trigger] sel.contains(c)) && (right <==> exists|c: int|
                    x + 1 <= c < hi && #[trigger] sel.contains(c))))
        }),
{
    lemma_total(tree, n);
    lemma_group(tree.block_size);
    lemma_grid_root(n);
    let w = Walk::encode(tree, ranges);
    lemma_visits(w, n, 0, n, true, x, p);
    lemma_node_plain(w, n, x, p);
    if p < tree.group() {
        lemma_pow2_gap(p, tree.group());
    }
}

/// Which nodes a walk visits, without abbreviations.
proof fn lemma_node_plain(w: Walk, n: int, x: int, p: int)
    requires
        0 < x + 1 < n,
        is_pow2(p),
    ensures
        ({
            let sel = w.sel;
            let steps = w.steps(0, n, true);
            let lo = x + 1 - p;
            let hi = if x + 1 + p <= n {
                x + 1 + p
            } else {
                n
            };
            &&& hi - lo >= 2
            &&& wanted(sel, lo, hi - lo) <==> exists|c: int|
                lo <= c < hi && #[trigger] sel.contains(c)
            &&& !full(sel, lo, hi - lo) <==> exists|c: int|
                lo <= c < hi && !#[trigger] sel.contains(c)
            &&& wanted(sel, lo, x + 1 - lo) <==> exists|c: int|
                lo <= c < x + 1 && #[trigger] sel.contains(c)
            &&& wanted(sel, x + 1, hi - (x + 1)) <==> exists|c: int|
                x + 1 <= c < hi && #[trigger] sel.contains(c)
            &&& visits(steps, x) <==> exists|i: int|
                0 <= i < steps.len() && (#[trigger] steps[i] matches BaoChunk::Parent { node, .. }
                    && node.0 == x)
        }),
{
    reveal(is_pow2);
}

/// The chunks that a step is about start here. A node covers `p` chunks to each side.
spec fn step_start(step: BaoChunk, p: int) -> int {
    match step {
        BaoChunk::Parent { node, .. } => node.0 + 1 - p,
        BaoChunk::Leaf { start_chunk, .. } => start_chunk.0 as int,
    }
}

/// The chunks that a step is about end here.
spec fn step_end(step: BaoChunk, p: int) -> int {
    match step {
        BaoChunk::Parent { node, .. } => node.0 + 1 + p,
        BaoChunk::Leaf { start_chunk, size, .. } => start_chunk.0 + tree_chunks(size as int),
    }
}

/// `p` is what a node covers to each side.
spec fn step_width(step: BaoChunk, p: int) -> bool {
    step matches BaoChunk::Parent { node, .. } ==> is_pow2(p) && (node.0 + 1) % (2 * p) == p
}

/// A step of one of the two halves lies in the half.
proof fn lemma_step_block(w: Walk, n: int, s: int, m: int, h: int, i: int, p: int)
    requires
        0 <= w.size <= u64::MAX,
        n == tree_chunks(w.size),
        in_tree(w.size, s, m),
        is_pow2(h),
        m <= h,
        s % h == 0,
        0 <= i < w.steps(s, m, false).len(),
        step_width(w.steps(s, m, false)[i], p),
    ensures
        s <= step_start(w.steps(s, m, false)[i], p),
        step_end(w.steps(s, m, false)[i], p) <= s + h,
{
    lemma_steps_within(w, s, m, false, i);
    match w.steps(s, m, false)[i] {
        BaoChunk::Parent { node, .. } => {
            lemma_inside_block(s, h, node.0 + 1, p);
        },
        BaoChunk::Leaf { .. } => {},
    }
}

proof fn lemma_steps_nest(
    w: Walk,
    n: int,
    s: int,
    m: int,
    is_root: bool,
    i: int,
    j: int,
    p: int,
    q: int,
)
    requires
        0 <= w.size <= u64::MAX,
        n == tree_chunks(w.size),
        on_grid(n, s, m),
        0 <= i < j < w.steps(s, m, is_root).len(),
        step_width(w.steps(s, m, is_root)[i], p),
        step_width(w.steps(s, m, is_root)[j], q),
    ensures
        ({
            let a = w.steps(s, m, is_root)[i];
            let b = w.steps(s, m, is_root)[j];
            ||| step_end(a, p) <= step_start(b, q)
            ||| a is Parent && step_start(a, p) <= step_start(b, q) && step_end(b, q) <= step_end(
                a,
                p,
            ) && (b is Parent ==> q < p)
        }),
    decreases m,
{
    let steps = w.steps(s, m, is_root);
    let h = split_point(m);
    lemma_split_point(m);
    lemma_grid_halves(n, s, m);
    let a = w.steps(s, h, false);
    let b = w.steps(s + h, m - h, false);
    let r = node_number(s, m);
    assert(steps.len() == 1 + a.len() + b.len());
    assert(r as u64 == r);
    let own = parent_chunk(s, m, is_root, wanted(w.sel, s, h), wanted(w.sel, s + h, m - h));
    assert(steps[0] == own);
    if j < 1 + a.len() {
        assert(steps[j] == a[j - 1]);
        lemma_step_block(w, n, s, h, h, j - 1, q);
    } else {
        assert(steps[j] == b[j - 1 - a.len()]);
        lemma_step_block(w, n, s + h, m - h, h, j - 1 - a.len(), q);
    }
    if i == 0 {
        lemma_width_unique(r + 1, p, h);
        if let BaoChunk::Parent { node, .. } = steps[j] {
            if j < 1 + a.len() {
                lemma_steps_within(w, s, h, false, j - 1);
                lemma_inside_block(s, h, node.0 + 1, q);
            } else {
                lemma_steps_within(w, s + h, m - h, false, j - 1 - a.len());
                lemma_inside_block(s + h, h, node.0 + 1, q);
            }
        }
    } else if i < 1 + a.len() {
        assert(steps[i] == a[i - 1]);
        lemma_step_block(w, n, s, h, h, i - 1, p);
        if j < 1 + a.len() {
            lemma_steps_nest(w, n, s, h, false, i - 1, j - 1, p, q);
        }
    } else {
        assert(steps[i] == b[i - 1 - a.len()]);
        lemma_steps_nest(w, n, s + h, m - h, false, i - 1 - a.len(), j - 1 - a.len(), p, q);
    }
}

/// The step `b` may come after the step `a`, where the two cover `q` and `p` chunks to each side if
/// they are nodes: what `a` is about lies before what `b` is about, or `a` is a node that covers it.
pub open spec fn follows_in_order(a: BaoChunk, b: BaoChunk, p: int, q: int) -> bool {
    match (a, b) {
        (
            BaoChunk::Leaf { start_chunk: s, size, .. },
            BaoChunk::Leaf { start_chunk: t, .. },
        ) => s.0 < t.0 && 1024 * s.0 + size <= 1024 * t.0,
        (BaoChunk::Leaf { start_chunk: s, size, .. }, BaoChunk::Parent { node: y, .. }) => s.0 <= y.0
            - q && 1024 * s.0 + size <= 1024 * (y.0 + 1 - q),
        (BaoChunk::Parent { node: x, .. }, BaoChunk::Leaf { start_chunk: t, size, .. }) => {
            ||| x.0 + 1 + p <= t.0
            ||| x.0 + 1 - p <= t.0 && 1024 * t.0 + size <= 1024 * (x.0 + 1 + p)
        },
        (BaoChunk::Parent { node: x, .. }, BaoChunk::Parent { node: y, .. }) => {
            ||| x.0 + p <= y.0 - q
            ||| q < p && x.0 - p <= y.0 - q && y.0 + q <= x.0 + p
        },
    }
}

/// The steps of both walks come in order: a node before all that it covers, and what lies further to
/// the left first. Only the first step is marked as the root.
pub proof fn law_steps_in_order(tree: BaoTree, ranges: Set<int>, i: int, j: int, p: int, q: int)
    requires
        tree.wf(),
        0 <= i < j,
        is_pow2(p),
        is_pow2(q),
    ensures
        ({
            let steps = Walk::response(tree, ranges).all_steps();
            j < steps.len() && (steps[i] matches BaoChunk::Parent { node, .. } ==> (node.0 + 1) % (2
                * p) == p) && (steps[j] matches BaoChunk::Parent { node, .. } ==> (node.0 + 1) % (2
                * q) == q) ==> follows_in_order(steps[i], steps[j], p, q)
        }),
        ({
            let steps = Walk::encode(tree, ranges).all_steps();
            j < steps.len() && (steps[i] matches BaoChunk::Parent { node, .. } ==> (node.0 + 1) % (2
                * p) == p) && (steps[j] matches BaoChunk::Parent { node, .. } ==> (node.0 + 1) % (2
                * q) == q) ==> follows_in_order(steps[i], steps[j], p, q)
        }),
        ({
            let steps = Walk::response(tree, ranges).all_steps();
            j < steps.len() ==> match (steps[0], steps[j]) {
                (BaoChunk::Parent { is_root: a, .. }, BaoChunk::Parent { is_root: b, .. }) => a && !b,
                (BaoChunk::Parent { is_root: a, .. }, BaoChunk::Leaf { is_root: b, .. }) => a && !b,
                _ => false,
            }
        }),
        ({
            let steps = Walk::encode(tree, ranges).all_steps();
            j < steps.len() ==> match (steps[0], steps[j]) {
                (BaoChunk::Parent { is_root: a, .. }, BaoChunk::Parent { is_root: b, .. }) => a && !b,
                (BaoChunk::Parent { is_root: a, .. }, BaoChunk::Leaf { is_root: b, .. }) => a && !b,
                _ => false,
            }
        }),
{
    let n = tree.total();
    lemma_grid_root(n);
    lemma_in_order(Walk::response(tree, ranges), n, i, j, p, q);
    lemma_in_order(Walk::encode(tree, ranges), n, i, j, p, q);
}

proof fn lemma_in_order(w: Walk, n: int, i: int, j: int, p: int, q: int)
    requires
        0 <= w.size <= u64::MAX,
        n == tree_chunks(w.size),
        on_grid(n, 0, n),
        0 <= i < j,
        is_pow2(p),
        is_pow2(q),
    ensures
        ({
            let steps = w.all_steps();
            &&& j < steps.len() && step_width(steps[i], p) && step_width(steps[j], q)
                ==> follows_in_order(steps[i], steps[j], p, q)
            &&& j < steps.len() ==> match (steps[0], steps[j]) {
                (BaoChunk::Parent { is_root: a, .. }, BaoChunk::Parent { is_root: b, .. }) => a && !b,
                (BaoChunk::Parent { is_root: a, .. }, BaoChunk::Leaf { is_root: b, .. }) => a && !b,
                _ => false,
            }
        }),
{
    let steps = w.all_steps();
    if j < steps.len() {
        lemma_steps_within(w, 0, n, true, 0);
        lemma_steps_within(w, 0, n, true, j);
        lemma_steps_within(w, 0, n, true, i);
        if step_width(steps[i], p) && step_width(steps[j], q) {
            lemma_steps_nest(w, n, 0, n, true, i, j, p, q);
            reveal(is_pow2);
        }
    }
}

/// A walk of one step is marked as the root.
pub proof fn law_single_step(tree: BaoTree, ranges: Set<int>)
    requires
        tree.wf(),
    ensures
        ({
            let steps = Walk::response(tree, ranges).all_steps();
            steps.len() > 0 ==> match steps[0] {
                BaoChunk::Parent { is_root, .. } => is_root,
                BaoChunk::Leaf { is_root, start_chunk, .. } => is_root && start_chunk.0 == 0,
            }
        }),
        ({
            let steps = Walk::encode(tree, ranges).all_steps();
            steps.len() > 0 ==> match steps[0] {
                BaoChunk::Parent { is_root, .. } => is_root,
                BaoChunk::Leaf { is_root, start_chunk, .. } => is_root && start_chunk.0 == 0,
            }
        }),
{
    let n = tree.total();
    let a = Walk::response(tree, ranges);
    let b = Walk::encode(tree, ranges);
    if a.all_steps().len() > 0 {
        lemma_steps_within(a, 0, n, true, 0);
    }
    if b.all_steps().len() > 0 {
        lemma_steps_within(b, 0, n, true, 0);
    }
}

} // verus!
