//! The chunks that validation reports.
//!
//! Here `ranges` is the query itself, `n` is the number of chunks of the tree, and `g` the number of
//! chunks in a group.
use crate::copy::LoadFn;
use crate::error::IoError;
use crate::geometry::{
    byte_end, chunks_of, groups, in_tree, lemma_groups_one, lemma_split_at_group,
    lemma_split_point, node_number, split_point, tree_chunks,
};
use crate::hash::{
    chunk_count, lemma_halves, left_half, right_half, root_pair, tree_hash, Digest, Hasher,
};
use crate::iter::lemma_leaf_count;
use crate::laws::queries::{grouped, lemma_grouped_halves, lemma_in_group, lemma_total};
use crate::laws::received::holds_selected;
use crate::laws::shape::{
    lemma_grid_halves, lemma_grid_root, lemma_inside_block, lemma_mod_sum, lemma_no_multiple,
    lemma_width_unique, on_grid,
};
use crate::laws::store::holds_pairs;
use crate::laws::valid::{
    any_group, groups_with, law_valid_outboard_ranges, law_valid_ranges, same_group_hash,
    tree_groups_with,
};
use crate::ranges::{selection, wanted};
use crate::tree::{lemma_group, BaoTree, TreeNode};
use crate::validate::{
    data_check, no_check, subtree_span, validate_run, validate_tree, CheckFn, ChunkSpan,
};
use vstd::arithmetic::div_mod::{lemma_fundamental_div_mod, lemma_mod_multiples_basic};
use vstd::arithmetic::power2::is_pow2;
use vstd::prelude::*;

verus! {

/// The span is a chunk group of the subtree, as far as the blob goes.
spec fn span_fits(span: ChunkSpan, size: int, g: int, sel: Set<int>, s: int, m: int) -> bool {
    let a = span.start.0 as int;
    let n = tree_chunks(size);
    &&& a % g == 0
    &&& s <= a < s + m
    &&& span.end.0 <= s + m
    &&& span.end.0 == (if a + g <= chunks_of(size) {
        a + g
    } else {
        chunks_of(size)
    })
    &&& m <= g || exists|c: int| a <= c < a + g && c < n && #[trigger] sel.contains(c)
}

/// What is wanted of a group is something of the group.
proof fn lemma_group_wanted(n: int, g: int, sel: Set<int>, s: int, m: int)
    requires
        m <= g,
        s + m <= n,
        wanted(sel, s, m),
    ensures
        exists|c: int| s <= c < s + g && c < n && #[trigger] sel.contains(c),
{
    let c = choose|c: int| s <= c < s + m && #[trigger] sel.contains(c);
    assert(s <= c < s + g && c < n && sel.contains(c));
}

proof fn lemma_one_span(size: int, g: int, sel: Set<int>, s: int, m: int)
    requires
        0 <= size <= u64::MAX,
        1 <= g,
        m <= g,
        on_grid(tree_chunks(size), s, m),
        grouped(tree_chunks(size), g, s, m),
    ensures
        span_fits(subtree_span(size, s, m), size, g, sel, s, m),
{
    lemma_leaf_count(size, s, m);
}

/// Each span that a validation reports is a chunk group.
proof fn lemma_spans_fit<H: Hasher>(
    load: LoadFn,
    check: CheckFn,
    size: int,
    g: int,
    sel: Set<int>,
    s: int,
    m: int,
    is_root: bool,
    hash: Digest,
    i: int,
)
    requires
        0 <= size <= u64::MAX,
        is_pow2(g),
        1 <= g,
        on_grid(tree_chunks(size), s, m),
        grouped(tree_chunks(size), g, s, m),
        0 <= i < validate_run::<H>(load, check, size, g, sel, s, m, is_root, hash).0.len(),
    ensures
        span_fits(
            validate_run::<H>(load, check, size, g, sel, s, m, is_root, hash).0[i],
            size,
            g,
            sel,
            s,
            m,
        ),
    decreases m,
{
    let n = tree_chunks(size);
    if m <= g || m <= 1 {
        lemma_one_span(size, g, sel, s, m);
    } else {
        let p = split_point(m);
        lemma_split_point(m);
        lemma_grid_halves(n, s, m);
        lemma_grouped_halves(n, g, s, m);
        let spans = validate_run::<H>(load, check, size, g, sel, s, m, is_root, hash).0;
        let (l, r) = load(TreeNode(node_number(s, m) as u64))->Ok_0->Some_0;
        let left = if wanted(sel, s, p) {
            validate_run::<H>(load, check, size, g, sel, s, p, false, l)
        } else {
            (Seq::empty(), Ok(()))
        };
        let right = if wanted(sel, s + p, m - p) {
            validate_run::<H>(load, check, size, g, sel, s + p, m - p, false, r)
        } else {
            (Seq::empty(), Ok(()))
        };
        if i < left.0.len() {
            assert(spans[i] == left.0[i]);
            lemma_spans_fit::<H>(load, check, size, g, sel, s, p, false, l, i);
            if p <= g {
                lemma_group_wanted(n, g, sel, s, p);
                lemma_in_group(spans[i].start.0 as int, g, s);
                lemma_same_start(spans[i].start.0 as int, g, s);
            }
        } else {
            let k = i - left.0.len();
            assert(spans[i] == right.0[k]);
            lemma_spans_fit::<H>(load, check, size, g, sel, s + p, m - p, false, r, k);
            if m - p <= g {
                lemma_group_wanted(n, g, sel, s + p, m - p);
                lemma_same_start(spans[i].start.0 as int, g, s + p);
            }
        }
    }
}

/// Only one group starts in a group.
proof fn lemma_same_start(a: int, g: int, s: int)
    requires
        1 <= g,
        a % g == 0,
        s % g == 0,
        s <= a < s + g,
    ensures
        a == s,
{
    if s < a {
        lemma_no_multiple(s, a, g);
    }
}

/// The spans that a validation reports follow each other without an overlap.
proof fn lemma_spans_ascend<H: Hasher>(
    load: LoadFn,
    check: CheckFn,
    size: int,
    g: int,
    sel: Set<int>,
    s: int,
    m: int,
    is_root: bool,
    hash: Digest,
    i: int,
    j: int,
)
    requires
        0 <= size <= u64::MAX,
        is_pow2(g),
        1 <= g,
        on_grid(tree_chunks(size), s, m),
        grouped(tree_chunks(size), g, s, m),
        0 <= i < j < validate_run::<H>(load, check, size, g, sel, s, m, is_root, hash).0.len(),
    ensures
        ({
            let spans = validate_run::<H>(load, check, size, g, sel, s, m, is_root, hash).0;
            spans[i].end.0 <= spans[j].start.0
        }),
    decreases m,
{
    let n = tree_chunks(size);
    if m > g && m > 1 {
        let p = split_point(m);
        lemma_split_point(m);
        lemma_grid_halves(n, s, m);
        lemma_grouped_halves(n, g, s, m);
        let spans = validate_run::<H>(load, check, size, g, sel, s, m, is_root, hash).0;
        let (l, r) = load(TreeNode(node_number(s, m) as u64))->Ok_0->Some_0;
        let left = if wanted(sel, s, p) {
            validate_run::<H>(load, check, size, g, sel, s, p, false, l)
        } else {
            (Seq::empty(), Ok(()))
        };
        let right = if wanted(sel, s + p, m - p) {
            validate_run::<H>(load, check, size, g, sel, s + p, m - p, false, r)
        } else {
            (Seq::empty(), Ok(()))
        };
        let k = left.0.len();
        if j < k {
            assert(spans[i] == left.0[i]);
            assert(spans[j] == left.0[j]);
            lemma_spans_ascend::<H>(load, check, size, g, sel, s, p, false, l, i, j);
        } else if i >= k {
            assert(spans[i] == right.0[i - k]);
            assert(spans[j] == right.0[j - k]);
            lemma_spans_ascend::<H>(
                load,
                check,
                size,
                g,
                sel,
                s + p,
                m - p,
                false,
                r,
                i - k,
                j - k,
            );
        } else {
            assert(spans[i] == left.0[i]);
            assert(spans[j] == right.0[j - k]);
            lemma_spans_fit::<H>(load, check, size, g, sel, s, p, false, l, i);
            lemma_spans_fit::<H>(load, check, size, g, sel, s + p, m - p, false, r, j - k);
        }
    }
}

/// Each span that a validation reports, whatever the outboard and the data are, is a whole chunk
/// group, as far as the blob goes, and the query asks for one of its chunks, or there is only one
/// group. The spans follow each other without an overlap.
pub proof fn law_spans_are_groups<H: Hasher>(
    load: LoadFn,
    check: CheckFn,
    tree: BaoTree,
    ranges: Set<int>,
    root: Digest,
    n: int,
    i: int,
    j: int,
)
    requires
        tree.wf(),
        n >= 1,
        tree.size <= 1024 * n,
        n == 1 || 1024 * (n - 1) < tree.size,
        0 <= i < validate_tree::<H>(load, check, tree, ranges, root).0.len(),
    ensures
        ({
            let spans = validate_tree::<H>(load, check, tree, ranges, root).0;
            let a = spans[i].start.0 as int;
            let g = tree.group();
            &&& a % g == 0
            &&& 0 <= a < n
            &&& tree.size > 0 ==> spans[i].end.0 == (if a + g <= n {
                a + g
            } else {
                n
            })
            &&& tree.size == 0 ==> spans[i].end.0 == 0
            &&& n <= g || exists|d: int|
                d >= 0 && #[trigger] ranges.contains(d) && a <= (if d < n - 1 {
                    d
                } else {
                    n - 1
                }) < a + g
            &&& i < j < spans.len() ==> spans[i].end.0 <= spans[j].start.0
        }),
{
    lemma_total(tree, n);
    lemma_group(tree.block_size);
    lemma_grid_root(n);
    lemma_mod_multiples_basic(0, tree.group());
    let size = tree.size as int;
    let g = tree.group();
    let sel = selection(ranges, n);
    lemma_spans_fit::<H>(load, check, size, g, sel, 0, n, true, root, i);
    let spans = validate_tree::<H>(load, check, tree, ranges, root).0;
    if i < j < spans.len() {
        lemma_spans_ascend::<H>(load, check, size, g, sel, 0, n, true, root, i, j);
    }
    let a = spans[i].start.0 as int;
    if n > g {
        let c = choose|c: int| a <= c < a + g && c < n && #[trigger] sel.contains(c);
        if c < n - 1 {
            assert(ranges.contains(c));
        } else {
            let d = choose|d: int| d >= n - 1 && #[trigger] ranges.contains(d);
            assert(ranges.contains(d));
        }
    }
}

/// Some span holds the chunk `c`.
spec fn spans_hold(spans: Seq<ChunkSpan>, c: int) -> bool {
    exists|i: int| 0 <= i < spans.len() && (#[trigger] spans[i]).start.0 <= c < spans[i].end.0
}

proof fn lemma_hold_concat(a: Seq<ChunkSpan>, b: Seq<ChunkSpan>, c: int)
    ensures
        spans_hold(a + b, c) <==> spans_hold(a, c) || spans_hold(b, c),
{
    let all = a + b;
    if spans_hold(all, c) {
        let i = choose|i: int|
            0 <= i < all.len() && (#[trigger] all[i]).start.0 <= c < all[i].end.0;
        if i < a.len() {
            assert(a[i] == all[i]);
        } else {
            assert(b[i - a.len()] == all[i]);
        }
    }
    if spans_hold(a, c) {
        let i = choose|i: int| 0 <= i < a.len() && (#[trigger] a[i]).start.0 <= c < a[i].end.0;
        assert(all[i] == a[i]);
    }
    if spans_hold(b, c) {
        let i = choose|i: int| 0 <= i < b.len() && (#[trigger] b[i]).start.0 <= c < b[i].end.0;
        assert(all[a.len() + i] == b[i]);
    }
}

/// The spans of a subtree lie in it.
proof fn lemma_groups_within(
    ok: spec_fn(int, int, bool) -> bool,
    size: int,
    g: int,
    sel: Set<int>,
    s: int,
    m: int,
    is_root: bool,
    c: int,
)
    requires
        0 < size <= u64::MAX,
        in_tree(size, s, m),
        spans_hold(groups_with(ok, size, g, sel, s, m, is_root), c),
    ensures
        s <= c < s + m,
    decreases m,
{
    let all = groups_with(ok, size, g, sel, s, m, is_root);
    lemma_leaf_count(size, s, m);
    if m > g && m > 1 {
        let p = split_point(m);
        lemma_split_point(m);
        let left = if wanted(sel, s, p) {
            groups_with(ok, size, g, sel, s, p, false)
        } else {
            Seq::empty()
        };
        let right = if wanted(sel, s + p, m - p) {
            groups_with(ok, size, g, sel, s + p, m - p, false)
        } else {
            Seq::empty()
        };
        lemma_hold_concat(left, right, c);
        if spans_hold(left, c) {
            lemma_groups_within(ok, size, g, sel, s, p, false, c);
        } else {
            lemma_groups_within(ok, size, g, sel, s + p, m - p, false, c);
        }
    }
}

/// Which chunks lie in the groups of a subtree that are asked for and taken.
#[verifier::spinoff_prover]
#[verifier::rlimit(40)]
proof fn lemma_groups_hold(
    ok: spec_fn(int, int, bool) -> bool,
    size: int,
    n: int,
    g: int,
    sel: Set<int>,
    s: int,
    m: int,
    is_root: bool,
    a: int,
    k: int,
    c: int,
)
    requires
        0 < size <= u64::MAX,
        n == tree_chunks(size),
        is_pow2(g),
        1 <= g,
        on_grid(n, s, m),
        grouped(n, g, s, m),
        s <= c < s + m,
        a % g == 0,
        a <= c < a + g,
        k == (if a + g <= n {
            g
        } else {
            n - a
        }),
    ensures
        spans_hold(groups_with(ok, size, g, sel, s, m, is_root), c) <==> (m <= g || wanted(
            sel,
            a,
            k,
        )) && ok(a, k, is_root && m <= g),
    decreases m,
{
    let all = groups_with(ok, size, g, sel, s, m, is_root);
    lemma_leaf_count(size, s, m);
    lemma_in_group(c, g, a);
    if m <= g || m <= 1 {
        lemma_in_group(c, g, s);
        lemma_in_group(a, g, s);
        lemma_same_start(a, g, s);
        assert(a == s);
        assert(k == m);
        if ok(s, m, is_root) {
            assert(all[0] == subtree_span(size, s, m));
            assert(spans_hold(all, c));
        } else {
            assert(all.len() == 0);
        }
    } else {
        let p = split_point(m);
        lemma_split_point(m);
        lemma_grid_halves(n, s, m);
        lemma_grouped_halves(n, g, s, m);
        lemma_split_at_group(g, m);
        let left = if wanted(sel, s, p) {
            groups_with(ok, size, g, sel, s, p, false)
        } else {
            Seq::empty()
        };
        let right = if wanted(sel, s + p, m - p) {
            groups_with(ok, size, g, sel, s + p, m - p, false)
        } else {
            Seq::empty()
        };
        lemma_hold_concat(left, right, c);
        if c < s + p {
            if spans_hold(right, c) {
                lemma_groups_within(ok, size, g, sel, s + p, m - p, false, c);
            }
            lemma_groups_hold(ok, size, n, g, sel, s, p, false, a, k, c);
            lemma_group_in_block(n, g, s, p, a, k, c);
            if wanted(sel, a, k) {
                let d = choose|d: int| a <= d < a + k && #[trigger] sel.contains(d);
                assert(s <= d < s + p && sel.contains(d));
            }
            if p <= g {
                lemma_same_start(a, g, s);
            }
        } else {
            if spans_hold(left, c) {
                lemma_groups_within(ok, size, g, sel, s, p, false, c);
            }
            lemma_groups_hold(ok, size, n, g, sel, s + p, m - p, false, a, k, c);
            lemma_group_in_block(n, g, s + p, m - p, a, k, c);
            if wanted(sel, a, k) {
                let d = choose|d: int| a <= d < a + k && #[trigger] sel.contains(d);
                assert(s + p <= d < s + p + (m - p) && sel.contains(d));
            }
            if m - p <= g {
                lemma_same_start(a, g, s + p);
            }
        }
    }
}

/// The group of a chunk of a subtree lies in the subtree.
proof fn lemma_group_in_block(n: int, g: int, s: int, m: int, a: int, k: int, c: int)
    requires
        1 <= g,
        grouped(n, g, s, m),
        on_grid(n, s, m),
        m >= g ==> m % g == 0 || s + m == n,
        a % g == 0,
        a <= c < a + g,
        s <= c < s + m,
        k == (if a + g <= n {
            g
        } else {
            n - a
        }),
    ensures
        s <= a,
        a + k <= s + m,
{
    if a < s {
        lemma_no_multiple(a, s, g);
    }
    if s + m < n {
        if a + g > s + m {
            lemma_mod_sum(s, m, g);
            lemma_no_multiple(a, s + m, g);
        }
    }
}

/// Loading gives, for each node between chunk groups, the hashes of the data that its two children
/// cover.
pub open spec fn complete<H: Hasher>(load: LoadFn, blob: Seq<u8>, g: int) -> bool {
    forall|x: int, p: int|
        #![trigger load(TreeNode(x as u64)), is_pow2(p)]
        x >= 0 && is_pow2(p) && (x + 1) % (2 * p) == p && p >= g && 1024 * (x + 1) < blob.len()
            ==> load(TreeNode(x as u64)) == Ok::<Option<(Digest, Digest)>, IoError>(
            Some(
                (
                    tree_hash::<H>(
                        blob.subrange(1024 * (x + 1 - p), 1024 * (x + 1)),
                        g,
                        x + 1 - p,
                        false,
                    ),
                    tree_hash::<H>(
                        blob.subrange(
                            1024 * (x + 1),
                            if 1024 * (x + 1 + p) <= blob.len() {
                                1024 * (x + 1 + p)
                            } else {
                                blob.len() as int
                            },
                        ),
                        g,
                        x + 1,
                        false,
                    ),
                ),
            ),
        )
}

/// As `complete`, for the nodes that cover a chunk of `sel`.
pub open spec fn complete_for<H: Hasher>(
    load: LoadFn,
    blob: Seq<u8>,
    g: int,
    sel: Set<int>,
) -> bool {
    forall|x: int, p: int|
        #![trigger load(TreeNode(x as u64)), is_pow2(p)]
        x >= 0 && is_pow2(p) && (x + 1) % (2 * p) == p && p >= g && 1024 * (x + 1) < blob.len() && (
        exists|c: int|
            x + 1 - p <= c < x + 1 + p && 1024 * c < blob.len() && #[trigger] sel.contains(c))
            ==> load(TreeNode(x as u64)) == Ok::<Option<(Digest, Digest)>, IoError>(
            Some(
                (
                    tree_hash::<H>(
                        blob.subrange(1024 * (x + 1 - p), 1024 * (x + 1)),
                        g,
                        x + 1 - p,
                        false,
                    ),
                    tree_hash::<H>(
                        blob.subrange(
                            1024 * (x + 1),
                            if 1024 * (x + 1 + p) <= blob.len() {
                                1024 * (x + 1 + p)
                            } else {
                                blob.len() as int
                            },
                        ),
                        g,
                        x + 1,
                        false,
                    ),
                ),
            ),
        )
}

/// An outboard with the right hash pair for each node that covers something selected has those on
/// the way to it.
proof fn lemma_complete_selected<H: Hasher>(
    load: LoadFn,
    blob: Seq<u8>,
    g: int,
    sel: Set<int>,
    s: int,
    m: int,
    bytes: Seq<u8>,
)
    requires
        blob.len() <= u64::MAX,
        is_pow2(g),
        1 <= g,
        complete_for::<H>(load, blob, g, sel),
        on_grid(tree_chunks(blob.len() as int), s, m),
        bytes == blob.subrange(1024 * s, byte_end(blob.len() as int, s, m)),
    ensures
        holds_selected::<H>(load, bytes, g, s, sel),
    decreases m,
{
    let size = blob.len() as int;
    let n = tree_chunks(size);
    lemma_leaf_count(size, s, m);
    assert(chunk_count(bytes) == m);
    if m > g && m > 1 && wanted(sel, s, m) {
        let h = split_point(m);
        lemma_split_point(m);
        lemma_split_at_group(g, m);
        lemma_halves(bytes);
        lemma_grid_halves(n, s, m);
        let lb = left_half(bytes);
        let rb = right_half(bytes);
        let x = node_number(s, m);
        let hi = if 1024 * (x + 1 + h) <= blob.len() {
            1024 * (x + 1 + h)
        } else {
            blob.len() as int
        };
        assert(lb =~= blob.subrange(1024 * s, byte_end(size, s, h)));
        assert(rb =~= blob.subrange(1024 * (s + h), byte_end(size, s + h, m - h)));
        assert(lb =~= blob.subrange(1024 * (x + 1 - h), 1024 * (x + 1)));
        assert(hi == byte_end(size, s + h, m - h));
        assert(rb =~= blob.subrange(1024 * (x + 1), hi));
        let c = choose|c: int| s <= c < s + m && #[trigger] sel.contains(c);
        assert(x + 1 - h <= c < x + 1 + h && 1024 * c < blob.len() && sel.contains(c));
        assert(is_pow2(h));
        assert(load(TreeNode(x as u64)) == Ok::<Option<(Digest, Digest)>, IoError>(
            Some(root_pair::<H>(bytes, g, s)),
        ));
        lemma_complete_selected::<H>(load, blob, g, sel, s, h, lb);
        lemma_complete_selected::<H>(load, blob, g, sel, s + h, m - h, rb);
    }
}

/// An outboard that has the right hash pair for each node that covers something selected.
proof fn lemma_selected_there<H: Hasher>(load: LoadFn, tree: BaoTree, blob: Seq<u8>, sel: Set<int>)
    requires
        tree.wf(),
        blob.len() == tree.size,
        complete_for::<H>(load, blob, tree.group(), sel),
    ensures
        holds_selected::<H>(load, blob, tree.group(), 0, sel),
{
    let n = tree.total();
    lemma_group(tree.block_size);
    lemma_grid_root(n);
    lemma_leaf_count(tree.size as int, 0, n);
    assert(blob =~= blob.subrange(0, byte_end(blob.len() as int, 0, n)));
    lemma_complete_selected::<H>(load, blob, tree.group(), sel, 0, n, blob);
}

/// An outboard with the right hash pair for each node has those of every subtree.
proof fn lemma_complete_holds<H: Hasher>(
    load: LoadFn,
    blob: Seq<u8>,
    g: int,
    s: int,
    m: int,
    bytes: Seq<u8>,
)
    requires
        blob.len() <= u64::MAX,
        is_pow2(g),
        1 <= g,
        complete::<H>(load, blob, g),
        on_grid(tree_chunks(blob.len() as int), s, m),
        bytes == blob.subrange(1024 * s, byte_end(blob.len() as int, s, m)),
    ensures
        holds_pairs::<H>(load, bytes, g, s),
    decreases m,
{
    let size = blob.len() as int;
    let n = tree_chunks(size);
    lemma_leaf_count(size, s, m);
    assert(chunk_count(bytes) == m);
    if m > g && m > 1 {
        let h = split_point(m);
        lemma_split_point(m);
        lemma_split_at_group(g, m);
        lemma_halves(bytes);
        lemma_grid_halves(n, s, m);
        let lb = left_half(bytes);
        let rb = right_half(bytes);
        let x = node_number(s, m);
        let hi = if 1024 * (x + 1 + h) <= blob.len() {
            1024 * (x + 1 + h)
        } else {
            blob.len() as int
        };
        assert(lb =~= blob.subrange(1024 * s, byte_end(size, s, h)));
        assert(rb =~= blob.subrange(1024 * (s + h), byte_end(size, s + h, m - h)));
        assert(lb =~= blob.subrange(1024 * (x + 1 - h), 1024 * (x + 1)));
        assert(hi == byte_end(size, s + h, m - h));
        assert(rb =~= blob.subrange(1024 * (x + 1), hi));
        assert(is_pow2(h));
        assert(load(TreeNode(x as u64)) == Ok::<Option<(Digest, Digest)>, IoError>(
            Some(root_pair::<H>(bytes, g, s)),
        ));
        lemma_complete_holds::<H>(load, blob, g, s, h, lb);
        lemma_complete_holds::<H>(load, blob, g, s + h, m - h, rb);
    }
}

/// The hash pair of a node of a subtree whose hash pairs are loaded.
proof fn lemma_pair_held<H: Hasher>(
    load: LoadFn,
    blob: Seq<u8>,
    g: int,
    s: int,
    m: int,
    bytes: Seq<u8>,
    x: int,
    p: int,
)
    requires
        blob.len() <= u64::MAX,
        is_pow2(g),
        1 <= g,
        on_grid(tree_chunks(blob.len() as int), s, m),
        bytes == blob.subrange(1024 * s, byte_end(blob.len() as int, s, m)),
        holds_pairs::<H>(load, bytes, g, s),
        s < x + 1 < s + m,
        is_pow2(p),
        (x + 1) % (2 * p) == p,
        p >= g,
    ensures
        load(TreeNode(x as u64)) == Ok::<Option<(Digest, Digest)>, IoError>(
            Some(
                (
                    tree_hash::<H>(
                        blob.subrange(1024 * (x + 1 - p), 1024 * (x + 1)),
                        g,
                        x + 1 - p,
                        false,
                    ),
                    tree_hash::<H>(
                        blob.subrange(
                            1024 * (x + 1),
                            if 1024 * (x + 1 + p) <= blob.len() {
                                1024 * (x + 1 + p)
                            } else {
                                blob.len() as int
                            },
                        ),
                        g,
                        x + 1,
                        false,
                    ),
                ),
            ),
        ),
    decreases m,
{
    let size = blob.len() as int;
    let n = tree_chunks(size);
    lemma_leaf_count(size, s, m);
    assert(chunk_count(bytes) == m);
    let h = split_point(m);
    lemma_split_point(m);
    lemma_grid_halves(n, s, m);
    let r = node_number(s, m);
    if x == r {
        lemma_width_unique(x + 1, p, h);
    } else if x < r {
        lemma_inside_block(s, h, x + 1, p);
    } else {
        lemma_inside_block(s + h, h, x + 1, p);
    }
    assert(m > g);
    lemma_halves(bytes);
    let lb = left_half(bytes);
    let rb = right_half(bytes);
    assert(lb =~= blob.subrange(1024 * s, byte_end(size, s, h)));
    assert(rb =~= blob.subrange(1024 * (s + h), byte_end(size, s + h, m - h)));
    if x == r {
        let hi = if 1024 * (x + 1 + p) <= blob.len() {
            1024 * (x + 1 + p)
        } else {
            blob.len() as int
        };
        assert(lb =~= blob.subrange(1024 * (x + 1 - p), 1024 * (x + 1)));
        assert(hi == byte_end(size, s + h, m - h));
        assert(rb =~= blob.subrange(1024 * (x + 1), hi));
    } else if x < r {
        lemma_pair_held::<H>(load, blob, g, s, h, lb, x, p);
    } else {
        lemma_pair_held::<H>(load, blob, g, s + h, m - h, rb, x, p);
    }
}

/// An outboard has the hash pairs of the tree over a blob exactly where it has, for each node between
/// chunk groups, the hashes of the data that the node's two children cover.
pub proof fn law_complete<H: Hasher>(load: LoadFn, tree: BaoTree, blob: Seq<u8>)
    requires
        tree.wf(),
        blob.len() == tree.size,
    ensures
        holds_pairs::<H>(load, blob, tree.group(), 0) <==> complete::<H>(
            load,
            blob,
            tree.group(),
        ),
{
    let g = tree.group();
    let n = tree.total();
    lemma_group(tree.block_size);
    lemma_grid_root(n);
    lemma_leaf_count(tree.size as int, 0, n);
    assert(blob =~= blob.subrange(0, byte_end(blob.len() as int, 0, n)));
    if complete::<H>(load, blob, g) {
        lemma_complete_holds::<H>(load, blob, g, 0, n, blob);
    }
    if holds_pairs::<H>(load, blob, g, 0) {
        assert forall|x: int, p: int|
            #![trigger load(TreeNode(x as u64)), is_pow2(p)]
            x >= 0 && is_pow2(p) && (x + 1) % (2 * p) == p && p >= g && 1024 * (x + 1)
                < blob.len() implies load(TreeNode(x as u64)) == Ok::<
            Option<(Digest, Digest)>,
            IoError,
        >(
            Some(
                (
                    tree_hash::<H>(
                        blob.subrange(1024 * (x + 1 - p), 1024 * (x + 1)),
                        g,
                        x + 1 - p,
                        false,
                    ),
                    tree_hash::<H>(
                        blob.subrange(
                            1024 * (x + 1),
                            if 1024 * (x + 1 + p) <= blob.len() {
                                1024 * (x + 1 + p)
                            } else {
                                blob.len() as int
                            },
                        ),
                        g,
                        x + 1,
                        false,
                    ),
                ),
            ),
        ) by {
            lemma_pair_held::<H>(load, blob, g, 0, n, blob, x, p);
        }
    }
}

/// Which chunks of a tree lie in the groups that are asked for and taken.
proof fn lemma_tree_groups_hold(
    ok: spec_fn(int, int, bool) -> bool,
    tree: BaoTree,
    ranges: Set<int>,
    n: int,
    c: int,
)
    requires
        tree.wf(),
        tree.size > 0,
        n == tree.total(),
        0 <= c < n,
    ensures
        ({
            let g = tree.group();
            let a = g * (c / g);
            let k = if a + g <= n {
                g
            } else {
                n - a
            };
            spans_hold(tree_groups_with(ok, tree, ranges), c) <==> (n <= g || exists|d: int|
                d >= 0 && #[trigger] ranges.contains(d) && a <= (if d < n - 1 {
                    d
                } else {
                    n - 1
                }) < a + g) && ok(a, k, n <= g)
        }),
{
    let g = tree.group();
    let sel = selection(ranges, n);
    lemma_group(tree.block_size);
    lemma_grid_root(n);
    lemma_groups_one(g, n);
    lemma_mod_multiples_basic(0, g);
    lemma_fundamental_div_mod(c, g);
    let a = g * (c / g);
    let k = if a + g <= n {
        g
    } else {
        n - a
    };
    lemma_mod_multiples_basic(c / g, g);
    vstd::arithmetic::mul::lemma_mul_is_commutative(c / g, g);
    lemma_groups_hold(ok, tree.size as int, n, g, sel, 0, n, true, a, k, c);
    let asked = exists|d: int|
        d >= 0 && #[trigger] ranges.contains(d) && a <= (if d < n - 1 {
            d
        } else {
            n - 1
        }) < a + g;
    if wanted(sel, a, k) {
        let e = choose|e: int| a <= e < a + k && #[trigger] sel.contains(e);
        if e < n - 1 {
            assert(ranges.contains(e));
        } else {
            let d = choose|d: int| d >= n - 1 && #[trigger] ranges.contains(d);
            assert(ranges.contains(d));
        }
        assert(wanted(sel, 0, n)) by {
            assert(0 <= e < 0 + n && sel.contains(e));
        }
    }
    if asked {
        let d = choose|d: int|
            d >= 0 && #[trigger] ranges.contains(d) && a <= (if d < n - 1 {
                d
            } else {
                n - 1
            }) < a + g;
        let e = if d < n - 1 {
            d
        } else {
            n - 1
        };
        assert(sel.contains(e));
        assert(a <= e < a + k && sel.contains(e));
    }
    assert(wanted(sel, a, k) <==> asked);
    if !(groups(g, n) == 1 || wanted(sel, 0, n)) {
        assert(!spans_hold(tree_groups_with(ok, tree, ranges), c));
    }
}

/// Validating data against an outboard that has the right hash pairs on the way to what the query
/// asks for: a chunk of the blob lies in a reported span exactly where its group is asked for, or is
/// the only one, and the data has on the group the hash of the blob.
pub proof fn law_valid_chunks<H: Hasher>(
    load: LoadFn,
    tree: BaoTree,
    ranges: Set<int>,
    data: Seq<u8>,
    blob: Seq<u8>,
    n: int,
    c: int,
)
    requires
        tree.wf(),
        blob.len() == tree.size,
        0 < tree.size <= data.len(),
        complete_for::<H>(load, blob, tree.group(), selection(ranges, n)),
        1024 * (n - 1) < tree.size <= 1024 * n,
        0 <= c < n,
    ensures
        ({
            let (spans, res) = validate_tree::<H>(
                load,
                data_check::<H>(tree.size as int, data),
                tree,
                ranges,
                tree_hash::<H>(blob, tree.group(), 0, true),
            );
            let g = tree.group();
            let a = g * (c / g);
            let end = if 1024 * (a + g) <= tree.size {
                1024 * (a + g)
            } else {
                tree.size as int
            };
            &&& res is Ok
            &&& (exists|i: int|
                0 <= i < spans.len() && (#[trigger] spans[i]).start.0 <= c < spans[i].end.0) <==> (n
                <= g || exists|d: int|
                d >= 0 && #[trigger] ranges.contains(d) && a <= (if d < n - 1 {
                    d
                } else {
                    n - 1
                }) < a + g) && H::chunk_hash(
                a as u64,
                data.subrange(1024 * a, end),
                n <= g,
            ) == H::chunk_hash(a as u64, blob.subrange(1024 * a, end), n <= g)
        }),
{
    lemma_total(tree, n);
    let g = tree.group();
    let sel = selection(ranges, n);
    lemma_selected_there::<H>(load, tree, blob, sel);
    law_valid_ranges::<H>(load, tree, ranges, data, blob);
    let ok = same_group_hash::<H>(data, blob);
    lemma_tree_groups_hold(ok, tree, ranges, n, c);
    let a = g * (c / g);
    let k = if a + g <= n {
        g
    } else {
        n - a
    };
    lemma_group(tree.block_size);
    lemma_fundamental_div_mod(c, g);
    let end = if 1024 * (a + g) <= tree.size {
        1024 * (a + g)
    } else {
        tree.size as int
    };
    assert(byte_end(blob.len() as int, a, k) == end);
    let spans = tree_groups_with(ok, tree, ranges);
    let whole = validate_tree::<H>(
        load,
        data_check::<H>(tree.size as int, data),
        tree,
        ranges,
        tree_hash::<H>(blob, tree.group(), 0, true),
    );
    assert(whole.0 == spans);
    assert(spans_hold(spans, c) <==> exists|i: int|
        0 <= i < spans.len() && (#[trigger] spans[i]).start.0 <= c < spans[i].end.0);
    let asked = exists|d: int|
        d >= 0 && #[trigger] ranges.contains(d) && a <= (if d < n - 1 {
            d
        } else {
            n - 1
        }) < a + g;
    assert(spans_hold(spans, c) <==> (n <= g || asked) && ok(a, k, n <= g));
}

/// Validating an outboard that has the right hash pairs on the way to what the query asks for: a
/// chunk of the blob lies in a reported span exactly where its group is asked for, or is the only
/// one.
pub proof fn law_valid_outboard_chunks<H: Hasher>(
    load: LoadFn,
    tree: BaoTree,
    ranges: Set<int>,
    blob: Seq<u8>,
    n: int,
    c: int,
)
    requires
        tree.wf(),
        blob.len() == tree.size,
        0 < tree.size,
        complete_for::<H>(load, blob, tree.group(), selection(ranges, n)),
        1024 * (n - 1) < tree.size <= 1024 * n,
        0 <= c < n,
    ensures
        ({
            let (spans, res) = validate_tree::<H>(
                load,
                no_check(),
                tree,
                ranges,
                tree_hash::<H>(blob, tree.group(), 0, true),
            );
            let g = tree.group();
            let a = g * (c / g);
            &&& res is Ok
            &&& (exists|i: int|
                0 <= i < spans.len() && (#[trigger] spans[i]).start.0 <= c < spans[i].end.0) <==> (n
                <= g || exists|d: int|
                d >= 0 && #[trigger] ranges.contains(d) && a <= (if d < n - 1 {
                    d
                } else {
                    n - 1
                }) < a + g)
        }),
{
    lemma_total(tree, n);
    let g = tree.group();
    let sel = selection(ranges, n);
    lemma_selected_there::<H>(load, tree, blob, sel);
    law_valid_outboard_ranges::<H>(load, tree, ranges, blob);
    lemma_tree_groups_hold(any_group(), tree, ranges, n, c);
    let spans = tree_groups_with(any_group(), tree, ranges);
    let whole = validate_tree::<H>(
        load,
        no_check(),
        tree,
        ranges,
        tree_hash::<H>(blob, tree.group(), 0, true),
    );
    assert(whole.0 == spans);
    assert(spans_hold(spans, c) <==> exists|i: int|
        0 <= i < spans.len() && (#[trigger] spans[i]).start.0 <= c < spans[i].end.0);
    let a = g * (c / g);
    let asked = exists|d: int|
        d >= 0 && #[trigger] ranges.contains(d) && a <= (if d < n - 1 {
            d
        } else {
            n - 1
        }) < a + g;
    assert(spans_hold(spans, c) <==> (n <= g || asked));
}

/// Spans that follow each other without an overlap and hold every chunk leave no gap.
proof fn lemma_no_gap(spans: Seq<ChunkSpan>, n: int)
    requires
        n >= 1,
        forall|i: int| 0 <= i < spans.len() ==> (#[trigger] spans[i]).start.0 < spans[i].end.0 <= n,
        forall|i: int, j: int|
            0 <= i < j < spans.len() ==> (#[trigger] spans[i]).end.0 <= (#[trigger] spans[j]).start.0,
        forall|c: int| 0 <= c < n ==> #[trigger] spans_hold(spans, c),
    ensures
        spans.len() > 0,
        spans[0].start.0 == 0,
        spans.last().end.0 == n,
        forall|i: int|
            0 < i < spans.len() ==> (#[trigger] spans[i]).start.0 == spans[i - 1].end.0,
{
    assert(spans_hold(spans, 0));
    let i0 = choose|i: int| 0 <= i < spans.len() && (#[trigger] spans[i]).start.0 <= 0
        < spans[i].end.0;
    if i0 > 0 {
        assert(spans[0].end.0 <= spans[i0].start.0);
    }
    assert(spans_hold(spans, n - 1));
    let il = choose|i: int| 0 <= i < spans.len() && (#[trigger] spans[i]).start.0 <= n - 1
        < spans[i].end.0;
    let last = spans.len() - 1;
    if il < last {
        assert(spans[il].end.0 <= spans[last].start.0);
        assert(spans[last].start.0 < spans[last].end.0);
    }
    assert forall|i: int| 0 < i < spans.len() implies (#[trigger] spans[i]).start.0 == spans[i
        - 1].end.0 by {
        let c = spans[i - 1].end.0 as int;
        assert(c <= spans[i].start.0);
        assert(spans_hold(spans, c));
        let k = choose|k: int| 0 <= k < spans.len() && (#[trigger] spans[k]).start.0 <= c
            < spans[k].end.0;
        if k < i - 1 {
            assert(spans[k].end.0 <= spans[i - 1].start.0);
        }
        if k > i {
            assert(spans[i].end.0 <= spans[k].start.0);
        }
    }
}

/// Validating the blob itself against its complete outboard, with a query for everything, reports
/// spans that follow each other without a gap and make up the whole blob.
pub proof fn law_all_valid<H: Hasher>(
    load: LoadFn,
    tree: BaoTree,
    ranges: Set<int>,
    data: Seq<u8>,
    blob: Seq<u8>,
    n: int,
)
    requires
        tree.wf(),
        blob.len() == tree.size,
        0 < tree.size <= data.len(),
        data.take(tree.size as int) == blob,
        complete::<H>(load, blob, tree.group()),
        1024 * (n - 1) < tree.size <= 1024 * n,
        forall|c: int| c >= 0 ==> #[trigger] ranges.contains(c),
    ensures
        ({
            let (spans, res) = validate_tree::<H>(
                load,
                data_check::<H>(tree.size as int, data),
                tree,
                ranges,
                tree_hash::<H>(blob, tree.group(), 0, true),
            );
            &&& res is Ok
            &&& spans.len() > 0
            &&& spans[0].start.0 == 0
            &&& spans.last().end.0 == n
            &&& forall|i: int|
                0 < i < spans.len() ==> (#[trigger] spans[i]).start.0 == spans[i - 1].end.0
        }),
        ({
            let (spans, res) = validate_tree::<H>(
                load,
                no_check(),
                tree,
                ranges,
                tree_hash::<H>(blob, tree.group(), 0, true),
            );
            &&& res is Ok
            &&& spans.len() > 0
            &&& spans[0].start.0 == 0
            &&& spans.last().end.0 == n
            &&& forall|i: int|
                0 < i < spans.len() ==> (#[trigger] spans[i]).start.0 == spans[i - 1].end.0
        }),
{
    let root = tree_hash::<H>(blob, tree.group(), 0, true);
    let check = data_check::<H>(tree.size as int, data);
    let g = tree.group();
    lemma_group(tree.block_size);
    lemma_all_spans::<H>(load, check, tree, ranges, root, n);
    lemma_all_spans::<H>(load, no_check(), tree, ranges, root, n);
    let spans = validate_tree::<H>(load, check, tree, ranges, root).0;
    let others = validate_tree::<H>(load, no_check(), tree, ranges, root).0;
    assert forall|c: int| 0 <= c < n implies #[trigger] spans_hold(spans, c) by {
        law_valid_chunks::<H>(load, tree, ranges, data, blob, n, c);
        lemma_fundamental_div_mod(c, g);
        let a = g * (c / g);
        let end = if 1024 * (a + g) <= tree.size {
            1024 * (a + g)
        } else {
            tree.size as int
        };
        assert(0 <= a) by (nonlinear_arith)
            requires
                a == g * (c / g),
                0 <= c,
                1 <= g,
        ;
        assert(data.subrange(1024 * a, end) =~= blob.subrange(1024 * a, end));
        assert(ranges.contains(c));
    }
    lemma_no_gap(spans, n);
    assert forall|c: int| 0 <= c < n implies #[trigger] spans_hold(others, c) by {
        law_valid_outboard_chunks::<H>(load, tree, ranges, blob, n, c);
        lemma_fundamental_div_mod(c, g);
        assert(ranges.contains(c));
    }
    lemma_no_gap(others, n);
    law_valid_chunks::<H>(load, tree, ranges, data, blob, n, 0);
    law_valid_outboard_chunks::<H>(load, tree, ranges, blob, n, 0);
}

/// The spans of a validation of a blob that is not empty are not empty, and follow each other.
proof fn lemma_all_spans<H: Hasher>(
    load: LoadFn,
    check: CheckFn,
    tree: BaoTree,
    ranges: Set<int>,
    root: Digest,
    n: int,
)
    requires
        tree.wf(),
        tree.size > 0,
        1024 * (n - 1) < tree.size <= 1024 * n,
    ensures
        ({
            let spans = validate_tree::<H>(load, check, tree, ranges, root).0;
            &&& forall|i: int|
                0 <= i < spans.len() ==> (#[trigger] spans[i]).start.0 < spans[i].end.0 <= n
            &&& forall|i: int, j: int|
                0 <= i < j < spans.len() ==> (#[trigger] spans[i]).end.0 <= (
                #[trigger] spans[j]).start.0
        }),
{
    let spans = validate_tree::<H>(load, check, tree, ranges, root).0;
    lemma_group(tree.block_size);
    assert forall|i: int| 0 <= i < spans.len() implies (#[trigger] spans[i]).start.0 < spans[i].end.0
        <= n by {
        law_spans_are_groups::<H>(load, check, tree, ranges, root, n, i, i);
    }
    assert forall|i: int, j: int| 0 <= i < j < spans.len() implies (#[trigger] spans[i]).end.0 <= (
    #[trigger] spans[j]).start.0 by {
        law_spans_are_groups::<H>(load, check, tree, ranges, root, n, i, j);
    }
}

} // verus!
