//! The shape of a bao tree, as mathematics.
//!
//! A blob is cut into chunks of 1024 bytes. The tree over `m` chunks, for `m >= 2`, has as its
//! left child the tree over the first `split_point(m)` chunks, the largest power of two below `m`,
//! and as its right child the tree over the rest. A subtree is named by its first chunk `s` and
//! its number of chunks `m`. The node between its two halves has the number
//! `s + split_point(m) - 1`, so that nodes are numbered from left to right. An outboard stops at
//! groups of `g` chunks, where `g` is a power of two: it tracks the subtrees of more than `g`
//! chunks.
use vstd::arithmetic::div_mod::{
    lemma_fundamental_div_mod, lemma_fundamental_div_mod_converse, lemma_mod_multiples_basic,
};
use vstd::arithmetic::mul::{lemma_mul_is_associative, lemma_mul_is_commutative};
use vstd::arithmetic::power2::is_pow2;
use vstd::prelude::*;

verus! {

/// Number of bytes in a chunk.
pub const CHUNK_LEN: u64 = 1024;

/// Number of chunks that `size` bytes fill, the last one perhaps in part.
pub open spec fn chunks_of(size: int) -> int {
    (size + 1023) / 1024
}

/// Number of chunks in the tree over `size` bytes. An empty blob has one empty chunk.
pub open spec fn tree_chunks(size: int) -> int {
    if size == 0 {
        1
    } else {
        chunks_of(size)
    }
}

/// The largest power of two below `m`, for `m >= 2`.
pub open spec fn split_point(m: int) -> int
    decreases m,
{
    if m <= 2 {
        1
    } else {
        2 * split_point((m + 1) / 2)
    }
}

/// The number of the node between the halves of a subtree of at least two chunks.
pub open spec fn node_number(s: int, m: int) -> int {
    s + split_point(m) - 1
}

/// First byte of the chunk `s`.
pub open spec fn byte_start(s: int) -> int {
    1024 * s
}

/// End of the bytes of a subtree in a blob of `size` bytes.
pub open spec fn byte_end(size: int, s: int, m: int) -> int {
    if 1024 * (s + m) <= size {
        1024 * (s + m)
    } else {
        size
    }
}

/// The subtree lies in the tree over `size` bytes.
pub open spec fn in_tree(size: int, s: int, m: int) -> bool {
    &&& 0 <= s
    &&& 1 <= m
    &&& s + m <= tree_chunks(size)
}

/// Number of groups of `g` chunks that `m` chunks fill, the last one perhaps in part.
pub open spec fn groups(g: int, m: int) -> int {
    (m + g - 1) / g
}

/// The nodes of a subtree that an outboard tracks, each before its children.
pub open spec fn pre_order(g: int, s: int, m: int) -> Seq<int>
    decreases m,
{
    if m <= g || m <= 1 {
        Seq::empty()
    } else {
        let p = split_point(m);
        proof {
            lemma_split_point(m);
        }
        seq![node_number(s, m)] + pre_order(g, s, p) + pre_order(g, s + p, m - p)
    }
}

/// The nodes of a subtree that an outboard tracks, each after its children.
pub open spec fn post_order(g: int, s: int, m: int) -> Seq<int>
    decreases m,
{
    if m <= g || m <= 1 {
        Seq::empty()
    } else {
        let p = split_point(m);
        proof {
            lemma_split_point(m);
        }
        post_order(g, s, p) + post_order(g, s + p, m - p) + seq![node_number(s, m)]
    }
}

/// `split_point(m)` is the power of two with `split_point(m) < m <= 2 * split_point(m)`.
pub proof fn lemma_split_point(m: int)
    requires
        m >= 2,
    ensures
        1 <= split_point(m) < m <= 2 * split_point(m),
        is_pow2(split_point(m)),
    decreases m,
{
    reveal(is_pow2);
    if m > 2 {
        lemma_split_point((m + 1) / 2);
    }
}

/// A power of two `p` with `p < m <= 2 * p` is the split point of `m`.
pub proof fn lemma_split_point_unique(m: int, p: int)
    requires
        m >= 2,
        is_pow2(p),
        p < m <= 2 * p,
    ensures
        p == split_point(m),
    decreases m,
{
    reveal(is_pow2);
    if m > 2 {
        lemma_split_point_unique((m + 1) / 2, p / 2);
    }
}

/// A subtree larger than a group is split between groups.
pub proof fn lemma_split_at_group(g: int, m: int)
    requires
        is_pow2(g),
        1 <= g < m,
    ensures
        g <= split_point(m),
        split_point(m) % g == 0,
    decreases m,
{
    reveal(is_pow2);
    if g == 1 {
        lemma_split_point(m);
    } else {
        lemma_split_at_group(g / 2, (m + 1) / 2);
        let h = g / 2;
        let q = split_point((m + 1) / 2);
        lemma_fundamental_div_mod(q, h);
        assert(2 * q == g * (q / h)) by {
            lemma_mul_is_associative(2, h, q / h);
        }
        lemma_mod_multiples_basic(q / h, g);
        lemma_mul_is_commutative(q / h, g);
    }
}

/// Splitting at a multiple of the group splits the count of groups.
pub proof fn lemma_groups_split(g: int, p: int, q: int)
    requires
        1 <= g,
        0 <= p,
        0 <= q,
        p % g == 0,
    ensures
        groups(g, p) == p / g,
        groups(g, p + q) == p / g + groups(g, q),
{
    lemma_fundamental_div_mod(p, g);
    let k = p / g;
    let r = (q + g - 1) % g;
    let d = (q + g - 1) / g;
    lemma_fundamental_div_mod(q + g - 1, g);
    assert(p + q + g - 1 == (k + d) * g + r) by (nonlinear_arith)
        requires
            p == g * k + 0,
            q + g - 1 == g * d + r,
    ;
    lemma_fundamental_div_mod_converse(p + q + g - 1, g, k + d, r);
    assert(p + g - 1 == k * g + (g - 1)) by (nonlinear_arith)
        requires
            p == g * k + 0,
    ;
    lemma_fundamental_div_mod_converse(p + g - 1, g, k, g - 1);
}

/// The groups hold all the chunks, and one group less does not.
pub proof fn lemma_groups_cover(g: int, m: int)
    requires
        1 <= g,
        0 <= m,
    ensures
        (groups(g, m) - 1) * g < m <= groups(g, m) * g,
{
    lemma_fundamental_div_mod(m + g - 1, g);
    let d = (m + g - 1) / g;
    let r = (m + g - 1) % g;
    assert((d - 1) * g < m <= d * g) by (nonlinear_arith)
        requires
            m + g - 1 == g * d + r,
            0 <= r < g,
    ;
}

/// `m` chunks fill one group exactly when they fit into one.
pub proof fn lemma_groups_one(g: int, m: int)
    requires
        1 <= g,
        1 <= m,
    ensures
        1 <= groups(g, m) <= m,
        m <= g <==> groups(g, m) == 1,
{
    lemma_fundamental_div_mod(m + g - 1, g);
    let d = (m + g - 1) / g;
    let r = (m + g - 1) % g;
    assert(d >= 1) by (nonlinear_arith)
        requires
            m + g - 1 == g * d + r,
            0 <= r < g,
            m >= 1,
            g >= 1,
    ;
    assert(d <= m) by (nonlinear_arith)
        requires
            m + g - 1 == g * d + r,
            0 <= r < g,
            m >= 1,
            g >= 1,
    ;
    if m <= g {
        assert(d <= 1) by (nonlinear_arith)
            requires
                m + g - 1 == g * d + r,
                0 <= r < g,
                m <= g,
        ;
    } else {
        assert(d >= 2) by (nonlinear_arith)
            requires
                m + g - 1 == g * d + r,
                0 <= r < g,
                m > g,
        ;
    }
}

/// The nodes that an outboard tracks: one less than there are groups, each once, and all of them
/// between the first chunk of the subtree and its last.
pub proof fn lemma_pre_order(g: int, s: int, m: int)
    requires
        is_pow2(g),
        1 <= g,
        1 <= m,
    ensures
        pre_order(g, s, m).len() == groups(g, m) - 1,
        pre_order(g, s, m).no_duplicates(),
        forall|x: int| #[trigger]
            pre_order(g, s, m).contains(x) ==> s <= x < s + m - 1,
    decreases m,
{
    lemma_groups_one(g, m);
    if m > g {
        let p = split_point(m);
        lemma_split_point(m);
        lemma_split_at_group(g, m);
        lemma_groups_split(g, p, m - p);
        lemma_pre_order(g, s, p);
        lemma_pre_order(g, s + p, m - p);
        let all = pre_order(g, s, m);
        let a = pre_order(g, s, p);
        let b = pre_order(g, s + p, m - p);
        assert forall|i: int, j: int| 0 <= i < j < all.len() implies all[i] != all[j] by {
            lemma_pre_order_at(g, s, m, i);
            lemma_pre_order_at(g, s, m, j);
            if 1 <= i < 1 + a.len() {
                assert(a.contains(a[i - 1]));
            }
            if 1 <= j < 1 + a.len() {
                assert(a.contains(a[j - 1]));
            }
            if i >= 1 + a.len() {
                assert(b.contains(b[i - 1 - a.len()]));
            }
            if j >= 1 + a.len() {
                assert(b.contains(b[j - 1 - a.len()]));
            }
        }
        assert forall|x: int| #[trigger] all.contains(x) implies s <= x < s + m - 1 by {
            let i = choose|i: int| 0 <= i < all.len() && all[i] == x;
            lemma_pre_order_at(g, s, m, i);
            if 1 <= i < 1 + a.len() {
                assert(a.contains(a[i - 1]));
            }
            if i >= 1 + a.len() {
                assert(b.contains(b[i - 1 - a.len()]));
            }
        }
    }
}

proof fn lemma_pre_order_at(g: int, s: int, m: int, i: int)
    requires
        1 <= g < m,
        0 <= i < pre_order(g, s, m).len(),
    ensures
        ({
            let p = split_point(m);
            let a = pre_order(g, s, p);
            let b = pre_order(g, s + p, m - p);
            &&& pre_order(g, s, m).len() == 1 + a.len() + b.len()
            &&& pre_order(g, s, m)[i] == (if i == 0 {
                node_number(s, m)
            } else if i < 1 + a.len() {
                a[i - 1]
            } else {
                b[i - 1 - a.len()]
            })
        }),
{
    lemma_split_point(m);
}

/// As `lemma_pre_order`, for the nodes in post order.
pub proof fn lemma_post_order(g: int, s: int, m: int)
    requires
        is_pow2(g),
        1 <= g,
        1 <= m,
    ensures
        post_order(g, s, m).len() == groups(g, m) - 1,
        post_order(g, s, m).no_duplicates(),
        forall|x: int| #[trigger]
            post_order(g, s, m).contains(x) <==> pre_order(g, s, m).contains(x),
    decreases m,
{
    lemma_groups_one(g, m);
    lemma_pre_order(g, s, m);
    if m > g {
        let p = split_point(m);
        lemma_split_point(m);
        lemma_split_at_group(g, m);
        lemma_groups_split(g, p, m - p);
        lemma_post_order(g, s, p);
        lemma_post_order(g, s + p, m - p);
        lemma_pre_order(g, s, p);
        lemma_pre_order(g, s + p, m - p);
        let all = post_order(g, s, m);
        let a = post_order(g, s, p);
        let b = post_order(g, s + p, m - p);
        let pre = pre_order(g, s, m);
        let x0 = node_number(s, m);
        assert forall|x: int| #[trigger] all.contains(x) <==> pre.contains(x) by {
            let pa = pre_order(g, s, p);
            let pb = pre_order(g, s + p, m - p);
            if all.contains(x) {
                let i = choose|i: int| 0 <= i < all.len() && all[i] == x;
                if i < a.len() {
                    assert(a.contains(a[i]));
                    let j = choose|j: int| 0 <= j < pa.len() && pa[j] == x;
                    assert(pre[1 + j] == x);
                } else if i < a.len() + b.len() {
                    assert(b.contains(b[i - a.len()]));
                    let j = choose|j: int| 0 <= j < pb.len() && pb[j] == x;
                    assert(pre[1 + pa.len() + j] == x);
                } else {
                    assert(pre[0] == x);
                }
            }
            if pre.contains(x) {
                let i = choose|i: int| 0 <= i < pre.len() && pre[i] == x;
                lemma_pre_order_at(g, s, m, i);
                if i == 0 {
                    assert(all[all.len() - 1] == x);
                } else if i < 1 + pa.len() {
                    assert(pa.contains(pa[i - 1]));
                    assert(a.contains(x));
                    let j = choose|j: int| 0 <= j < a.len() && a[j] == x;
                    assert(all[j] == x);
                } else {
                    assert(pb.contains(pb[i - 1 - pa.len()]));
                    assert(b.contains(x));
                    let j = choose|j: int| 0 <= j < b.len() && b[j] == x;
                    assert(all[a.len() + j] == x);
                }
            }
        }
        assert forall|i: int, j: int| 0 <= i < j < all.len() implies all[i] != all[j] by {
            if i < a.len() {
                assert(a.contains(a[i]));
            } else if i < a.len() + b.len() {
                assert(b.contains(b[i - a.len()]));
            }
            if j < a.len() {
                assert(a.contains(a[j]));
            } else if j < a.len() + b.len() {
                assert(b.contains(b[j - a.len()]));
            }
        }
    }
}

} // verus!
