//! The shape of a tree, in terms of the numbers of its chunks and nodes.
//!
//! Between the chunks `x` and `x + 1` lies the node `x`. Where `p` is the largest power of two that
//! divides `x + 1`, the left child of the node covers the `p` chunks before the chunk `x + 1`, and
//! the right child as many from there on, as far as the blob goes. Nothing of this depends on how a
//! tree is split.
use crate::geometry::{
    byte_end, byte_start, chunks_of, groups, lemma_groups_cover, lemma_post_order, lemma_pre_order,
    lemma_split_at_group, lemma_split_point, node_number, post_order, pre_order, split_point,
    tree_chunks,
};
use crate::tree::{lemma_group, BaoTree};
use vstd::arithmetic::div_mod::{lemma_fundamental_div_mod, lemma_mod_multiples_basic};
use vstd::arithmetic::mul::lemma_mul_is_commutative;
use vstd::arithmetic::power2::is_pow2;
use vstd::prelude::*;

verus! {

/// The chunks of a blob hold all of its bytes, and one chunk less does not. An empty blob has one
/// chunk. A subtree ends where its chunks end, or at the end of the blob.
pub proof fn law_chunks(size: int, s: int, m: int)
    requires
        0 <= size,
    ensures
        1024 * (chunks_of(size) - 1) < size <= 1024 * chunks_of(size),
        size > 0 ==> tree_chunks(size) == chunks_of(size),
        tree_chunks(0) == 1,
        byte_start(s) == 1024 * s,
        byte_end(size, s, m) <= 1024 * (s + m),
        byte_end(size, s, m) <= size,
        byte_end(size, s, m) == 1024 * (s + m) || byte_end(size, s, m) == size,
{
}

/// The chunk groups hold all the chunks, and one group less does not.
pub proof fn law_groups(g: int, m: int)
    requires
        1 <= g,
        0 <= m,
    ensures
        (groups(g, m) - 1) * g < m <= groups(g, m) * g,
{
    lemma_groups_cover(g, m);
}

/// A multiple of a multiple is a multiple.
pub proof fn lemma_mod_chain(a: int, b: int, c: int)
    requires
        0 < b,
        0 < c,
        a % b == 0,
        b % c == 0,
    ensures
        a % c == 0,
{
    lemma_fundamental_div_mod(a, b);
    lemma_fundamental_div_mod(b, c);
    let i = a / b;
    let j = b / c;
    assert(a == (j * i) * c) by (nonlinear_arith)
        requires
            a == b * i + 0,
            b == c * j + 0,
    ;
    lemma_mod_multiples_basic(j * i, c);
}

/// The sum of two multiples is a multiple.
pub proof fn lemma_mod_sum(a: int, b: int, c: int)
    requires
        0 < c,
        a % c == 0,
        b % c == 0,
    ensures
        (a + b) % c == 0,
        (a - b) % c == 0,
{
    lemma_fundamental_div_mod(a, c);
    lemma_fundamental_div_mod(b, c);
    let i = a / c;
    let j = b / c;
    assert(a + b == (i + j) * c && a - b == (i - j) * c) by (nonlinear_arith)
        requires
            a == c * i + 0,
            b == c * j + 0,
    ;
    lemma_mod_multiples_basic(i + j, c);
    lemma_mod_multiples_basic(i - j, c);
}

/// There is no multiple between two that follow each other.
pub proof fn lemma_no_multiple(s: int, c: int, g: int)
    requires
        0 < g,
        s % g == 0,
        s < c < s + g,
    ensures
        c % g != 0,
{
    if c % g == 0 {
        lemma_mod_sum(c, s, g);
        lemma_fundamental_div_mod(c - s, g);
        let t = (c - s) / g;
        assert(false) by (nonlinear_arith)
            requires
                c - s == g * t + 0,
                0 < c - s < g,
        ;
    }
}

/// Of two powers of two the smaller one divides the larger one.
pub proof fn lemma_pow2_divides(a: int, b: int)
    requires
        is_pow2(a),
        is_pow2(b),
        a <= b,
    ensures
        b % a == 0,
    decreases b,
{
    reveal(is_pow2);
    if a > 1 {
        lemma_pow2_divides(a / 2, b / 2);
        lemma_fundamental_div_mod(b / 2, a / 2);
        let j = (b / 2) / (a / 2);
        assert(b == j * a) by (nonlinear_arith)
            requires
                b / 2 == (a / 2) * j + 0,
                b == 2 * (b / 2),
                a == 2 * (a / 2),
        ;
        lemma_mod_multiples_basic(j, a);
    }
}

/// Of two different powers of two the larger one is at least twice the smaller one.
pub proof fn lemma_pow2_gap(a: int, b: int)
    requires
        is_pow2(a),
        is_pow2(b),
        a < b,
    ensures
        2 * a <= b,
        is_pow2(2 * a),
        b % (2 * a) == 0,
{
    reveal(is_pow2);
    lemma_pow2_divides(a, b);
    lemma_fundamental_div_mod(b, a);
    let j = b / a;
    assert(2 * a <= b) by (nonlinear_arith)
        requires
            b == a * j + 0,
            0 < a < b,
    ;
    lemma_pow2_divides(2 * a, b);
}

/// What a node between the chunks of a block covers lies in the block.
pub proof fn lemma_inside_block(s: int, p: int, c: int, q: int)
    requires
        is_pow2(p),
        is_pow2(q),
        s % p == 0,
        s < c < s + p,
        c % (2 * q) == q,
    ensures
        q < p,
        s + q <= c,
        c + q <= s + p,
{
    reveal(is_pow2);
    assert(p >= 1 && q >= 1);
    lemma_fundamental_div_mod(c, 2 * q);
    let k = c / (2 * q);
    assert(c == 2 * (q * k) + q) by (nonlinear_arith)
        requires
            c == (2 * q) * k + q,
    ;
    if q >= p {
        lemma_pow2_divides(p, q);
        assert(c % p == 0) by {
            assert(c == (2 * k + 1) * q) by (nonlinear_arith)
                requires
                    c == 2 * (q * k) + q,
            ;
            lemma_mod_multiples_basic(2 * k + 1, q);
            lemma_mod_chain(c, q, p);
        }
        lemma_no_multiple(s, c, p);
    }
    lemma_pow2_gap(q, p);
    lemma_mod_chain(s, p, 2 * q);
    lemma_fundamental_div_mod(s, 2 * q);
    lemma_fundamental_div_mod(p, 2 * q);
    let i = s / (2 * q);
    let j = p / (2 * q);
    assert(s + q <= c && c + q <= s + p) by (nonlinear_arith)
        requires
            s == (2 * q) * i + 0,
            p == (2 * q) * j + 0,
            c == (2 * q) * k + q,
            s < c < s + p,
            q >= 1,
    {
        assert((2 * q) * k + q - (2 * q) * i == 2 * q * (k - i) + q);
        if k - i < 0 {
            assert(2 * q * (k - i) <= -2 * q);
        }
        assert(k - i >= 0);
        assert((2 * q) * i + (2 * q) * j - ((2 * q) * k + q) == 2 * q * (i + j - k) - q);
        if i + j - k <= 0 {
            assert(2 * q * (i + j - k) <= 0);
        }
        assert(i + j - k >= 1);
        assert(2 * q * (k - i) >= 0);
        assert(2 * q * (i + j - k) >= 2 * q);
    };
}

/// There is one power of two that a number is an odd multiple of.
pub proof fn lemma_width_unique(c: int, p: int, q: int)
    requires
        is_pow2(p),
        is_pow2(q),
        c % (2 * p) == p,
        c % (2 * q) == q,
    ensures
        p == q,
{
    if p < q {
        lemma_width_order(c, p, q);
    } else if q < p {
        lemma_width_order(c, q, p);
    }
}

proof fn lemma_width_order(c: int, p: int, q: int)
    requires
        is_pow2(p),
        is_pow2(q),
        p < q,
        c % (2 * q) == q,
    ensures
        c % (2 * p) == 0,
        0 < p,
{
    reveal(is_pow2);
    lemma_pow2_gap(p, q);
    lemma_fundamental_div_mod(c, 2 * q);
    let k = c / (2 * q);
    assert(c == (2 * k + 1) * q) by (nonlinear_arith)
        requires
            c == (2 * q) * k + q,
    ;
    lemma_mod_multiples_basic(2 * k + 1, q);
    lemma_mod_chain(c, q, 2 * p);
}

/// The subtree starts at a multiple of its size, taken up to a power of two, and only the last
/// subtree of a tree of `n` chunks can be smaller than that.
pub open spec fn on_grid(n: int, s: int, m: int) -> bool {
    &&& 0 <= s
    &&& 1 <= m
    &&& s + m <= n
    &&& m >= 2 ==> s % (2 * split_point(m)) == 0 && (m == 2 * split_point(m) || s + m == n)
}

/// The two halves of a subtree on the grid are on the grid.
pub proof fn lemma_grid_halves(n: int, s: int, m: int)
    requires
        on_grid(n, s, m),
        m >= 2,
    ensures
        ({
            let p = split_point(m);
            &&& on_grid(n, s, p)
            &&& on_grid(n, s + p, m - p)
            &&& (s + p) % (2 * p) == p
            &&& s % p == 0
            &&& (s + p) % p == 0
        }),
{
    let p = split_point(m);
    lemma_split_point(m);
    reveal(is_pow2);
    lemma_mod_multiples_basic(2, p);
    lemma_mod_chain(s, 2 * p, p);
    lemma_mod_multiples_basic(1, p);
    lemma_mod_sum(s, p, p);
    assert((s + p) % (2 * p) == p) by {
        lemma_fundamental_div_mod(s, 2 * p);
        let k = s / (2 * p);
        vstd::arithmetic::div_mod::lemma_fundamental_div_mod_converse(s + p, 2 * p, k, p);
        lemma_mul_is_commutative(k, 2 * p);
    }
    if p >= 2 {
        crate::geometry::lemma_split_point_unique(p, p / 2);
    }
    if m - p >= 2 {
        let q = split_point(m - p);
        lemma_split_point(m - p);
        lemma_pow2_gap(q, p);
        lemma_mod_chain(s, p, 2 * q);
        lemma_mod_sum(s, p, 2 * q);
        if m == 2 * p {
            crate::geometry::lemma_split_point_unique(p, p / 2);
        }
    }
}

/// A whole tree is on its grid.
pub proof fn lemma_grid_root(n: int)
    requires
        1 <= n,
    ensures
        on_grid(n, 0, n),
{
    if n >= 2 {
        lemma_split_point(n);
        lemma_mod_multiples_basic(0, 2 * split_point(n));
    }
}

proof fn lemma_tracked_between(g: int, s: int, m: int)
    requires
        is_pow2(g),
        1 <= g,
        1 <= m,
        s % g == 0,
    ensures
        forall|x: int| #[trigger]
            pre_order(g, s, m).contains(x) <==> s < x + 1 < s + m && (x + 1) % g == 0,
    decreases m,
{
    let all = pre_order(g, s, m);
    if m <= g {
        assert forall|x: int| #[trigger] all.contains(x) <==> s < x + 1 < s + m && (x + 1) % g
            == 0 by {
            if s < x + 1 < s + m {
                lemma_no_multiple(s, x + 1, g);
            }
        }
    } else {
        let p = split_point(m);
        lemma_split_point(m);
        lemma_split_at_group(g, m);
        lemma_mod_sum(s, p, g);
        lemma_tracked_between(g, s, p);
        lemma_tracked_between(g, s + p, m - p);
        let a = pre_order(g, s, p);
        let b = pre_order(g, s + p, m - p);
        let r = node_number(s, m);
        assert(all =~= seq![r] + a + b);
        assert forall|x: int| #[trigger] all.contains(x) <==> s < x + 1 < s + m && (x + 1) % g
            == 0 by {
            if all.contains(x) {
                let i = choose|i: int| 0 <= i < all.len() && all[i] == x;
                if 1 <= i < 1 + a.len() {
                    assert(a[i - 1] == x);
                    assert(a.contains(x));
                } else if i >= 1 + a.len() {
                    assert(b[i - 1 - a.len()] == x);
                    assert(b.contains(x));
                }
            }
            if s < x + 1 < s + m && (x + 1) % g == 0 {
                if x == r {
                    assert(all[0] == x);
                } else if x < r {
                    assert(a.contains(x));
                    let i = choose|i: int| 0 <= i < a.len() && a[i] == x;
                    assert(all[1 + i] == x);
                } else {
                    assert(b.contains(x));
                    let i = choose|i: int| 0 <= i < b.len() && b[i] == x;
                    assert(all[1 + a.len() + i] == x);
                }
            }
        }
    }
}

/// An outboard tracks exactly the nodes between chunk groups: those `x` for which the chunk `x + 1`
/// is in the blob, not the first one, and the first one of a group. It tracks each of them once.
pub proof fn law_tracked_nodes(tree: BaoTree, x: int)
    requires
        tree.wf(),
    ensures
        tree.pre_order_nodes().contains(x) <==> 0 < x + 1 && (1024 * (x + 1) < tree.size) && (x + 1)
            % tree.group() == 0,
        tree.post_order_nodes().contains(x) <==> 0 < x + 1 && (1024 * (x + 1) < tree.size) && (x
            + 1) % tree.group() == 0,
        tree.pre_order_nodes().no_duplicates(),
        tree.post_order_nodes().no_duplicates(),
{
    lemma_group(tree.block_size);
    lemma_mod_multiples_basic(0, tree.group());
    lemma_tracked_between(tree.group(), 0, tree.total());
    lemma_pre_order(tree.group(), 0, tree.total());
    lemma_post_order(tree.group(), 0, tree.total());
}

proof fn lemma_order_pair(n: int, g: int, s: int, m: int, i: int, j: int, p: int, q: int)
    requires
        is_pow2(g),
        1 <= g,
        on_grid(n, s, m),
        is_pow2(p),
        is_pow2(q),
        0 <= i < j < pre_order(g, s, m).len(),
        (pre_order(g, s, m)[i] + 1) % (2 * p) == p,
        (pre_order(g, s, m)[j] + 1) % (2 * q) == q,
    ensures
        ({
            let x = pre_order(g, s, m)[i];
            let y = pre_order(g, s, m)[j];
            ||| q < p && x - p < y < x + p
            ||| x + p <= y && x + q <= y
        }),
    decreases m,
{
    let all = pre_order(g, s, m);
    let h = split_point(m);
    lemma_split_point(m);
    lemma_grid_halves(n, s, m);
    let a = pre_order(g, s, h);
    let b = pre_order(g, s + h, m - h);
    let r = node_number(s, m);
    assert(all =~= seq![r] + a + b);
    lemma_pre_order(g, s, h);
    lemma_pre_order(g, s + h, m - h);
    let x = all[i];
    let y = all[j];
    if j < 1 + a.len() {
        assert(y == a[j - 1]);
        assert(a.contains(y));
        lemma_inside_block(s, h, y + 1, q);
    } else {
        assert(y == b[j - 1 - a.len()]);
        assert(b.contains(y));
        lemma_inside_block(s + h, h, y + 1, q);
    }
    if i == 0 {
        lemma_width_unique(r + 1, p, h);
    } else if i < 1 + a.len() {
        assert(x == a[i - 1]);
        assert(a.contains(x));
        lemma_inside_block(s, h, x + 1, p);
        if j < 1 + a.len() {
            lemma_order_pair(n, g, s, h, i - 1, j - 1, p, q);
        }
    } else {
        assert(x == b[i - 1 - a.len()]);
        lemma_order_pair(n, g, s + h, m - h, i - 1 - a.len(), j - 1 - a.len(), p, q);
    }
}

/// In pre order a node comes before the nodes that it covers, and what lies further to the left
/// comes first. Here `p` and `q` say how many chunks to each side the nodes at `i` and `j` cover.
pub proof fn law_pre_order(tree: BaoTree, i: int, j: int, p: int, q: int)
    requires
        tree.wf(),
        0 <= i < j < tree.pre_order_nodes().len(),
        is_pow2(p),
        is_pow2(q),
        (tree.pre_order_nodes()[i] + 1) % (2 * p) == p,
        (tree.pre_order_nodes()[j] + 1) % (2 * q) == q,
    ensures
        ({
            let x = tree.pre_order_nodes()[i];
            let y = tree.pre_order_nodes()[j];
            ||| q < p && x - p < y < x + p
            ||| x + p <= y && x + q <= y
        }),
{
    lemma_group(tree.block_size);
    lemma_grid_root(tree.total());
    lemma_order_pair(tree.total(), tree.group(), 0, tree.total(), i, j, p, q);
}

proof fn lemma_post_pair(n: int, g: int, s: int, m: int, i: int, j: int, p: int, q: int)
    requires
        is_pow2(g),
        1 <= g,
        on_grid(n, s, m),
        is_pow2(p),
        is_pow2(q),
        0 <= i < j < post_order(g, s, m).len(),
        (post_order(g, s, m)[i] + 1) % (2 * p) == p,
        (post_order(g, s, m)[j] + 1) % (2 * q) == q,
    ensures
        ({
            let x = post_order(g, s, m)[i];
            let y = post_order(g, s, m)[j];
            ||| p < q && y - q < x < y + q
            ||| x + p <= y && x + q <= y
        }),
    decreases m,
{
    let all = post_order(g, s, m);
    let h = split_point(m);
    lemma_split_point(m);
    lemma_grid_halves(n, s, m);
    let a = post_order(g, s, h);
    let b = post_order(g, s + h, m - h);
    let r = node_number(s, m);
    assert(all =~= a + b + seq![r]);
    lemma_pre_order(g, s, h);
    lemma_pre_order(g, s + h, m - h);
    lemma_post_order(g, s, h);
    lemma_post_order(g, s + h, m - h);
    let x = all[i];
    let y = all[j];
    if i < a.len() {
        assert(x == a[i]);
        assert(a.contains(x));
        assert(pre_order(g, s, h).contains(x));
        lemma_inside_block(s, h, x + 1, p);
    } else {
        assert(x == b[i - a.len()]);
        assert(b.contains(x));
        assert(pre_order(g, s + h, m - h).contains(x));
        lemma_inside_block(s + h, h, x + 1, p);
    }
    if j == a.len() + b.len() {
        lemma_width_unique(r + 1, q, h);
    } else if j < a.len() {
        lemma_post_pair(n, g, s, h, i, j, p, q);
    } else {
        assert(y == b[j - a.len()]);
        assert(b.contains(y));
        assert(pre_order(g, s + h, m - h).contains(y));
        lemma_inside_block(s + h, h, y + 1, q);
        if i >= a.len() {
            lemma_post_pair(n, g, s + h, m - h, i - a.len(), j - a.len(), p, q);
        }
    }
}

/// In post order a node comes after the nodes that it covers, and what lies further to the left
/// comes first. Here `p` and `q` say how many chunks to each side the nodes at `i` and `j` cover.
pub proof fn law_post_order(tree: BaoTree, i: int, j: int, p: int, q: int)
    requires
        tree.wf(),
        0 <= i < j < tree.post_order_nodes().len(),
        is_pow2(p),
        is_pow2(q),
        (tree.post_order_nodes()[i] + 1) % (2 * p) == p,
        (tree.post_order_nodes()[j] + 1) % (2 * q) == q,
    ensures
        ({
            let x = tree.post_order_nodes()[i];
            let y = tree.post_order_nodes()[j];
            ||| p < q && y - q < x < y + q
            ||| x + p <= y && x + q <= y
        }),
{
    lemma_group(tree.block_size);
    lemma_grid_root(tree.total());
    lemma_post_pair(tree.total(), tree.group(), 0, tree.total(), i, j, p, q);
}

} // verus!
