//! Sets of chunks that a query asks for.
use vstd::prelude::*;

verus! {

/// `b[0]..b[1]`, `b[2]..b[3]` and so on hold `c`; the last of them is open ended where `b` has an
/// odd number of boundaries.
pub open spec fn in_boundaries(b: Seq<u64>, c: int) -> bool {
    exists|i: int| #[trigger] in_range_at(b, i, c)
}

/// The range that starts at the boundary `b[i]` holds `c`.
pub open spec fn in_range_at(b: Seq<u64>, i: int, c: int) -> bool {
    &&& 0 <= i < b.len()
    &&& i % 2 == 0
    &&& b[i] <= c
    &&& i + 1 < b.len() ==> c < b[i + 1]
}

/// Each boundary is larger than the one before.
pub open spec fn increasing(b: Seq<u64>) -> bool {
    forall|i: int, j: int| 0 <= i < j < b.len() ==> b[i] < b[j]
}

/// The boundaries hold `c` where one of them with an even place is not above `c`, and the next one, if
/// there is one, is above it.
pub proof fn law_boundaries(b: Seq<u64>)
    ensures
        forall|c: int| #[trigger]
            in_boundaries(b, c) <==> exists|i: int|
                0 <= i < b.len() && i % 2 == 0 && #[trigger] b[i] <= c && (i + 1 < b.len() ==> c
                    < b[i + 1]),
{
    assert forall|c: int| #[trigger] in_boundaries(b, c) <==> exists|i: int|
        0 <= i < b.len() && i % 2 == 0 && #[trigger] b[i] <= c && (i + 1 < b.len() ==> c < b[i + 1]) by {
        if in_boundaries(b, c) {
            let i = choose|i: int| #[trigger] in_range_at(b, i, c);
            assert(b[i] <= c);
        }
        if exists|i: int|
            0 <= i < b.len() && i % 2 == 0 && #[trigger] b[i] <= c && (i + 1 < b.len() ==> c < b[i
                + 1]) {
            let i = choose|i: int|
                0 <= i < b.len() && i % 2 == 0 && #[trigger] b[i] <= c && (i + 1 < b.len() ==> c
                    < b[i + 1]);
            assert(in_range_at(b, i, c));
        }
    }
}

/// The chunks of a tree of `total` chunks that the query `r` selects: of the last chunk's position
/// and what lies beyond it, anything that is asked for stands for the last chunk.
pub open spec fn selection(r: Set<int>, total: int) -> Set<int> {
    Set::new(
        |c: int|
            if c < total - 1 {
                r.contains(c)
            } else {
                exists|d: int| d >= total - 1 && #[trigger] r.contains(d)
            },
    )
}

/// Some chunk of `s..s + m` is in `sel`.
pub open spec fn wanted(sel: Set<int>, s: int, m: int) -> bool {
    exists|c: int| s <= c < s + m && #[trigger] sel.contains(c)
}

/// Every chunk of `s..s + m` is in `sel`.
pub open spec fn full(sel: Set<int>, s: int, m: int) -> bool {
    forall|c: int| s <= c < s + m ==> #[trigger] sel.contains(c)
}

/// A set of chunks, as its boundaries in increasing order.
#[derive(Debug)]
pub struct ChunkRanges {
    boundaries: Vec<u64>,
}

impl View for ChunkRanges {
    type V = Set<int>;

    closed spec fn view(&self) -> Set<int> {
        Set::new(|c: int| in_boundaries(self.boundaries@, c))
    }
}

impl ChunkRanges {
    #[verifier::type_invariant]
    spec fn inv(self) -> bool {
        increasing(self.boundaries@)
    }

    /// The set of no chunks.
    pub fn empty() -> (res: ChunkRanges)
        ensures
            res@ == Set::<int>::empty(),
    {
        let res = ChunkRanges { boundaries: Vec::new() };
        assert(res@ =~= Set::<int>::empty());
        res
    }

    /// The set of all chunks.
    pub fn all() -> (res: ChunkRanges)
        ensures
            res@ == Set::new(|c: int| c >= 0),
    {
        let mut boundaries: Vec<u64> = Vec::new();
        boundaries.push(0);
        let res = ChunkRanges { boundaries };
        assert forall|c: int| c >= 0 implies res@.contains(c) by {
            assert(in_range_at(res.boundaries@, 0, c));
        }
        assert(res@ =~= Set::new(|c: int| c >= 0));
        res
    }

    /// The set with these boundaries, if they are in increasing order.
    pub fn new(boundaries: Vec<u64>) -> (res: Option<ChunkRanges>)
        ensures
            res is Some <==> increasing(boundaries@),
            res matches Some(r) ==> r@ == Set::new(|c: int| in_boundaries(boundaries@, c)),
            res is Some <==> forall|i: int, j: int|
                0 <= i < j < boundaries@.len() ==> boundaries@[i] < boundaries@[j],
            res matches Some(r) ==> forall|c: int| #[trigger]
                r@.contains(c) <==> exists|i: int|
                    0 <= i < boundaries@.len() && i % 2 == 0 && #[trigger] boundaries@[i] <= c && (i
                        + 1 < boundaries@.len() ==> c < boundaries@[i + 1]),
    {
        let mut i: usize = 1;
        while i < boundaries.len()
            invariant
                1 <= i,
                boundaries@.len() >= 1 ==> i <= boundaries@.len(),
                forall|j: int, k: int|
                    0 <= j < k < i && k < boundaries@.len() ==> boundaries@[j] < boundaries@[k],
            decreases boundaries@.len() - i,
        {
            if boundaries[i - 1] >= boundaries[i] {
                assert(!(boundaries@[i - 1] < boundaries@[i as int]));
                return None;
            }
            i = i + 1;
        }
        let res = ChunkRanges { boundaries };
        proof {
            law_boundaries(boundaries@);
        }
        Some(res)
    }

    /// True if some chunk of `start..start + count` is in the set.
    pub fn intersects(&self, start: u64, count: u64) -> (res: bool)
        requires
            start + count <= u64::MAX,
        ensures
            res == wanted(self@, start as int, count as int),
            res <==> exists|c: int| start <= c < start + count && #[trigger] self@.contains(c),
    {
        let end = start + count;
        let b = &self.boundaries;
        let mut i: usize = 0;
        while i < b.len()
            invariant
                b == self.boundaries,
                i % 2 == 0 || i == b@.len(),
                i <= b@.len(),
                end == start + count,
                forall|k: int, c: int|
                    0 <= k < i && start <= c < end ==> !#[trigger] in_range_at(b@, k, c),
            decreases b@.len() - i,
        {
            let lo: u64 = if b[i] < start {
                start
            } else {
                b[i]
            };
            if lo < end && (b.len() - i == 1 || lo < b[i + 1]) {
                proof {
                    assert(in_range_at(b@, i as int, lo as int));
                    assert(self@.contains(lo as int));
                }
                return true;
            }
            assert forall|k: int, c: int| 0 <= k < i + 2 && start <= c < end implies !#[trigger]
                in_range_at(b@, k, c) by {
                if k == i {
                    if in_range_at(b@, k, c) {
                        assert(lo <= c);
                    }
                }
            }
            if b.len() - i <= 2 {
                i = b.len();
            } else {
                i = i + 2;
            }
        }
        assert forall|c: int| start <= c < end implies !#[trigger] self@.contains(c) by {
            if in_boundaries(b@, c) {
                let k = choose|k: int| #[trigger] in_range_at(b@, k, c);
                assert(!in_range_at(b@, k, c));
            }
        }
        false
    }

    /// True if every chunk of `start..start + count` is in the set.
    pub fn covers(&self, start: u64, count: u64) -> (res: bool)
        requires
            start + count <= u64::MAX,
        ensures
            res == full(self@, start as int, count as int),
            res <==> forall|c: int| start <= c < start + count ==> #[trigger] self@.contains(c),
    {
        proof {
            use_type_invariant(self);
        }
        if count == 0 {
            return true;
        }
        let end = start + count;
        let b = &self.boundaries;
        let mut i: usize = 0;
        while i < b.len()
            invariant
                b == self.boundaries,
                increasing(b@),
                i % 2 == 0 || i == b@.len(),
                i <= b@.len(),
                end == start + count,
                count > 0,
                forall|k: int| 0 <= k < i ==> !#[trigger] in_range_at(b@, k, start as int),
            decreases b@.len() - i,
        {
            if b[i] <= start && (b.len() - i == 1 || start < b[i + 1]) {
                if b.len() - i == 1 || end <= b[i + 1] {
                    assert forall|c: int| start <= c < end implies #[trigger] self@.contains(c) by {
                        assert(in_range_at(b@, i as int, c));
                    }
                    return true;
                } else {
                    let ghost c = b@[i + 1] as int;
                    assert(!self@.contains(c)) by {
                        if in_boundaries(b@, c) {
                            let k = choose|k: int| #[trigger] in_range_at(b@, k, c);
                            if k + 1 < b@.len() {
                                assert(b@[k] <= b@[i + 1] < b@[k + 1]);
                            }
                            assert(k != i + 1);
                            if k < i + 1 {
                                assert(k + 1 <= i + 1);
                                assert(k + 1 < b@.len());
                                if k + 1 < i + 1 {
                                    assert(b@[k + 1] < b@[i + 1]);
                                }
                            } else {
                                assert(b@[i + 1] < b@[k]);
                            }
                        }
                    }
                    assert(start <= c < end);
                    return false;
                }
            }
            assert(!in_range_at(b@, i as int, start as int));
            assert(!in_range_at(b@, i + 1, start as int));
            if b.len() - i <= 2 {
                i = b.len();
            } else {
                i = i + 2;
            }
        }
        assert(!self@.contains(start as int)) by {
            if in_boundaries(b@, start as int) {
                let k = choose|k: int| #[trigger] in_range_at(b@, k, start as int);
                assert(!in_range_at(b@, k, start as int));
            }
        }
        false
    }

    /// The set as a tree of `total` chunks sees it.
    pub fn truncated(&self, total: u64) -> (res: ChunkRanges)
        requires
            total >= 1,
        ensures
            res@ == selection(self@, total as int),
            forall|c: int|
                c < total - 1 ==> (#[trigger] res@.contains(c) <==> self@.contains(c)),
            forall|c: int|
                c >= total - 1 ==> (#[trigger] res@.contains(c) <==> exists|d: int|
                    d >= total - 1 && #[trigger] self@.contains(d)),
    {
        proof {
            use_type_invariant(self);
        }
        let last = total - 1;
        let b = &self.boundaries;
        let mut kept: Vec<u64> = Vec::new();
        let mut n: usize = 0;
        while n < b.len() && b[n] < last
            invariant
                n <= b@.len(),
                kept@ == b@.take(n as int),
                forall|k: int| 0 <= k < n ==> b@[k] < last,
            decreases b@.len() - n,
        {
            kept.push(b[n]);
            n = n + 1;
            assert(kept@ =~= b@.take(n as int));
        }
        let inside = n % 2 == 1;
        let beyond: bool = if inside {
            n == b.len() || b[n] > last || b.len() - n > 1
        } else {
            n < b.len()
        };
        let ghost prefix = kept@;
        if inside != beyond {
            kept.push(last);
        }
        proof {
            let bs = b@;
            let ks = kept@;
            let lc = last as int;
            assert(forall|k: int| n <= k < bs.len() ==> bs[k] >= lc);
            assert(increasing(ks));
            // what lies at or past the last chunk
            assert(beyond <==> exists|d: int| d >= lc && #[trigger] in_boundaries(bs, d)) by {
                if beyond {
                    if inside {
                        if n == bs.len() || bs[n as int] > lc {
                            assert(in_range_at(bs, n - 1, lc));
                            assert(in_boundaries(bs, lc));
                        } else {
                            let d = bs[n + 1] as int;
                            assert(in_range_at(bs, n + 1, d));
                            assert(in_boundaries(bs, d));
                        }
                    } else {
                        let d = bs[n as int] as int;
                        assert(in_range_at(bs, n as int, d));
                        assert(in_boundaries(bs, d));
                    }
                }
                if exists|d: int| d >= lc && #[trigger] in_boundaries(bs, d) {
                    let d = choose|d: int| d >= lc && #[trigger] in_boundaries(bs, d);
                    let k = choose|k: int| #[trigger] in_range_at(bs, k, d);
                    if k + 1 < n {
                        assert(bs[k + 1] < lc);
                    }
                }
            }
            assert forall|c: int| c < lc implies (in_boundaries(ks, c) <==> in_boundaries(bs, c)) by {
                if in_boundaries(ks, c) {
                    let k = choose|k: int| #[trigger] in_range_at(ks, k, c);
                    assert(in_range_at(bs, k, c));
                }
                if in_boundaries(bs, c) {
                    let k = choose|k: int| #[trigger] in_range_at(bs, k, c);
                    assert(k < n);
                    assert(in_range_at(ks, k, c));
                }
            }
            assert forall|c: int| c >= lc implies (in_boundaries(ks, c) <==> beyond) by {
                if in_boundaries(ks, c) {
                    let k = choose|k: int| #[trigger] in_range_at(ks, k, c);
                    if !beyond {
                        if inside {
                            assert(ks.len() == n + 1);
                            assert(k + 1 < ks.len() ==> ks[k + 1] <= lc);
                        } else {
                            assert(ks.len() == n);
                        }
                    }
                }
                if beyond {
                    assert(in_range_at(ks, ks.len() - 1, c));
                }
            }
            assert(Set::new(|c: int| in_boundaries(ks, c)) =~= selection(self@, total as int)) by {
                assert forall|c: int|
                    in_boundaries(ks, c) <==> selection(self@, total as int).contains(c) by {
                    if c >= lc {
                        if beyond {
                            let d = choose|d: int| d >= lc && #[trigger] in_boundaries(bs, d);
                            assert(self@.contains(d));
                        }
                        if exists|d: int| d >= lc && #[trigger] self@.contains(d) {
                            let d = choose|d: int| d >= lc && #[trigger] self@.contains(d);
                            assert(in_boundaries(bs, d));
                        }
                    }
                }
            }
        }
        ChunkRanges { boundaries: kept }
    }
}

} // verus!
