//! Encoding a part of a chunk group.
use crate::geometry::{lemma_split_point, split_point, tree_chunks};
use crate::hash::{
    chunk_count, combine_hash_pair, lemma_halves, lemma_pair_of, left_half, pair_bytes, right_half,
    root_pair, tree_hash, Digest, Hasher,
};
use crate::ranges::{full, wanted, ChunkRanges};
use crate::tree::{split_at, ChunkNum};
use vstd::prelude::*;
use vstd::slice::slice_subrange;

verus! {

/// What a response holds of the tree over `bytes`, whose first chunk has the number `s`: nothing
/// where no chunk is selected, the bytes alone for a chunk and for a subtree of at most `g` chunks
/// all of which are selected, and otherwise the hash pair and what it holds of the two children.
pub open spec fn selected_bytes<H: Hasher>(bytes: Seq<u8>, g: int, s: int, sel: Set<int>) -> Seq<u8>
    decreases bytes.len(),
{
    let m = chunk_count(bytes);
    if !wanted(sel, s, m) {
        Seq::empty()
    } else if m <= 1 || (m <= g && full(sel, s, m)) {
        bytes
    } else {
        proof {
            lemma_halves(bytes);
        }
        let pair = root_pair::<H>(bytes, 1, s);
        pair_bytes(pair.0, pair.1) + selected_bytes::<H>(left_half(bytes), g, s, sel)
            + selected_bytes::<H>(right_half(bytes), g, s + split_point(m), sel)
    }
}

/// Where all chunks are selected, both halves are.
proof fn lemma_full_halves(sel: Set<int>, s: int, m: int, p: int)
    requires
        0 < p < m,
        full(sel, s, m),
    ensures
        full(sel, s, p),
        full(sel, s + p, m - p),
        wanted(sel, s, p),
        wanted(sel, s + p, m - p),
{
    assert(sel.contains(s));
    assert(sel.contains(s + p));
}

/// Where no chunk is selected, none of a half is.
proof fn lemma_unwanted_halves(sel: Set<int>, s: int, m: int, p: int)
    requires
        0 < p < m,
        !wanted(sel, s, m),
    ensures
        !wanted(sel, s, p),
        !wanted(sel, s + p, m - p),
{
    if wanted(sel, s, p) {
        let c = choose|c: int| s <= c < s + p && #[trigger] sel.contains(c);
        assert(s <= c < s + m && sel.contains(c));
    }
    if wanted(sel, s + p, m - p) {
        let c = choose|c: int| s + p <= c < s + p + (m - p) && #[trigger] sel.contains(c);
        assert(s <= c < s + m && sel.contains(c));
    }
}

/// Appends what a response holds of the tree over `data` and returns the hash of the tree, down to
/// its chunks. The first chunk has the number `start_chunk`; subtrees of at most `group` chunks all
/// of which are selected are written without hash pairs.
pub fn encode_selected_rec<H: Hasher>(
    start_chunk: ChunkNum,
    data: &[u8],
    is_root: bool,
    ranges: &ChunkRanges,
    group: u64,
    res: &mut Vec<u8>,
) -> (hash: Digest)
    requires
        start_chunk.0 + tree_chunks(data@.len() as int) <= 0x40_0000_0000_0000,
    ensures
        hash == tree_hash::<H>(data@, 1, start_chunk.0 as int, is_root),
        final(res)@ == old(res)@ + selected_bytes::<H>(
            data@,
            group as int,
            start_chunk.0 as int,
            ranges@,
        ),
    decreases data@.len(),
{
    let ghost before = res@;
    let ghost s = start_chunk.0 as int;
    let ghost g = group as int;
    let m: u64 = data_chunks(data);
    let selected = ranges.intersects(start_chunk.0, m);
    if m <= 1 {
        if selected {
            res.extend_from_slice(data);
        }
        assert(res@ =~= before + selected_bytes::<H>(data@, g, s, ranges@));
        return H::hash_chunk(start_chunk.0, data, is_root);
    }
    let all = ranges.covers(start_chunk.0, m);
    let p = split_at(m);
    proof {
        lemma_halves(data@);
        lemma_split_point(m as int);
    }
    let mid: usize = (p * 1024) as usize;
    let left_data = slice_subrange(data, 0, mid);
    let right_data = slice_subrange(data, mid, data.len());
    assert(left_data@ =~= left_half(data@));
    assert(right_data@ =~= right_half(data@));
    let emit_parent = selected && !(all && m <= group);
    let offset = res.len();
    if emit_parent {
        // make some room for the hash pair
        push_zeros(res);
    }
    let ghost room = res@;
    let left = encode_selected_rec::<H>(start_chunk, left_data, false, ranges, group, res);
    let right_chunk = ChunkNum(start_chunk.0 + p);
    let right = encode_selected_rec::<H>(right_chunk, right_data, false, ranges, group, res);
    let ghost lo = selected_bytes::<H>(left_half(data@), g, s, ranges@);
    let ghost ro = selected_bytes::<H>(right_half(data@), g, s + p, ranges@);
    assert(res@ =~= room + lo + ro);
    if emit_parent {
        backfill(res, offset, &left, &right);
        proof {
            lemma_pair_of(left, right);
            assert(res@ =~= before + (pair_bytes(left, right) + lo + ro));
        }
    } else {
        proof {
            if !selected {
                lemma_unwanted_halves(ranges@, s, m as int, p as int);
                assert(res@ =~= before);
            } else {
                lemma_full_halves(ranges@, s, m as int, p as int);
                assert(lo == left_half(data@));
                assert(ro == right_half(data@));
                assert(res@ =~= before + data@);
            }
            assert(res@ =~= before + selected_bytes::<H>(data@, g, s, ranges@));
        }
    }
    H::hash_inner(&left, &right, is_root)
}

/// Number of chunks in the tree over `data`.
pub(crate) fn data_chunks(data: &[u8]) -> (res: u64)
    ensures
        res == chunk_count(data@),
{
    let size: u64 = data.len() as u64;
    if size == 0 {
        1
    } else {
        ChunkNum::chunks(size).0
    }
}

fn push_zeros(res: &mut Vec<u8>)
    ensures
        final(res)@ == old(res)@ + Seq::new(64, |i: int| 0u8),
{
    let ghost before = res@;
    let mut i: usize = 0;
    while i < 64
        invariant
            i <= 64,
            res@ == before + Seq::new(i as nat, |i: int| 0u8),
        decreases 64 - i,
    {
        res.push(0);
        i = i + 1;
        assert(res@ =~= before + Seq::new(i as nat, |i: int| 0u8));
    }
}

fn backfill(res: &mut Vec<u8>, offset: usize, left: &Digest, right: &Digest)
    requires
        offset + 64 <= old(res)@.len(),
    ensures
        final(res)@ == old(res)@.take(offset as int) + pair_bytes(*left, *right) + old(res)@.skip(
            offset + 64,
        ),
{
    let pair = combine_hash_pair(left, right);
    let ghost before = res@;
    let mut i: usize = 0;
    while i < 64
        invariant
            i <= 64,
            offset + 64 <= res.len(),
            res@.len() == before.len(),
            forall|j: int| 0 <= j < i ==> res@[offset + j] == pair@[j],
            forall|j: int|
                0 <= j < before.len() && !(offset <= j < offset + i) ==> res@[j] == before[j],
        decreases 64 - i,
    {
        res[offset + i] = pair[i];
        i = i + 1;
    }
    proof {
        lemma_pair_of(*left, *right);
        assert forall|j: int| offset <= j < offset + 64 implies res@[j] == pair@[j - offset] by {
            assert(res@[offset + (j - offset)] == pair@[j - offset]);
        }
    }
    assert(res@ =~= before.take(offset as int) + pair_bytes(*left, *right) + before.skip(
        offset + 64,
    ));
}

} // verus!
