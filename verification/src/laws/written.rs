//! What stands where in a response: which bytes of the data, and which hash pairs.
use crate::copy::{outboard_loader, stored_loader, LoadFn};
use crate::encode::{encode_run, validated_run};
use crate::error::{EncodeError, IoError};
use crate::geometry::{byte_end, byte_start, lemma_split_point, node_number, split_point, tree_chunks};
use crate::hash::{
    chunk_count, lemma_halves, lemma_pair_of, left_half, pair_bytes, right_half, root_pair,
    tree_hash, Digest, Hasher,
};
use crate::iter::{leaf_chunk, lemma_leaf_count, parent_chunk, BaoChunk, Walk};
use crate::laws::queries::{
    law_empty_query, law_encode_chunks, law_encode_leaf, law_response_chunks, law_response_leaf,
    lemma_in_group,
};
use crate::laws::shape::{
    lemma_grid_halves, lemma_grid_root, lemma_pow2_gap, lemma_width_unique, on_grid,
};
use crate::laws::validated::{filled, lemma_tree_succeeds, pair_for, sent_bytes};
use crate::outboard::Outboard;
use crate::ranges::{full, selection, wanted};
use crate::select::selected_bytes;
use crate::tree::{lemma_group, BaoTree, TreeNode};
use vstd::arithmetic::div_mod::lemma_fundamental_div_mod;
use vstd::arithmetic::power2::is_pow2;
use vstd::prelude::*;

verus! {

/// Where the bytes for the step `i` start in what is written for the steps: behind 64 bytes for each
/// parent and the data of each leaf before it.
pub open spec fn place(steps: Seq<BaoChunk>, i: int) -> int
    decreases i,
{
    if i <= 0 {
        0
    } else {
        place(steps, i - 1) + (match steps[i - 1] {
            BaoChunk::Parent { .. } => 64,
            BaoChunk::Leaf { size, .. } => size as int,
        })
    }
}

/// Number of parents among the steps.
pub open spec fn parent_count(steps: Seq<BaoChunk>) -> int
    decreases steps.len(),
{
    if steps.len() == 0 {
        0
    } else {
        parent_count(steps.drop_last()) + (if steps.last() is Parent {
            1int
        } else {
            0
        })
    }
}

/// Number of bytes in the leaves among the steps.
pub open spec fn leaf_total(steps: Seq<BaoChunk>) -> int
    decreases steps.len(),
{
    if steps.len() == 0 {
        0
    } else {
        leaf_total(steps.drop_last()) + (match steps.last() {
            BaoChunk::Leaf { size, .. } => size as int,
            BaoChunk::Parent { .. } => 0,
        })
    }
}

/// Steps behind a place do not move it.
pub proof fn lemma_place_prefix(steps: Seq<BaoChunk>, k: int, i: int)
    requires
        0 <= i <= k <= steps.len(),
    ensures
        place(steps.take(k), i) == place(steps, i),
        0 <= place(steps, i),
    decreases i,
{
    if i > 0 {
        lemma_place_prefix(steps, k, i - 1);
        assert(steps.take(k)[i - 1] == steps[i - 1]);
    }
}

/// The steps take 64 bytes for each parent, and the bytes of the leaves.
pub proof fn lemma_place_sum(steps: Seq<BaoChunk>)
    ensures
        place(steps, steps.len() as int) == 64 * parent_count(steps) + leaf_total(steps),
    decreases steps.len(),
{
    if steps.len() > 0 {
        let k = steps.len() - 1;
        assert(steps.take(k) =~= steps.drop_last());
        lemma_place_sum(steps.drop_last());
        lemma_place_prefix(steps, k, k);
    }
}

/// Pieces that follow each other.
spec fn joined(pieces: Seq<Seq<u8>>) -> Seq<u8>
    decreases pieces.len(),
{
    if pieces.len() == 0 {
        Seq::empty()
    } else {
        joined(pieces.drop_last()) + pieces.last()
    }
}

proof fn lemma_joined_concat(a: Seq<Seq<u8>>, b: Seq<Seq<u8>>)
    ensures
        joined(a + b) == joined(a) + joined(b),
    decreases b.len(),
{
    if b.len() == 0 {
        assert(a + b =~= a);
        assert(joined(a) + joined(b) =~= joined(a));
    } else {
        assert((a + b).drop_last() =~= a + b.drop_last());
        lemma_joined_concat(a, b.drop_last());
        assert((joined(a) + joined(b.drop_last())) + b.last() =~= joined(a) + (joined(b.drop_last())
            + b.last()));
    }
}

proof fn lemma_joined_one(a: Seq<u8>)
    ensures
        joined(seq![a]) == a,
{
    assert(seq![a].drop_last() =~= Seq::empty());
    assert(joined(Seq::empty()) =~= Seq::<u8>::empty());
    assert(Seq::<u8>::empty() + a =~= a);
}

/// A piece is as long as what is written for the step.
spec fn piece_fits(piece: Seq<u8>, step: BaoChunk) -> bool {
    match step {
        BaoChunk::Parent { .. } => piece.len() == 64,
        BaoChunk::Leaf { size, .. } => piece.len() == size,
    }
}

/// The pieces are as long as what is written for the steps.
spec fn pieces_fit(pieces: Seq<Seq<u8>>, steps: Seq<BaoChunk>) -> bool {
    &&& pieces.len() == steps.len()
    &&& forall|i: int| 0 <= i < pieces.len() ==> piece_fits(#[trigger] pieces[i], steps[i])
}

/// Each piece stands at its place.
proof fn lemma_joined_at(pieces: Seq<Seq<u8>>, steps: Seq<BaoChunk>, i: int)
    requires
        pieces_fit(pieces, steps),
        0 <= i < pieces.len(),
    ensures
        joined(pieces).len() == place(steps, steps.len() as int),
        0 <= place(steps, i),
        place(steps, i) + pieces[i].len() <= joined(pieces).len(),
        joined(pieces).subrange(place(steps, i), place(steps, i) + pieces[i].len()) == pieces[i],
    decreases pieces.len(),
{
    let k = pieces.len() - 1;
    let front = pieces.drop_last();
    let before = steps.take(k);
    assert forall|j: int| 0 <= j < front.len() implies piece_fits(#[trigger] front[j], before[j]) by {
        assert(piece_fits(pieces[j], steps[j]));
    }
    assert(piece_fits(pieces[k], steps[k]));
    lemma_place_prefix(steps, k, k);
    lemma_place_prefix(steps, k, i);
    lemma_joined_len(front, before);
    if i < k {
        lemma_joined_at(front, before, i);
        assert(front[i] == pieces[i]);
        assert(joined(pieces).subrange(place(steps, i), place(steps, i) + pieces[i].len())
            =~= joined(front).subrange(place(steps, i), place(steps, i) + pieces[i].len()));
    } else {
        assert(joined(pieces).subrange(place(steps, i), place(steps, i) + pieces[i].len())
            =~= pieces[i]);
    }
}

proof fn lemma_joined_len(pieces: Seq<Seq<u8>>, steps: Seq<BaoChunk>)
    requires
        pieces_fit(pieces, steps),
    ensures
        joined(pieces).len() == place(steps, steps.len() as int),
    decreases pieces.len(),
{
    if pieces.len() > 0 {
        let k = pieces.len() - 1;
        let front = pieces.drop_last();
        let before = steps.take(k);
        assert forall|j: int| 0 <= j < front.len() implies piece_fits(
            #[trigger] front[j],
            before[j],
        ) by {
            assert(piece_fits(pieces[j], steps[j]));
        }
        assert(piece_fits(pieces[k], steps[k]));
        lemma_joined_len(front, before);
        lemma_place_prefix(steps, k, k);
    }
}

/// What encoding without validation writes for a step that succeeds.
spec fn encoded_piece(load: LoadFn, data: Seq<u8>, step: BaoChunk, piece: Seq<u8>) -> bool {
    &&& piece_fits(piece, step)
    &&& match step {
        BaoChunk::Parent { node, .. } => load(node) matches Ok(Some(pair)) && piece == pair.0@
            + pair.1@,
        BaoChunk::Leaf { start_chunk, size, .. } => 1024 * start_chunk.0 + size <= data.len()
            && piece == data.subrange(1024 * start_chunk.0, 1024 * start_chunk.0 + size),
    }
}

proof fn lemma_encode_pieces(load: LoadFn, todo: Seq<BaoChunk>, data: Seq<u8>) -> (pieces: Seq<
    Seq<u8>,
>)
    requires
        encode_run(load, todo, data).1 is Ok,
    ensures
        joined(pieces) == encode_run(load, todo, data).0,
        pieces.len() == todo.len(),
        forall|i: int|
            0 <= i < pieces.len() ==> encoded_piece(load, data, todo[i], #[trigger] pieces[i]),
    decreases todo.len(),
{
    if todo.len() == 0 {
        Seq::empty()
    } else {
        let rest = todo.skip(1);
        let tail = lemma_encode_pieces(load, rest, data);
        let own = match todo[0] {
            BaoChunk::Parent { node, .. } => {
                let pair = load(node)->Ok_0->Some_0;
                lemma_pair_of(pair.0, pair.1);
                pair.0@ + pair.1@
            },
            BaoChunk::Leaf { start_chunk, size, .. } => data.subrange(
                1024 * start_chunk.0,
                1024 * start_chunk.0 + size,
            ),
        };
        let pieces = seq![own] + tail;
        lemma_joined_concat(seq![own], tail);
        lemma_joined_one(own);
        assert forall|i: int| 0 <= i < pieces.len() implies encoded_piece(
            load,
            data,
            todo[i],
            #[trigger] pieces[i],
        ) by {
            if i > 0 {
                assert(pieces[i] == tail[i - 1]);
                assert(todo[i] == rest[i - 1]);
            }
        }
        pieces
    }
}

/// Where encoding without validation succeeds, what it writes has 64 bytes for each parent among the
/// steps and the bytes of each leaf, in the order of the steps. For the step `i` it holds, at its
/// place, the hash pair that is loaded for the node, the left hash first; or all the bytes of the
/// data that the leaf stands for, however much of the leaf is selected.
pub proof fn law_encoded_at(load: LoadFn, todo: Seq<BaoChunk>, data: Seq<u8>, i: int)
    requires
        encode_run(load, todo, data).1 is Ok,
        0 <= i < todo.len(),
    ensures
        ({
            let out = encode_run(load, todo, data).0;
            match todo[i] {
                BaoChunk::Parent { node, .. } => {
                    &&& place(todo, i) + 64 <= out.len()
                    &&& load(node) matches Ok(Some(pair)) && out.subrange(
                        place(todo, i),
                        place(todo, i) + 64,
                    ) == pair.0@ + pair.1@
                },
                BaoChunk::Leaf { start_chunk, size, .. } => {
                    &&& place(todo, i) + size <= out.len()
                    &&& 1024 * start_chunk.0 + size <= data.len()
                    &&& out.subrange(place(todo, i), place(todo, i) + size) == data.subrange(
                        1024 * start_chunk.0,
                        1024 * start_chunk.0 + size,
                    )
                },
            }
        }),
{
    let pieces = lemma_encode_pieces(load, todo, data);
    assert forall|k: int| 0 <= k < pieces.len() implies piece_fits(#[trigger] pieces[k], todo[k]) by {
        assert(encoded_piece(load, data, todo[k], pieces[k]));
    }
    lemma_joined_at(pieces, todo, i);
    assert(encoded_piece(load, data, todo[i], pieces[i]));
}

/// Where encoding without validation succeeds, it writes 64 bytes for each parent and the bytes of
/// each leaf.
pub proof fn law_encoded_length(load: LoadFn, todo: Seq<BaoChunk>, data: Seq<u8>)
    requires
        encode_run(load, todo, data).1 is Ok,
    ensures
        encode_run(load, todo, data).0.len() == place(todo, todo.len() as int),
        encode_run(load, todo, data).0.len() == 64 * parent_count(todo) + leaf_total(todo),
{
    let pieces = lemma_encode_pieces(load, todo, data);
    assert forall|k: int| 0 <= k < pieces.len() implies piece_fits(#[trigger] pieces[k], todo[k]) by {
        assert(encoded_piece(load, data, todo[k], pieces[k]));
    }
    lemma_joined_len(pieces, todo);
    lemma_place_sum(todo);
}

/// Where encoding without validation fails, it has written what it writes for the steps before one,
/// and for that one something is missing: a load fails, there is no hash pair, or the data ends too
/// early. The error says which.
pub proof fn law_encoding_fails(load: LoadFn, todo: Seq<BaoChunk>, data: Seq<u8>) -> (k: int)
    requires
        encode_run(load, todo, data).1 is Err,
    ensures
        0 <= k < todo.len(),
        encode_run(load, todo.take(k), data) == (
            encode_run(load, todo, data).0,
            Ok::<(), EncodeError>(()),
        ),
        match todo[k] {
            BaoChunk::Parent { node, .. } => match load(node) {
                Err(e) => encode_run(load, todo, data).1 == Err::<(), EncodeError>(
                    EncodeError::Io(e),
                ),
                Ok(None) => encode_run(load, todo, data).1 == Err::<(), EncodeError>(
                    EncodeError::ParentNotFound(node),
                ),
                Ok(Some(_)) => false,
            },
            BaoChunk::Leaf { start_chunk, size, .. } => {
                &&& 1024 * start_chunk.0 + size > data.len()
                &&& encode_run(load, todo, data).1 == Err::<(), EncodeError>(
                    EncodeError::Io(IoError::UnexpectedEof),
                )
            },
        },
    decreases todo.len(),
{
    let rest = todo.skip(1);
    let here = match todo[0] {
        BaoChunk::Parent { node, .. } => !(load(node) matches Ok(Some(_))),
        BaoChunk::Leaf { start_chunk, size, .. } => 1024 * start_chunk.0 + size > data.len(),
    };
    if here {
        assert(todo.take(0) =~= Seq::empty());
        0
    } else {
        let k = law_encoding_fails(load, rest, data);
        assert(todo.take(k + 1)[0] == todo[0]);
        assert(todo.take(k + 1).skip(1) =~= rest.take(k));
        k + 1
    }
}

/// What an outboard really has for a node is what a load gives for it, if the outboard has it.
pub proof fn law_stored_loader<O: Outboard>(st: O::V, node: TreeNode, pair: (Digest, Digest))
    ensures
        stored_loader::<O>(st)(node) == Ok::<Option<(Digest, Digest)>, IoError>(Some(pair)) <==> (
        O::load_from(st, node) == Ok::<Option<(Digest, Digest)>, IoError>(Some(pair))
            && O::stored_in(st, node)),
        forall|e: IoError|
            stored_loader::<O>(st)(node) == Err::<Option<(Digest, Digest)>, IoError>(e) <==> (
            #[trigger] O::load_from(st, node) == Err::<Option<(Digest, Digest)>, IoError>(e)),
        outboard_loader::<O>(st)(node) == O::load_from(st, node),
{
}

/// The pieces that a sender writes with validation for a subtree, one for each step of the walk that
/// reads them.
spec fn sent_pieces<H: Hasher>(
    load: LoadFn,
    bytes: Seq<u8>,
    g: int,
    s: int,
    sel: Set<int>,
) -> Seq<Seq<u8>>
    decreases bytes.len(),
{
    let m = chunk_count(bytes);
    if !wanted(sel, s, m) {
        Seq::empty()
    } else if m <= 1 || (m <= g && full(sel, s, m)) {
        seq![bytes]
    } else {
        proof {
            lemma_halves(bytes);
        }
        let pair = if m <= g {
            root_pair::<H>(bytes, 1, s)
        } else {
            pair_for(load, TreeNode(node_number(s, m) as u64))
        };
        seq![pair_bytes(pair.0, pair.1)] + sent_pieces::<H>(load, left_half(bytes), g, s, sel)
            + sent_pieces::<H>(load, right_half(bytes), g, s + split_point(m), sel)
    }
}

proof fn lemma_three_joined(own: Seq<u8>, a: Seq<Seq<u8>>, b: Seq<Seq<u8>>)
    ensures
        joined(seq![own] + a + b) == own + joined(a) + joined(b),
{
    lemma_joined_concat(seq![own] + a, b);
    lemma_joined_concat(seq![own], a);
    lemma_joined_one(own);
}

proof fn lemma_selected_joined<H: Hasher>(
    load: LoadFn,
    bytes: Seq<u8>,
    g: int,
    s: int,
    sel: Set<int>,
)
    requires
        chunk_count(bytes) <= g || chunk_count(bytes) <= 1,
    ensures
        joined(sent_pieces::<H>(load, bytes, g, s, sel)) == selected_bytes::<H>(bytes, g, s, sel),
    decreases bytes.len(),
{
    let m = chunk_count(bytes);
    if !wanted(sel, s, m) {
    } else if m <= 1 || (m <= g && full(sel, s, m)) {
        lemma_joined_one(bytes);
    } else {
        lemma_halves(bytes);
        lemma_split_point(m);
        let p = split_point(m);
        lemma_selected_joined::<H>(load, left_half(bytes), g, s, sel);
        lemma_selected_joined::<H>(load, right_half(bytes), g, s + p, sel);
        let pair = root_pair::<H>(bytes, 1, s);
        lemma_three_joined(
            pair_bytes(pair.0, pair.1),
            sent_pieces::<H>(load, left_half(bytes), g, s, sel),
            sent_pieces::<H>(load, right_half(bytes), g, s + p, sel),
        );
    }
}

proof fn lemma_sent_joined<H: Hasher>(
    load: LoadFn,
    bytes: Seq<u8>,
    g: int,
    s: int,
    sel: Set<int>,
)
    ensures
        joined(sent_pieces::<H>(load, bytes, g, s, sel)) == sent_bytes::<H>(load, bytes, g, s, sel),
    decreases bytes.len(),
{
    let m = chunk_count(bytes);
    if !wanted(sel, s, m) {
    } else if m <= g || m <= 1 {
        lemma_selected_joined::<H>(load, bytes, g, s, sel);
    } else {
        lemma_halves(bytes);
        lemma_split_point(m);
        let p = split_point(m);
        lemma_sent_joined::<H>(load, left_half(bytes), g, s, sel);
        lemma_sent_joined::<H>(load, right_half(bytes), g, s + p, sel);
        let pair = pair_for(load, TreeNode(node_number(s, m) as u64));
        lemma_three_joined(
            pair_bytes(pair.0, pair.1),
            sent_pieces::<H>(load, left_half(bytes), g, s, sel),
            sent_pieces::<H>(load, right_half(bytes), g, s + p, sel),
        );
    }
}

/// The piece for a step: the bytes of a leaf, or the hash pair of a node that covers `p` chunks to
/// each side.
spec fn sent_piece<H: Hasher>(
    load: LoadFn,
    blob: Seq<u8>,
    g: int,
    step: BaoChunk,
    p: int,
    piece: Seq<u8>,
) -> bool {
    match step {
        BaoChunk::Leaf { start_chunk, size, .. } => 1024 * start_chunk.0 + size <= blob.len()
            && piece == blob.subrange(1024 * start_chunk.0, 1024 * start_chunk.0 + size),
        BaoChunk::Parent { node, .. } => {
            let mid = node.0 + 1;
            let hi = if 1024 * (mid + p) <= blob.len() {
                1024 * (mid + p)
            } else {
                blob.len() as int
            };
            &&& p >= g ==> piece == pair_for(load, node).0@ + pair_for(load, node).1@
            &&& p < g ==> piece == tree_hash::<H>(
                blob.subrange(1024 * (mid - p), 1024 * mid),
                1,
                mid - p,
                false,
            )@ + tree_hash::<H>(blob.subrange(1024 * mid, hi), 1, mid, false)@
        },
    }
}

#[verifier::spinoff_prover]
#[verifier::rlimit(40)]
proof fn lemma_sent_piece<H: Hasher>(
    load: LoadFn,
    blob: Seq<u8>,
    w: Walk,
    s: int,
    m: int,
    is_root: bool,
    bytes: Seq<u8>,
    i: int,
    p: int,
)
    requires
        blob.len() == w.size <= u64::MAX,
        w.leaf == 1,
        is_pow2(w.whole),
        1 <= w.whole,
        on_grid(tree_chunks(w.size), s, m),
        bytes == blob.subrange(1024 * s, byte_end(w.size, s, m)),
        0 <= i < w.steps(s, m, is_root).len(),
        w.steps(s, m, is_root)[i] matches BaoChunk::Parent { node, .. } ==> is_pow2(p) && (node.0
            + 1) % (2 * p) == p,
    ensures
        i < sent_pieces::<H>(load, bytes, w.whole, s, w.sel).len(),
        sent_piece::<H>(
            load,
            blob,
            w.whole,
            w.steps(s, m, is_root)[i],
            p,
            sent_pieces::<H>(load, bytes, w.whole, s, w.sel)[i],
        ),
    decreases m,
{
    let g = w.whole;
    let n = tree_chunks(w.size);
    let steps = w.steps(s, m, is_root);
    let pieces = sent_pieces::<H>(load, bytes, g, s, w.sel);
    lemma_leaf_count(w.size, s, m);
    assert(chunk_count(bytes) == m);
    if w.stops(s, m) {
        assert(steps[0] == leaf_chunk(w.size, s, m, is_root, full(w.sel, s, m)));
    } else {
        let h = split_point(m);
        lemma_split_point(m);
        lemma_halves(bytes);
        lemma_grid_halves(n, s, m);
        let lb = left_half(bytes);
        let rb = right_half(bytes);
        assert(lb =~= blob.subrange(1024 * s, byte_end(w.size, s, h)));
        assert(rb =~= blob.subrange(1024 * (s + h), byte_end(w.size, s + h, m - h)));
        let a = w.steps(s, h, false);
        let b = w.steps(s + h, m - h, false);
        let pa = sent_pieces::<H>(load, lb, g, s, w.sel);
        let pb = sent_pieces::<H>(load, rb, g, s + h, w.sel);
        lemma_pieces_count::<H>(load, w, s, h, false, lb);
        lemma_pieces_count::<H>(load, w, s + h, m - h, false, rb);
        assert(pieces.len() == 1 + pa.len() + pb.len());
        if i == 0 {
            let r = node_number(s, m);
            assert(r as u64 == r);
            assert(steps[0] == parent_chunk(
                s,
                m,
                is_root,
                wanted(w.sel, s, h),
                wanted(w.sel, s + h, m - h),
            ));
            lemma_width_unique(r + 1, p, h);
            if h < g {
                lemma_pow2_gap(h, g);
            }
            assert(h >= g <==> m > g);
            let hi = if 1024 * (s + h + h) <= blob.len() {
                1024 * (s + h + h)
            } else {
                blob.len() as int
            };
            assert(blob.subrange(1024 * (s + h - h), 1024 * (s + h)) =~= lb);
            assert(hi == byte_end(w.size, s + h, m - h));
        } else if i < 1 + a.len() {
            assert(steps[i] == a[i - 1]);
            assert(pieces[i] == pa[i - 1]);
            lemma_sent_piece::<H>(load, blob, w, s, h, false, lb, i - 1, p);
        } else {
            assert(steps[i] == b[i - 1 - a.len()]);
            assert(pieces[i] == pb[i - 1 - a.len()]);
            lemma_sent_piece::<H>(load, blob, w, s + h, m - h, false, rb, i - 1 - a.len(), p);
        }
    }
}

/// There is a piece for each step, and it is as long as the step says.
proof fn lemma_pieces_count<H: Hasher>(
    load: LoadFn,
    w: Walk,
    s: int,
    m: int,
    is_root: bool,
    bytes: Seq<u8>,
)
    requires
        0 <= w.size <= u64::MAX,
        w.leaf == 1,
        0 <= s,
        1 <= m,
        s + m <= tree_chunks(w.size),
        bytes.len() == byte_end(w.size, s, m) - byte_start(s),
    ensures
        pieces_fit(
            sent_pieces::<H>(load, bytes, w.whole, s, w.sel),
            w.steps(s, m, is_root),
        ),
    decreases m,
{
    let g = w.whole;
    let steps = w.steps(s, m, is_root);
    let pieces = sent_pieces::<H>(load, bytes, g, s, w.sel);
    lemma_leaf_count(w.size, s, m);
    assert(chunk_count(bytes) == m);
    if !wanted(w.sel, s, m) {
    } else if w.stops(s, m) {
        assert(steps[0] == leaf_chunk(w.size, s, m, is_root, full(w.sel, s, m)));
    } else {
        let h = split_point(m);
        lemma_split_point(m);
        lemma_halves(bytes);
        let lb = left_half(bytes);
        let rb = right_half(bytes);
        lemma_pieces_count::<H>(load, w, s, h, false, lb);
        lemma_pieces_count::<H>(load, w, s + h, m - h, false, rb);
        let a = w.steps(s, h, false);
        let b = w.steps(s + h, m - h, false);
        let pa = sent_pieces::<H>(load, lb, g, s, w.sel);
        let pb = sent_pieces::<H>(load, rb, g, s + h, w.sel);
        let pair = if m <= g {
            root_pair::<H>(bytes, 1, s)
        } else {
            pair_for(load, TreeNode(node_number(s, m) as u64))
        };
        lemma_pair_of(pair.0, pair.1);
        assert(pieces.len() == 1 + pa.len() + pb.len());
        assert forall|i: int| 0 <= i < pieces.len() implies piece_fits(
            #[trigger] pieces[i],
            steps[i],
        ) by {
            if 1 <= i < 1 + a.len() {
                assert(pieces[i] == pa[i - 1]);
                assert(steps[i] == a[i - 1]);
                assert(piece_fits(pa[i - 1], a[i - 1]));
            } else if i >= 1 + a.len() {
                assert(pieces[i] == pb[i - 1 - a.len()]);
                assert(steps[i] == b[i - 1 - a.len()]);
                assert(piece_fits(pb[i - 1 - a.len()], b[i - 1 - a.len()]));
            }
        }
    }
}

/// Where encoding with validation succeeds, what it writes has 64 bytes for each parent and the
/// bytes of each leaf among the steps of the walk that reads it, in their order. At the place of a
/// leaf stand the bytes of the data from the leaf's first chunk on. At the place of a node that lies
/// between chunk groups stands the hash pair that is loaded for it; of one inside a chunk group, the
/// hashes of the data to its left and to its right, down to the chunks. The node covers `p` chunks
/// to each side.
pub proof fn law_validated_at<H: Hasher>(
    load: LoadFn,
    tree: BaoTree,
    ranges: Set<int>,
    root: Digest,
    data: Seq<u8>,
    i: int,
    p: int,
)
    requires
        tree.wf(),
        validated_run::<H>(
            load,
            tree.group(),
            selection(ranges, tree.total()),
            Walk::encode(tree, ranges).all_steps(),
            seq![root],
            data,
        ).1 is Ok,
        0 <= i < Walk::response(tree, ranges).all_steps().len(),
        Walk::response(tree, ranges).all_steps()[i] matches BaoChunk::Parent { node, .. }
            ==> is_pow2(p) && (node.0 + 1) % (2 * p) == p,
    ensures
        ({
            let steps = Walk::response(tree, ranges).all_steps();
            let out = validated_run::<H>(
                load,
                tree.group(),
                selection(ranges, tree.total()),
                Walk::encode(tree, ranges).all_steps(),
                seq![root],
                data,
            ).0;
            let at = place(steps, i);
            &&& 0 <= at
            &&& match steps[i] {
                BaoChunk::Leaf { start_chunk, size, .. } => {
                    &&& at + size <= out.len()
                    &&& 1024 * start_chunk.0 + size <= data.len()
                    &&& out.subrange(at, at + size) == data.subrange(
                        1024 * start_chunk.0,
                        1024 * start_chunk.0 + size,
                    )
                },
                BaoChunk::Parent { node, .. } => {
                    let mid = node.0 + 1;
                    let hi = if mid + p <= tree.total() {
                        if 1024 * (mid + p) <= tree.size {
                            1024 * (mid + p)
                        } else {
                            tree.size as int
                        }
                    } else {
                        tree.size as int
                    };
                    &&& at + 64 <= out.len()
                    &&& p >= tree.group() ==> (load(node) matches Ok(Some(pair)) && out.subrange(
                        at,
                        at + 64,
                    ) == pair.0@ + pair.1@)
                    &&& p < tree.group() ==> hi <= data.len() && out.subrange(at, at + 64)
                        == tree_hash::<H>(
                        data.subrange(1024 * (mid - p), 1024 * mid),
                        1,
                        mid - p,
                        false,
                    )@ + tree_hash::<H>(data.subrange(1024 * mid, hi), 1, mid, false)@
                },
            }
        }),
{
    let w = Walk::response(tree, ranges);
    let n = tree.total();
    let g = tree.group();
    let blob = filled(data, tree.size as int);
    let steps = w.all_steps();
    lemma_group(tree.block_size);
    lemma_grid_root(n);
    lemma_tree_succeeds::<H>(load, data, tree, ranges, root);
    lemma_leaf_count(tree.size as int, 0, n);
    assert(blob =~= blob.subrange(0, byte_end(w.size, 0, n)));
    let pieces = sent_pieces::<H>(load, blob, g, 0, w.sel);
    lemma_sent_joined::<H>(load, blob, g, 0, w.sel);
    lemma_pieces_count::<H>(load, w, 0, n, true, blob);
    lemma_sent_piece::<H>(load, blob, w, 0, n, true, blob, i, p);
    lemma_joined_at(pieces, steps, i);
    assert(piece_fits(pieces[i], steps[i]));
    lemma_step_there::<H>(load, data, blob, w, 0, n, true, blob, root, i, p);
    match steps[i] {
        BaoChunk::Leaf { start_chunk, size, .. } => {
            assert(blob.subrange(1024 * start_chunk.0, 1024 * start_chunk.0 + size)
                =~= data.subrange(1024 * start_chunk.0, 1024 * start_chunk.0 + size));
        },
        BaoChunk::Parent { node, .. } => {
            let mid = node.0 + 1;
            let hi = if 1024 * (mid + p) <= blob.len() {
                1024 * (mid + p)
            } else {
                blob.len() as int
            };
            if p < g {
                assert(blob.subrange(1024 * (mid - p), 1024 * mid) =~= data.subrange(
                    1024 * (mid - p),
                    1024 * mid,
                ));
                assert(blob.subrange(1024 * mid, hi) =~= data.subrange(1024 * mid, hi));
            }
        },
    }
}

/// What a step of a subtree that hashes up is about is there: the data of a leaf or of a node inside
/// a chunk group, or a hash pair.
#[verifier::spinoff_prover]
#[verifier::rlimit(40)]
proof fn lemma_step_there<H: Hasher>(
    load: LoadFn,
    data: Seq<u8>,
    blob: Seq<u8>,
    w: Walk,
    s: int,
    m: int,
    is_root: bool,
    bytes: Seq<u8>,
    hash: Digest,
    i: int,
    p: int,
)
    requires
        blob.len() == w.size <= u64::MAX,
        w.leaf == 1,
        is_pow2(w.whole),
        1 <= w.whole,
        on_grid(tree_chunks(w.size), s, m),
        bytes == blob.subrange(1024 * s, byte_end(w.size, s, m)),
        crate::laws::validated::hashes_up::<H>(load, data, bytes, w.whole, s, w.sel, is_root, hash)
            || (m <= w.whole && byte_end(w.size, s, m) <= data.len()),
        0 <= i < w.steps(s, m, is_root).len(),
        w.steps(s, m, is_root)[i] matches BaoChunk::Parent { node, .. } ==> is_pow2(p) && (node.0
            + 1) % (2 * p) == p,
    ensures
        match w.steps(s, m, is_root)[i] {
            BaoChunk::Leaf { start_chunk, size, .. } => 1024 * start_chunk.0 + size <= data.len(),
            BaoChunk::Parent { node, .. } => {
                let mid = node.0 + 1;
                let hi = if 1024 * (mid + p) <= blob.len() {
                    1024 * (mid + p)
                } else {
                    blob.len() as int
                };
                &&& p >= w.whole ==> load(node) == Ok::<Option<(Digest, Digest)>, IoError>(
                    Some(pair_for(load, node)),
                )
                &&& p < w.whole ==> 0 <= mid - p && 1024 * mid <= hi <= data.len()
            },
        },
    decreases m,
{
    let g = w.whole;
    let n = tree_chunks(w.size);
    let steps = w.steps(s, m, is_root);
    lemma_leaf_count(w.size, s, m);
    assert(chunk_count(bytes) == m);
    if w.stops(s, m) {
        assert(steps[0] == leaf_chunk(w.size, s, m, is_root, full(w.sel, s, m)));
    } else {
        let h = split_point(m);
        lemma_split_point(m);
        lemma_halves(bytes);
        lemma_grid_halves(n, s, m);
        let lb = left_half(bytes);
        let rb = right_half(bytes);
        assert(lb =~= blob.subrange(1024 * s, byte_end(w.size, s, h)));
        assert(rb =~= blob.subrange(1024 * (s + h), byte_end(w.size, s + h, m - h)));
        let a = w.steps(s, h, false);
        let b = w.steps(s + h, m - h, false);
        let pair = pair_for(load, TreeNode(node_number(s, m) as u64));
        if i == 0 {
            let r = node_number(s, m);
            assert(r as u64 == r);
            lemma_width_unique(r + 1, p, h);
            if h < g {
                lemma_pow2_gap(h, g);
            }
            assert(h >= g <==> m > g);
        } else if i < 1 + a.len() {
            assert(steps[i] == a[i - 1]);
            lemma_step_there::<H>(load, data, blob, w, s, h, false, lb, pair.0, i - 1, p);
        } else {
            assert(steps[i] == b[i - 1 - a.len()]);
            lemma_step_there::<H>(
                load,
                data,
                blob,
                w,
                s + h,
                m - h,
                false,
                rb,
                pair.1,
                i - 1 - a.len(),
                p,
            );
        }
    }
}

/// Where encoding with validation succeeds, it writes 64 bytes for each parent and the bytes of each
/// leaf of the walk that reads it. For an empty query it writes nothing.
pub proof fn law_validated_length<H: Hasher>(
    load: LoadFn,
    tree: BaoTree,
    ranges: Set<int>,
    root: Digest,
    data: Seq<u8>,
)
    requires
        tree.wf(),
        validated_run::<H>(
            load,
            tree.group(),
            selection(ranges, tree.total()),
            Walk::encode(tree, ranges).all_steps(),
            seq![root],
            data,
        ).1 is Ok,
    ensures
        ({
            let steps = Walk::response(tree, ranges).all_steps();
            let out = validated_run::<H>(
                load,
                tree.group(),
                selection(ranges, tree.total()),
                Walk::encode(tree, ranges).all_steps(),
                seq![root],
                data,
            ).0;
            &&& out.len() == place(steps, steps.len() as int)
            &&& out.len() == 64 * parent_count(steps) + leaf_total(steps)
            &&& (forall|c: int| c >= 0 ==> !#[trigger] ranges.contains(c)) ==> out.len() == 0
        }),
{
    let w = Walk::response(tree, ranges);
    let n = tree.total();
    let blob = filled(data, tree.size as int);
    lemma_tree_succeeds::<H>(load, data, tree, ranges, root);
    lemma_sent_joined::<H>(load, blob, tree.group(), 0, w.sel);
    lemma_pieces_count::<H>(load, w, 0, n, true, blob);
    lemma_joined_len(sent_pieces::<H>(load, blob, tree.group(), 0, w.sel), w.all_steps());
    lemma_place_sum(w.all_steps());
    if forall|c: int| c >= 0 ==> !#[trigger] ranges.contains(c) {
        law_empty_query(tree, ranges);
    }
}

/// An empty query is answered with nothing, whatever the outboard and the data are.
pub proof fn law_empty_response<H: Hasher>(
    load: LoadFn,
    tree: BaoTree,
    ranges: Set<int>,
    root: Digest,
    data: Seq<u8>,
)
    requires
        tree.wf(),
        forall|c: int| c >= 0 ==> !#[trigger] ranges.contains(c),
    ensures
        encode_run(load, Walk::encode(tree, ranges).all_steps(), data) == (
            Seq::<u8>::empty(),
            Ok::<(), EncodeError>(()),
        ),
        validated_run::<H>(
            load,
            tree.group(),
            selection(ranges, tree.total()),
            Walk::encode(tree, ranges).all_steps(),
            seq![root],
            data,
        ) == (Seq::<u8>::empty(), Ok::<(), EncodeError>(())),
{
    law_empty_query(tree, ranges);
}

/// Where encoding with validation succeeds, what it writes holds the data of every chunk that the
/// query asks for, and it holds that of the last chunk where the query asks for anything behind it.
pub proof fn law_chunk_is_sent<H: Hasher>(
    load: LoadFn,
    tree: BaoTree,
    ranges: Set<int>,
    root: Digest,
    data: Seq<u8>,
    n: int,
    d: int,
) -> (at: int)
    requires
        tree.wf(),
        n >= 1,
        tree.size <= 1024 * n,
        n == 1 || 1024 * (n - 1) < tree.size,
        d >= 0,
        ranges.contains(d),
        validated_run::<H>(
            load,
            tree.group(),
            selection(ranges, tree.total()),
            Walk::encode(tree, ranges).all_steps(),
            seq![root],
            data,
        ).1 is Ok,
    ensures
        ({
            let out = validated_run::<H>(
                load,
                tree.group(),
                selection(ranges, tree.total()),
                Walk::encode(tree, ranges).all_steps(),
                seq![root],
                data,
            ).0;
            let c = if d < n - 1 {
                d
            } else {
                n - 1
            };
            let end = if 1024 * (c + 1) <= tree.size {
                1024 * (c + 1)
            } else {
                tree.size as int
            };
            &&& end <= data.len()
            &&& 0 <= at
            &&& at + (end - 1024 * c) <= out.len()
            &&& out.subrange(at, at + (end - 1024 * c)) == data.subrange(1024 * c, end)
        }),
{
    let steps = Walk::response(tree, ranges).all_steps();
    let out = validated_run::<H>(
        load,
        tree.group(),
        selection(ranges, tree.total()),
        Walk::encode(tree, ranges).all_steps(),
        seq![root],
        data,
    ).0;
    let c = if d < n - 1 {
        d
    } else {
        n - 1
    };
    let end = if 1024 * (c + 1) <= tree.size {
        1024 * (c + 1)
    } else {
        tree.size as int
    };
    law_response_chunks(tree, ranges, n, c);
    assert(ranges.contains(d));
    let i = choose|i: int|
        0 <= i < steps.len() && (#[trigger] steps[i] matches BaoChunk::Leaf {
            start_chunk,
            size,
            ..
        } && start_chunk.0 <= c && (c == start_chunk.0 || 1024 * c < 1024 * start_chunk.0 + size));
    law_validated_at::<H>(load, tree, ranges, root, data, i, 1);
    law_response_leaf(tree, ranges, i);
    match steps[i] {
        BaoChunk::Leaf { start_chunk, size, .. } => {
            let a = 1024 * start_chunk.0;
            let at = place(steps, i) + (1024 * c - a);
            let whole = out.subrange(place(steps, i), place(steps, i) + size);
            assert(end <= a + size);
            assert(out.subrange(at, at + (end - 1024 * c)) =~= whole.subrange(
                1024 * c - a,
                end - a,
            ));
            assert(data.subrange(1024 * c, end) =~= data.subrange(a, a + size).subrange(
                1024 * c - a,
                end - a,
            ));
            at
        },
        BaoChunk::Parent { .. } => 0,
    }
}

/// Where encoding without validation succeeds, what it writes holds the data of the whole chunk group
/// of every chunk that the query asks for, and of the last group where the query asks for anything
/// behind it.
pub proof fn law_group_is_encoded(
    load: LoadFn,
    tree: BaoTree,
    ranges: Set<int>,
    data: Seq<u8>,
    n: int,
    d: int,
) -> (at: int)
    requires
        tree.wf(),
        n >= 1,
        tree.size <= 1024 * n,
        n == 1 || 1024 * (n - 1) < tree.size,
        d >= 0,
        ranges.contains(d),
        encode_run(load, Walk::encode(tree, ranges).all_steps(), data).1 is Ok,
    ensures
        ({
            let out = encode_run(load, Walk::encode(tree, ranges).all_steps(), data).0;
            let g = tree.group();
            let c = if d < n - 1 {
                d
            } else {
                n - 1
            };
            let a = g * (c / g);
            let end = if 1024 * (a + g) <= tree.size {
                1024 * (a + g)
            } else {
                tree.size as int
            };
            &&& end <= data.len()
            &&& 0 <= at
            &&& at + (end - 1024 * a) <= out.len()
            &&& out.subrange(at, at + (end - 1024 * a)) == data.subrange(1024 * a, end)
        }),
{
    let steps = Walk::encode(tree, ranges).all_steps();
    let g = tree.group();
    let c = if d < n - 1 {
        d
    } else {
        n - 1
    };
    let a = g * (c / g);
    lemma_group(tree.block_size);
    law_encode_chunks(tree, ranges, n, c);
    assert(ranges.contains(d));
    let i = choose|i: int|
        0 <= i < steps.len() && (#[trigger] steps[i] matches BaoChunk::Leaf {
            start_chunk,
            size,
            ..
        } && start_chunk.0 <= c && (c == start_chunk.0 || 1024 * c < 1024 * start_chunk.0 + size));
    law_encode_leaf(tree, ranges, n, i);
    law_encoded_at(load, steps, data, i);
    lemma_place_prefix(steps, i, i);
    match steps[i] {
        BaoChunk::Leaf { start_chunk, .. } => {
            lemma_in_group(c, g, start_chunk.0 as int);
            lemma_fundamental_div_mod(start_chunk.0 as int, g);
            assert(start_chunk.0 == a);
        },
        BaoChunk::Parent { .. } => {},
    }
    place(steps, i)
}

} // verus!
