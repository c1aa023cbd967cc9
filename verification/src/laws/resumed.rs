//! Decoding that goes on after a failure.
use crate::content::Content;
use crate::decode::{below_top, decode_step, expects, read_step, step_bytes};
use crate::encode::with_children;
use crate::error::{DecodeError, IoError};
use crate::geometry::{byte_end, byte_start, in_tree, lemma_split_point, node_number, split_point};
use crate::hash::{pair_of, Digest, Hasher};
use crate::iter::{leaf_chunk, lemma_leaf_count, parent_chunk, BaoChunk, Walk};
use crate::laws::accepted::decode_items;
use crate::ranges::{full, wanted};
use crate::tree::{ChunkNum, TreeNode};
use vstd::prelude::*;

verus! {

/// What decoding gives for one step after the other, from what was read for each, when it goes on
/// after failures.
pub open spec fn decode_on<H: Hasher>(
    todo: Seq<BaoChunk>,
    stack: Seq<Digest>,
    reads: Seq<Result<Seq<u8>, IoError>>,
) -> Seq<Result<Content, DecodeError>>
    decreases todo.len(),
{
    if todo.len() == 0 || reads.len() == 0 {
        Seq::empty()
    } else {
        let (after, item) = decode_step::<H>(todo[0], stack, reads[0]);
        seq![item] + decode_on::<H>(todo.skip(1), after, reads.skip(1))
    }
}

/// What a leaf gives whose data was read and that is checked against `hash`.
pub open spec fn leaf_item<H: Hasher>(s: int, bytes: Seq<u8>, hash: Digest) -> Result<
    Content,
    DecodeError,
> {
    if H::chunk_hash(s as u64, bytes, false) == hash {
        Ok(Content::Leaf { offset: byte_start(s) as u64, data: bytes })
    } else {
        Err(DecodeError::LeafHashMismatch(ChunkNum(s as u64)))
    }
}

/// Decoding a leaf with its hash on top of the stack.
proof fn lemma_on_leaf<H: Hasher>(
    w: Walk,
    s: int,
    m: int,
    bytes: Seq<u8>,
    hash: Digest,
    rest: Seq<BaoChunk>,
    stack: Seq<Digest>,
    more: Seq<Result<Seq<u8>, IoError>>,
)
    requires
        0 <= w.size <= u64::MAX,
        in_tree(w.size, s, m),
        wanted(w.sel, s, m),
        w.stops(s, m),
        bytes.len() == byte_end(w.size, s, m) - byte_start(s),
    ensures
        decode_on::<H>(
            w.steps(s, m, false) + rest,
            stack.push(hash),
            seq![Ok::<Seq<u8>, IoError>(bytes)] + more,
        ) == seq![leaf_item::<H>(s, bytes, hash)] + decode_on::<H>(rest, stack, more),
{
    lemma_leaf_count(w.size, s, m);
    let todo = w.steps(s, m, false) + rest;
    let reads = seq![Ok::<Seq<u8>, IoError>(bytes)] + more;
    assert(todo[0] == leaf_chunk(w.size, s, m, false, full(w.sel, s, m)));
    assert(todo.skip(1) =~= rest);
    assert(reads[0] == Ok::<Seq<u8>, IoError>(bytes));
    assert(reads.skip(1) =~= more);
    assert(stack.push(hash).drop_last() =~= stack);
}

/// A hash pair that was read but does not match leaves the decoder usable. Where both children of
/// its node are leaves that are asked for, the item for the node is a mismatch, the next item is
/// there if and only if the left data hashes to the left hash of the pair, and the one after it if
/// and only if the right data hashes to the right hash. What follows is decoded as if nothing had
/// happened.
pub proof fn law_decoding_goes_on<H: Hasher>(
    w: Walk,
    s: int,
    m: int,
    is_root: bool,
    rest: Seq<BaoChunk>,
    stack: Seq<Digest>,
    pair: Seq<u8>,
    left: Seq<u8>,
    right: Seq<u8>,
    more: Seq<Result<Seq<u8>, IoError>>,
)
    requires
        0 <= w.size <= u64::MAX,
        in_tree(w.size, s, m),
        !w.stops(s, m),
        wanted(w.sel, s, split_point(m)),
        wanted(w.sel, s + split_point(m), m - split_point(m)),
        w.stops(s, split_point(m)),
        w.stops(s + split_point(m), m - split_point(m)),
        pair.len() == 64,
        left.len() == byte_end(w.size, s, split_point(m)) - byte_start(s),
        right.len() == byte_end(w.size, s, m) - byte_start(s + split_point(m)),
        !expects(stack, H::inner_hash(pair_of(pair).0, pair_of(pair).1, is_root)),
    ensures
        decode_on::<H>(
            w.steps(s, m, is_root) + rest,
            stack,
            seq![
                Ok::<Seq<u8>, IoError>(pair),
                Ok::<Seq<u8>, IoError>(left),
                Ok::<Seq<u8>, IoError>(right),
            ] + more,
        ) == seq![
            Err::<Content, DecodeError>(
                DecodeError::ParentHashMismatch(TreeNode(node_number(s, m) as u64)),
            ),
            leaf_item::<H>(s, left, pair_of(pair).0),
            leaf_item::<H>(s + split_point(m), right, pair_of(pair).1),
        ] + decode_on::<H>(rest, below_top(stack), more),
        leaf_item::<H>(s, left, pair_of(pair).0) is Ok <==> H::chunk_hash(s as u64, left, false)
            == pair_of(pair).0,
        leaf_item::<H>(s + split_point(m), right, pair_of(pair).1) is Ok <==> H::chunk_hash(
            (s + split_point(m)) as u64,
            right,
            false,
        ) == pair_of(pair).1,
{
    let p = split_point(m);
    lemma_split_point(m);
    let (l, r) = pair_of(pair);
    let a = w.steps(s, p, false);
    let b = w.steps(s + p, m - p, false);
    let ok_left = Ok::<Seq<u8>, IoError>(left);
    let ok_right = Ok::<Seq<u8>, IoError>(right);
    let c = choose|c: int| s <= c < s + p && #[trigger] w.sel.contains(c);
    assert(s <= c < s + m && w.sel.contains(c));
    assert(wanted(w.sel, s, m));
    let todo = w.steps(s, m, is_root) + rest;
    let reads = seq![Ok::<Seq<u8>, IoError>(pair), ok_left, ok_right] + more;
    assert(todo[0] == parent_chunk(s, m, is_root, true, true));
    assert(todo.skip(1) =~= a + (b + rest));
    let reads1 = seq![ok_left] + (seq![ok_right] + more);
    assert(reads[0] == Ok::<Seq<u8>, IoError>(pair));
    assert(reads.skip(1) =~= reads1);
    let below = below_top(stack);
    let after = with_children(below, (l, r), true, true);
    assert(after == below.push(r).push(l));
    lemma_on_leaf::<H>(w, s, p, left, l, b + rest, below.push(r), seq![ok_right] + more);
    lemma_on_leaf::<H>(w, s + p, m - p, right, r, rest, below, more);
    let tail = decode_on::<H>(rest, below, more);
    let li = leaf_item::<H>(s, left, l);
    let ri = leaf_item::<H>(s + p, right, r);
    let miss = Err::<Content, DecodeError>(
        DecodeError::ParentHashMismatch(TreeNode(node_number(s, m) as u64)),
    );
    assert(decode_on::<H>(todo, stack, reads) == seq![miss] + decode_on::<H>(
        a + (b + rest),
        after,
        reads1,
    ));
    assert(seq![miss] + (seq![li] + (seq![ri] + tail)) =~= seq![miss, li, ri] + tail);
}

/// Going on gives an item for every read, and up to the first failure the items that decoding
/// without going on accepts.
pub proof fn law_going_on_extends<H: Hasher>(
    todo: Seq<BaoChunk>,
    stack: Seq<Digest>,
    encoded: Seq<u8>,
    reads: Seq<Result<Seq<u8>, IoError>>,
)
    requires
        reads == reads_of(todo, encoded),
    ensures
        ({
            let all = decode_on::<H>(todo, stack, reads);
            let (items, res) = decode_items::<H>(todo, stack, encoded);
            &&& all.len() == todo.len()
            &&& items.len() <= all.len()
            &&& forall|i: int|
                0 <= i < items.len() ==> all[i] == Ok::<Content, DecodeError>(#[trigger] items[i])
            &&& match res {
                Ok(_) => items.len() == all.len(),
                Err(e) => items.len() < all.len() && all[items.len() as int] == Err::<
                    Content,
                    DecodeError,
                >(e),
            }
        }),
    decreases todo.len(),
{
    if todo.len() > 0 {
        let next = encoded.skip(step_bytes(todo[0]));
        let rest = todo.skip(1);
        let (after, item) = decode_step::<H>(todo[0], stack, read_step(todo[0], encoded));
        assert(reads[0] == read_step(todo[0], encoded));
        assert(reads.skip(1) =~= reads_of(rest, next));
        law_going_on_extends::<H>(rest, after, next, reads.skip(1));
        let all = decode_on::<H>(todo, stack, reads);
        let tail = decode_on::<H>(rest, after, reads.skip(1));
        assert(all =~= seq![item] + tail);
        if item is Ok {
            let (items, res) = decode_items::<H>(todo, stack, encoded);
            let more = decode_items::<H>(rest, after, next).0;
            assert(items =~= seq![item->Ok_0] + more);
            assert forall|i: int| 0 <= i < items.len() implies all[i] == Ok::<
                Content,
                DecodeError,
            >(#[trigger] items[i]) by {
                if i > 0 {
                    assert(all[i] == tail[i - 1]);
                    assert(items[i] == more[i - 1]);
                }
            }
            if res is Err {
                assert(all[items.len() as int] == tail[more.len() as int]);
            }
        }
    }
}

/// What is read for one step after the other from a response.
pub open spec fn reads_of(todo: Seq<BaoChunk>, encoded: Seq<u8>) -> Seq<Result<Seq<u8>, IoError>>
    decreases todo.len(),
{
    if todo.len() == 0 {
        Seq::empty()
    } else {
        seq![read_step(todo[0], encoded)] + reads_of(
            todo.skip(1),
            encoded.skip(step_bytes(todo[0])),
        )
    }
}

} // verus!
