//! What a single step of each computation does.
use crate::content::{bytes_at, write_over, BaoContentItem, Content};
use crate::copy::LoadFn;
use crate::create::{
    create_run, create_step, outboard_saver, post_steps, stream_saver, tree_post_steps, CreateStep,
    SaveFn,
};
use crate::decode::{decode_run, decode_step, item_view, read_view, step_bytes};
use crate::encode::{validated_run, with_children};
use crate::error::{DecodeError, EncodeError, IoError};
use crate::geometry::{lemma_groups_one, lemma_split_point_unique, node_number, split_point};
use crate::hash::{chunk_count, lemma_pair_of, pair_bytes, tree_hash, Digest, Hasher};
use crate::iter::BaoChunk;
use crate::laws::queries::lemma_total;
use crate::outboard::{Outboard, OutboardMut};
use crate::padding::{counted, delivers};
use crate::ranges::{selection, wanted};
use crate::select::selected_bytes;
use crate::tree::{lemma_group, BaoTree, ChunkNum, TreeNode};
use crate::validate::{
    after_load, data_check, no_check, validate_run, validate_tree, CheckFn, ChunkSpan, Visit,
};
use vstd::arithmetic::power2::{is_pow2, pow2};
use vstd::prelude::*;

verus! {

/// The expected hashes after the hash pair of a parent came in: the one of the parent is taken off,
/// and those of the children that the walk goes on to are put on, the left one on top.
pub open spec fn after_parent(
    stack: Seq<Digest>,
    l: Digest,
    r: Digest,
    left: bool,
    right: bool,
) -> Seq<Digest> {
    (if stack.len() > 0 {
        stack.take(stack.len() - 1)
    } else {
        Seq::empty()
    }) + (if right {
        seq![r]
    } else {
        Seq::empty()
    }) + (if left {
        seq![l]
    } else {
        Seq::empty()
    })
}

/// A parent that was read is accepted if its two hashes hash to the hash on top of the stack, and
/// refused otherwise. Either way the hashes of the children that come next are expected.
pub proof fn law_decode_parent<H: Hasher>(
    node: TreeNode,
    is_root: bool,
    left: bool,
    right: bool,
    stack: Seq<Digest>,
    l: Digest,
    r: Digest,
)
    ensures
        ({
            let step = BaoChunk::Parent { node, is_root, left, right };
            let (after, item) = decode_step::<H>(
                step,
                stack,
                Ok::<Seq<u8>, IoError>(l@ + r@),
            );
            &&& item == (if stack.len() > 0 && stack[stack.len() - 1] == H::inner_hash(
                l,
                r,
                is_root,
            ) {
                Ok::<Content, DecodeError>(Content::Parent { node, pair: (l, r) })
            } else {
                Err(DecodeError::ParentHashMismatch(node))
            })
            &&& after == after_parent(stack, l, r, left, right)
        }),
{
    let step = BaoChunk::Parent { node, is_root, left, right };
    lemma_pair_of(l, r);
    assert(l@ + r@ == pair_bytes(l, r));
    let after = decode_step::<H>(step, stack, Ok::<Seq<u8>, IoError>(l@ + r@)).0;
    assert(after =~= after_parent(stack, l, r, left, right));
}

/// A leaf that was read is accepted if its data hashes to the hash on top of the stack, and refused
/// otherwise. Either way that hash is taken off.
pub proof fn law_decode_leaf<H: Hasher>(
    start_chunk: ChunkNum,
    size: u64,
    is_root: bool,
    full: bool,
    stack: Seq<Digest>,
    bytes: Seq<u8>,
)
    requires
        bytes.len() == size,
        1024 * start_chunk.0 <= u64::MAX,
    ensures
        ({
            let step = BaoChunk::Leaf { start_chunk, size, is_root, full };
            let (after, item) = decode_step::<H>(step, stack, Ok::<Seq<u8>, IoError>(bytes));
            &&& item == (if stack.len() > 0 && stack[stack.len() - 1] == H::chunk_hash(
                start_chunk.0,
                bytes,
                is_root,
            ) {
                Ok::<Content, DecodeError>(
                    Content::Leaf { offset: (1024 * start_chunk.0) as u64, data: bytes },
                )
            } else {
                Err(DecodeError::LeafHashMismatch(start_chunk))
            })
            &&& stack.len() > 0 ==> after == stack.take(stack.len() - 1)
            &&& stack.len() == 0 ==> after.len() == 0
        }),
{
    let step = BaoChunk::Leaf { start_chunk, size, is_root, full };
    let after = decode_step::<H>(step, stack, Ok::<Seq<u8>, IoError>(bytes)).0;
    if stack.len() > 0 {
        assert(after =~= stack.take(stack.len() - 1));
    }
}

/// What could not be read, or not as far as it should, leaves the expected hashes as they are. The
/// error says what is missing where the stream ended, and is that of the read otherwise.
pub proof fn law_decode_unread<H: Hasher>(
    step: BaoChunk,
    stack: Seq<Digest>,
    read: Result<Seq<u8>, IoError>,
)
    requires
        match step {
            BaoChunk::Parent { .. } => !(read matches Ok(bytes) && bytes.len() == 64),
            BaoChunk::Leaf { size, .. } => !(read matches Ok(bytes) && bytes.len() == size),
        },
    ensures
        ({
            let (after, item) = decode_step::<H>(step, stack, read);
            let ended = match read {
                Ok(_) => true,
                Err(e) => e == IoError::UnexpectedEof,
            };
            &&& after == stack
            &&& ended ==> item == Err::<Content, DecodeError>(
                match step {
                    BaoChunk::Parent { node, .. } => DecodeError::ParentNotFound(node),
                    BaoChunk::Leaf { start_chunk, .. } => DecodeError::LeafNotFound(start_chunk),
                },
            )
            &&& !ended ==> item == Err::<Content, DecodeError>(
                DecodeError::Io(read->Err_0),
            )
        }),
{
}

/// Decoding into a target and an outboard takes one step after the other: what a step needs is cut
/// off the front of the response; a hash pair that is accepted is saved, and data is written over
/// the target where it belongs; the first failure ends it.
pub proof fn law_decode_in_turn<O: Outboard + OutboardMut>(
    step: BaoChunk,
    rest: Seq<BaoChunk>,
    stack: Seq<Digest>,
    encoded: Seq<u8>,
    target: Seq<u8>,
    st: <O as View>::V,
)
    ensures
        decode_run::<O>(Seq::empty(), stack, encoded, target, st) == (
            target,
            st,
            Ok::<(), DecodeError>(()),
        ),
        ({
            let n = match step {
                BaoChunk::Parent { .. } => 64,
                BaoChunk::Leaf { size, .. } => size as int,
            };
            let read = if n <= encoded.len() {
                Ok(encoded.take(n))
            } else {
                Err(IoError::UnexpectedEof)
            };
            let (after, item) = decode_step::<<O as Outboard>::Hasher>(step, stack, read);
            let run = decode_run::<O>(seq![step] + rest, stack, encoded, target, st);
            match item {
                Err(e) => run == (target, st, Err::<(), DecodeError>(e)),
                Ok(Content::Parent { node, pair }) => {
                    let (st1, saved) = O::saved(st, node, pair);
                    &&& saved matches Err(e) ==> run == (
                        target,
                        st1,
                        Err::<(), DecodeError>(DecodeError::Io(e)),
                    )
                    &&& saved is Ok ==> run == decode_run::<O>(
                        rest,
                        after,
                        encoded.skip(n),
                        target,
                        st1,
                    )
                },
                Ok(Content::Leaf { offset, data }) => run == decode_run::<O>(
                    rest,
                    after,
                    encoded.skip(n),
                    write_over(target, offset as int, data),
                    st,
                ),
            }
        }),
{
    let todo = seq![step] + rest;
    assert(todo.skip(1) =~= rest);
    assert(todo[0] == step);
}

/// Encoding with validation writes the hash pair of a node if it is there and its two hashes hash to
/// the hash on top of the stack, and goes on to the children; otherwise it writes nothing more. With
/// no steps left it is done.
pub proof fn law_validate_parent<H: Hasher>(
    load: LoadFn,
    g: int,
    sel: Set<int>,
    node: TreeNode,
    is_root: bool,
    left: bool,
    right: bool,
    rest: Seq<BaoChunk>,
    stack: Seq<Digest>,
    data: Seq<u8>,
)
    requires
        stack.len() > 0,
    ensures
        validated_run::<H>(load, g, sel, Seq::empty(), stack, data) == (
            Seq::<u8>::empty(),
            Ok::<(), EncodeError>(()),
        ),
        ({
            let todo = seq![BaoChunk::Parent { node, is_root, left, right }] + rest;
            let run = validated_run::<H>(load, g, sel, todo, stack, data);
            match load(node) {
                Err(e) => run == (Seq::<u8>::empty(), Err::<(), EncodeError>(EncodeError::Io(e))),
                Ok(None) => run == (
                    Seq::<u8>::empty(),
                    Err::<(), EncodeError>(EncodeError::ParentNotFound(node)),
                ),
                Ok(Some((l, r))) => if H::inner_hash(l, r, is_root) == stack[stack.len() - 1] {
                    let (out, res) = validated_run::<H>(
                        load,
                        g,
                        sel,
                        rest,
                        after_parent(stack, l, r, left, right),
                        data,
                    );
                    run == (l@ + r@ + out, res)
                } else {
                    run == (
                        Seq::<u8>::empty(),
                        Err::<(), EncodeError>(EncodeError::ParentHashMismatch(node)),
                    )
                },
            }
        }),
{
    let todo = seq![BaoChunk::Parent { node, is_root, left, right }] + rest;
    assert(todo.skip(1) =~= rest);
    if let Ok(Some((l, r))) = load(node) {
        assert(with_children(stack.drop_last(), (l, r), left, right)
            =~= after_parent(stack, l, r, left, right));
    }
}

/// Encoding with validation writes what is selected of a leaf if the data is there and hashes to the
/// hash on top of the stack: as a whole, or down to its chunks where only a part is selected.
/// Otherwise it writes nothing more.
pub proof fn law_validate_leaf<H: Hasher>(
    load: LoadFn,
    g: int,
    sel: Set<int>,
    start_chunk: ChunkNum,
    size: u64,
    is_root: bool,
    full: bool,
    rest: Seq<BaoChunk>,
    stack: Seq<Digest>,
    data: Seq<u8>,
)
    requires
        stack.len() > 0,
    ensures
        ({
            let todo = seq![BaoChunk::Leaf { start_chunk, size, is_root, full }] + rest;
            let run = validated_run::<H>(load, g, sel, todo, stack, data);
            let from = 1024 * start_chunk.0;
            let bytes = data.subrange(from, from + size);
            let hash = if full {
                H::chunk_hash(start_chunk.0, bytes, is_root)
            } else {
                tree_hash::<H>(bytes, 1, start_chunk.0 as int, is_root)
            };
            let (out, res) = validated_run::<H>(
                load,
                g,
                sel,
                rest,
                stack.take(stack.len() - 1),
                data,
            );
            &&& from + size > data.len() ==> run == (
                Seq::<u8>::empty(),
                Err::<(), EncodeError>(EncodeError::Io(IoError::UnexpectedEof)),
            )
            &&& from + size <= data.len() && hash != stack[stack.len() - 1] ==> run == (
                Seq::<u8>::empty(),
                Err::<(), EncodeError>(EncodeError::LeafHashMismatch(start_chunk)),
            )
            &&& from + size <= data.len() && hash == stack[stack.len() - 1] ==> run == (
                (if full {
                    bytes
                } else {
                    selected_bytes::<H>(bytes, g, start_chunk.0 as int, sel)
                }) + out,
                res,
            )
        }),
{
    let todo = seq![BaoChunk::Leaf { start_chunk, size, is_root, full }] + rest;
    assert(todo.skip(1) =~= rest);
    assert(stack.drop_last() =~= stack.take(stack.len() - 1));
}

/// What is written of the data of a part of a chunk group, from the chunk `s` on: nothing where no
/// chunk of it is selected; all of it where it is one chunk, or no larger than a group and selected
/// as a whole; otherwise the hashes of its first `p` chunks and of the rest, and what is written of
/// both.
pub proof fn law_selected_bytes<H: Hasher>(bytes: Seq<u8>, g: int, s: int, sel: Set<int>, p: int)
    ensures
        ({
            let m = chunk_count(bytes);
            let none = forall|c: int| s <= c < s + m ==> !#[trigger] sel.contains(c);
            let all = forall|c: int| s <= c < s + m ==> #[trigger] sel.contains(c);
            &&& none ==> selected_bytes::<H>(bytes, g, s, sel).len() == 0
            &&& !none && (bytes.len() <= 1024 || (bytes.len() <= 1024 * g && all))
                ==> selected_bytes::<H>(bytes, g, s, sel) == bytes
            &&& !none && !(bytes.len() <= 1024 || (bytes.len() <= 1024 * g && all)) && is_pow2(p)
                && 1024 * p < bytes.len() <= 2048 * p ==> selected_bytes::<H>(bytes, g, s, sel)
                == tree_hash::<H>(bytes.take(1024 * p), 1, s, false)@ + tree_hash::<H>(
                bytes.skip(1024 * p),
                1,
                s + p,
                false,
            )@ + selected_bytes::<H>(bytes.take(1024 * p), g, s, sel) + selected_bytes::<H>(
                bytes.skip(1024 * p),
                g,
                s + p,
                sel,
            )
        }),
{
    let m = chunk_count(bytes);
    if bytes.len() > 1024 && is_pow2(p) && 1024 * p < bytes.len() <= 2048 * p {
        lemma_split_point_unique(m, p);
    }
    assert(wanted(sel, s, m) <==> !(forall|c: int|
        s <= c < s + m ==> !#[trigger] sel.contains(c)));
}

/// A group is checked by the hash of its data, from its first chunk up to its end or to the end of
/// the blob, and cannot be checked where the data ends before. Without a check every group is taken.
pub proof fn law_check<H: Hasher>(
    size: int,
    data: Seq<u8>,
    s: int,
    m: int,
    is_root: bool,
    hash: Digest,
)
    ensures
        ({
            let from = 1024 * s;
            let to = if 1024 * (s + m) <= size {
                1024 * (s + m)
            } else {
                size
            };
            data_check::<H>(size, data)(s, m, is_root, hash) == (if to <= data.len() {
                Ok::<bool, IoError>(
                    H::chunk_hash(s as u64, data.subrange(from, to), is_root) == hash,
                )
            } else {
                Err(IoError::UnexpectedEof)
            })
        }),
        no_check()(s, m, is_root, hash) == Ok::<bool, IoError>(true),
{
}

/// Validating a chunk group reports its chunks if the check takes it, and nothing otherwise. The one
/// group of an empty blob has no chunks.
pub proof fn law_validate_group<H: Hasher>(
    load: LoadFn,
    check: CheckFn,
    size: int,
    g: int,
    sel: Set<int>,
    s: int,
    m: int,
    is_root: bool,
    hash: Digest,
)
    requires
        0 <= s,
        1 <= m <= g,
        0 <= size <= u64::MAX,
        1024 * (s + m - 1) < size || (size == 0 && s == 0 && m == 1),
    ensures
        ({
            let (spans, res) = validate_run::<H>(load, check, size, g, sel, s, m, is_root, hash);
            match check(s, m, is_root, hash) {
                Err(e) => spans.len() == 0 && res == Err::<(), IoError>(e),
                Ok(valid) => {
                    &&& res is Ok
                    &&& !valid ==> spans.len() == 0
                    &&& valid ==> spans.len() == 1 && spans[0].start.0 == s && spans[0].end.0 == (
                    if size > 0 {
                        s + m
                    } else {
                        0
                    })
                },
            }
        }),
{
}

/// Validating a subtree of more than a group: nothing is reported where its hash pair is missing or
/// does not hash to the expected hash. Otherwise the two children are validated against the two
/// hashes, as far as something of them is selected, and what both report is reported. A failed load,
/// or a failure in the left child, ends the validation. Here `p` is the number of chunks of the left
/// child, a power of two.
pub proof fn law_validate_node<H: Hasher>(
    load: LoadFn,
    check: CheckFn,
    size: int,
    g: int,
    sel: Set<int>,
    s: int,
    m: int,
    is_root: bool,
    hash: Digest,
    p: int,
)
    requires
        m >= 2,
        m > g,
        is_pow2(p),
        p < m <= 2 * p,
    ensures
        ({
            let run = validate_run::<H>(load, check, size, g, sel, s, m, is_root, hash);
            let none = (Seq::<ChunkSpan>::empty(), Ok::<(), IoError>(()));
            match load(TreeNode((s + p - 1) as u64)) {
                Err(e) => run == (Seq::<ChunkSpan>::empty(), Err::<(), IoError>(e)),
                Ok(None) => run == none,
                Ok(Some((l, r))) => {
                    let left = if exists|c: int| s <= c < s + p && #[trigger] sel.contains(c) {
                        validate_run::<H>(load, check, size, g, sel, s, p, false, l)
                    } else {
                        none
                    };
                    let right = if exists|c: int| s + p <= c < s + m && #[trigger] sel.contains(c) {
                        validate_run::<H>(load, check, size, g, sel, s + p, m - p, false, r)
                    } else {
                        none
                    };
                    &&& H::inner_hash(l, r, is_root) != hash ==> run == none
                    &&& H::inner_hash(l, r, is_root) == hash && left.1 is Err ==> run == left
                    &&& H::inner_hash(l, r, is_root) == hash && left.1 is Ok ==> run.0 == left.0
                        + right.0 && run.1 == right.1
                },
            }
        }),
{
    lemma_split_point_unique(m, p);
    assert(wanted(sel, s + p, m - p) <==> exists|c: int|
        s + p <= c < s + m && #[trigger] sel.contains(c));
}

/// Validating a tree is validating its root against the root hash, where the query asks for
/// something or the tree is one group; otherwise nothing is reported.
pub proof fn law_validate_tree<H: Hasher>(
    load: LoadFn,
    check: CheckFn,
    tree: BaoTree,
    ranges: Set<int>,
    root: Digest,
    n: int,
)
    requires
        tree.wf(),
        n >= 1,
        tree.size <= 1024 * n,
        n == 1 || 1024 * (n - 1) < tree.size,
    ensures
        ({
            let run = validate_tree::<H>(load, check, tree, ranges, root);
            let asked = exists|d: int| d >= 0 && #[trigger] ranges.contains(d);
            &&& n <= tree.group() || asked ==> run == validate_run::<H>(
                load,
                check,
                tree.size as int,
                tree.group(),
                selection(ranges, n),
                0,
                n,
                true,
                root,
            )
            &&& !(n <= tree.group() || asked) ==> run == (
                Seq::<ChunkSpan>::empty(),
                Ok::<(), IoError>(()),
            )
        }),
{
    lemma_total(tree, n);
    lemma_group(tree.block_size);
    lemma_groups_one(tree.group(), n);
    let sel = selection(ranges, n);
    if exists|d: int| d >= 0 && #[trigger] ranges.contains(d) {
        let d = choose|d: int| d >= 0 && #[trigger] ranges.contains(d);
        let c = if d < n - 1 {
            d
        } else {
            n - 1
        };
        assert(sel.contains(c));
        assert(0 <= c < 0 + n && sel.contains(c));
    }
    if wanted(sel, 0, n) {
        let c = choose|c: int| 0 <= c < 0 + n && #[trigger] sel.contains(c);
        if c < n - 1 {
            assert(ranges.contains(c));
        } else {
            let d = choose|d: int| d >= n - 1 && #[trigger] ranges.contains(d);
            assert(ranges.contains(d));
        }
    }
}

/// Writing over a target sets the bytes from the offset on, keeps the others, and fills a gap behind
/// the old end with zeros. Reading gives the bytes from the start on, if they are all there.
pub proof fn law_write_and_read(
    target: Seq<u8>,
    offset: int,
    data: Seq<u8>,
    i: int,
    start: int,
    size: int,
)
    requires
        0 <= offset,
    ensures
        ({
            let after = write_over(target, offset, data);
            &&& after.len() == (if target.len() >= offset + data.len() {
                target.len() as int
            } else {
                offset + data.len()
            })
            &&& after.subrange(offset, offset + data.len()) == data
            &&& 0 <= i < after.len() && !(offset <= i < offset + data.len()) ==> after[i] == (if i
                < target.len() {
                target[i]
            } else {
                0u8
            })
        }),
        bytes_at(target, start, size) == (if start + size <= target.len() {
            Ok::<Seq<u8>, IoError>(target.subrange(start, start + size))
        } else {
            Err(IoError::UnexpectedEof)
        }),
{
    let after = write_over(target, offset, data);
    assert(after.subrange(offset, offset + data.len()) =~= data);
}

/// The steps by which an outboard is computed: a group is read; a larger subtree is done by the steps
/// of its first `p` chunks, those of the rest, and then its own node.
pub proof fn law_post_steps(size: int, g: int, s: int, m: int, is_root: bool, p: int)
    requires
        0 <= s,
        1 <= m,
        1 <= g,
        0 <= size <= u64::MAX,
        m == 1 || 1024 * (s + m - 1) < size,
        1024 * s <= size,
    ensures
        m <= g ==> post_steps(size, g, s, m, is_root).len() == 1 && (post_steps(
            size,
            g,
            s,
            m,
            is_root,
        )[0] matches BaoChunk::Leaf { start_chunk, size: len, is_root: r, full } && start_chunk.0
            == s && 1024 * s + len == (if 1024 * (s + m) <= size {
            1024 * (s + m)
        } else {
            size
        }) && r == is_root && full),
        m > g && is_pow2(p) && p < m <= 2 * p ==> post_steps(size, g, s, m, is_root) == post_steps(
            size,
            g,
            s,
            p,
            false,
        ) + post_steps(size, g, s + p, m - p, false) + seq![
            BaoChunk::Parent {
                node: TreeNode((s + p - 1) as u64),
                is_root,
                left: true,
                right: true,
            },
        ],
{
    if m > g && is_pow2(p) && p < m <= 2 * p {
        lemma_split_point_unique(m, p);
    }
}

/// A step by which an outboard is computed: a leaf takes its bytes off the data and adds their hash,
/// or fails where they are not all there; a parent takes the last two hashes, saves them, and adds
/// their hash, or fails as the save does. In the end the last hash is the result.
pub proof fn law_create_step<H: Hasher, S>(
    save: SaveFn<S>,
    step: BaoChunk,
    rest: Seq<BaoChunk>,
    hashes: Seq<Digest>,
    l: Digest,
    r: Digest,
    data: Seq<u8>,
    st: S,
)
    ensures
        hashes.len() > 0 ==> create_run::<H, S>(save, Seq::empty(), hashes, data, st) == (
            st,
            Ok::<Digest, IoError>(hashes[hashes.len() - 1]),
        ),
        match step {
            BaoChunk::Leaf { start_chunk, size, is_root, .. } => create_run::<H, S>(
                save,
                seq![step] + rest,
                hashes,
                data,
                st,
            ) == (if size <= data.len() {
                create_run::<H, S>(
                    save,
                    rest,
                    hashes + seq![
                        H::chunk_hash(start_chunk.0, data.take(size as int), is_root),
                    ],
                    data.skip(size as int),
                    st,
                )
            } else {
                (st, Err(IoError::UnexpectedEof))
            }),
            BaoChunk::Parent { node, is_root, .. } => {
                let (st1, res) = save(st, node, (l, r));
                let run = create_run::<H, S>(
                    save,
                    seq![step] + rest,
                    hashes + seq![l, r],
                    data,
                    st,
                );
                &&& res matches Err(e) ==> run == (st1, Err::<Digest, IoError>(e))
                &&& res is Ok ==> run == create_run::<H, S>(
                    save,
                    rest,
                    hashes + seq![H::inner_hash(l, r, is_root)],
                    data,
                    st1,
                )
            },
        },
{
    let todo = seq![step] + rest;
    assert(todo.skip(1) =~= rest);
    assert(todo[0] == step);
    match step {
        BaoChunk::Leaf { start_chunk, size, is_root, .. } => {
            let hash = H::chunk_hash(start_chunk.0, data.take(size as int), is_root);
            assert(hashes.push(hash) =~= hashes + seq![hash]);
        },
        BaoChunk::Parent { is_root, .. } => {
            let two = hashes + seq![l, r];
            let hash = H::inner_hash(l, r, is_root);
            assert(two[two.len() - 2] == l);
            assert(two[two.len() - 1] == r);
            assert(two.take(two.len() - 2).push(hash) =~= hashes + seq![hash]);
        },
    }
}

/// What is left to validate after a hash pair was loaded for the subtree on top: nothing of it where
/// the hash pair is missing or does not have the expected hash, and otherwise its two children, as
/// far as something of them is selected, the left one on top. The left child has `p` chunks.
pub proof fn law_after_load<H: Hasher>(
    sel: Set<int>,
    below: Seq<Visit>,
    visit: Visit,
    pair: Option<(Digest, Digest)>,
    p: int,
)
    requires
        visit.tree.count >= 2,
        visit.tree.start + visit.tree.count <= u64::MAX,
        is_pow2(p),
        p < visit.tree.count <= 2 * p,
    ensures
        ({
            let s = visit.tree.start as int;
            let m = visit.tree.count as int;
            let after = after_load::<H>(sel, below.push(visit), pair);
            match pair {
                None => after == below,
                Some((l, r)) => {
                    let wl = exists|c: int| s <= c < s + p && #[trigger] sel.contains(c);
                    let wr = exists|c: int| s + p <= c < s + m && #[trigger] sel.contains(c);
                    let ok = H::inner_hash(l, r, visit.tree.is_root) == visit.hash;
                    let a = below.len() + (if ok && wr {
                        1int
                    } else {
                        0
                    });
                    &&& after.len() == a + (if ok && wl {
                        1int
                    } else {
                        0
                    })
                    &&& after.take(below.len() as int) == below
                    &&& ok && wr ==> {
                        let v = after[below.len() as int];
                        &&& v.hash == r && !v.tree.is_root
                        &&& v.tree.start == s + p && v.tree.count == m - p
                    }
                    &&& ok && wl ==> {
                        let v = after[a];
                        &&& v.hash == l && !v.tree.is_root
                        &&& v.tree.start == s && v.tree.count == p
                    }
                },
            }
        }),
{
    let s = visit.tree.start as int;
    let m = visit.tree.count as int;
    lemma_split_point_unique(m, p);
    let stack = below.push(visit);
    assert(stack.drop_last() =~= below);
    assert(stack.last() == visit);
    assert(wanted(sel, s + p, m - p) <==> exists|c: int|
        s + p <= c < s + m && #[trigger] sel.contains(c));
    let after = after_load::<H>(sel, stack, pair);
    assert(after.take(below.len() as int) =~= below);
}

/// What the computation of an outboard asks for next: the bytes of the next group, until it gets
/// them; that the last two hashes are saved as the pair of a node, which then counts as done; or
/// nothing, and then the last hash is the root hash.
pub proof fn law_creator_step<H: Hasher>(
    todo: Seq<BaoChunk>,
    hashes: Seq<Digest>,
    res: CreateStep,
    todo2: Seq<BaoChunk>,
    hashes2: Seq<Digest>,
)
    requires
        create_step::<H>(todo, hashes, res, todo2, hashes2),
    ensures
        todo.len() == 0 ==> hashes.len() == 1 && res == CreateStep::Done(hashes[0]) && todo2 == todo
            && hashes2 == hashes,
        todo.len() > 0 ==> match todo[0] {
            BaoChunk::Leaf { start_chunk, size, is_root, .. } => {
                &&& res == CreateStep::Read { start_chunk, size, is_root }
                &&& todo2 == todo
                &&& hashes2 == hashes
            },
            BaoChunk::Parent { node, is_root, .. } => {
                let k = hashes.len() - 2;
                &&& k >= 0
                &&& res == CreateStep::Save { node, pair: (hashes[k], hashes[k + 1]) }
                &&& todo2 == todo.skip(1)
                &&& hashes2 == hashes.take(k) + seq![
                    H::inner_hash(hashes[k], hashes[k + 1], is_root),
                ]
            },
        },
{
}

/// The steps for a tree are those for all of its chunks, as the root.
pub proof fn law_tree_post_steps(tree: BaoTree, n: int)
    requires
        tree.wf(),
        n >= 1,
        tree.size <= 1024 * n,
        n == 1 || 1024 * (n - 1) < tree.size,
    ensures
        tree_post_steps(tree) == post_steps(tree.size as int, tree.group(), 0, n, true),
        tree.group() == pow2(tree.block_size.0 as nat),
        tree.total() == n,
{
    lemma_total(tree, n);
}

/// Saving to a stream appends the left hash and then the right one. Saving to an outboard does what
/// the outboard does.
pub proof fn law_savers<O: OutboardMut>(
    out: Seq<u8>,
    st: O::V,
    node: TreeNode,
    pair: (Digest, Digest),
)
    ensures
        stream_saver()(out, node, pair) == (out + pair.0@ + pair.1@, Ok::<(), IoError>(())),
        outboard_saver::<O>()(st, node, pair) == O::saved(st, node, pair),
{
    assert(out + pair_bytes(pair.0, pair.1) =~= out + pair.0@ + pair.1@);
}

/// A response holds 64 bytes for a parent and the data of a leaf.
pub proof fn law_step_bytes(step: BaoChunk)
    ensures
        step_bytes(step) == (match step {
            BaoChunk::Parent { .. } => 64,
            BaoChunk::Leaf { size, .. } => size as int,
        }),
{
}

/// A chunk has 1024 bytes, and the node between the halves of a subtree is numbered by the last
/// chunk before its second half, which starts at a power of two `p`.
pub proof fn law_nodes(s: int, m: int, p: int, bytes: Seq<u8>)
    requires
        is_pow2(p),
        p < m <= 2 * p,
        m >= 2,
    ensures
        node_number(s, m) == s + p - 1,
        split_point(m) == p,
        1024 * (chunk_count(bytes) - 1) < bytes.len() <= 1024 * chunk_count(bytes) || (bytes.len()
            == 0 && chunk_count(bytes) == 1),
{
    lemma_split_point_unique(m, p);
}

/// What an item of a response says.
pub proof fn law_items(item: BaoContentItem, e: DecodeError, bytes: Vec<u8>, io: IoError)
    ensures
        match item {
            BaoContentItem::Parent(p) => item@ == (Content::Parent { node: p.node, pair: p.pair }),
            BaoContentItem::Leaf(l) => item@ == (Content::Leaf { offset: l.offset, data: l.data@ }),
        },
        item_view(Ok(item)) == Ok::<Content, DecodeError>(item@),
        item_view(Err(e)) == Err::<Content, DecodeError>(e),
        read_view(Ok(bytes)) == Ok::<Seq<u8>, IoError>(bytes@),
        read_view(Err(io)) == Err::<Seq<u8>, IoError>(io),
{
}

/// A read that delivers `n` bytes takes them off the front of the stream, puts them at the front of
/// the buffer, and delivers none only where the stream or the buffer is empty.
pub proof fn law_delivers(
    rest: Seq<u8>,
    buf: Seq<u8>,
    after: Seq<u8>,
    left: Seq<u8>,
    n: nat,
    i: int,
    res: Result<usize, IoError>,
)
    requires
        delivers(rest, buf, after, left, n),
    ensures
        n <= rest.len(),
        n <= buf.len(),
        left.len() == buf.len(),
        0 <= i < n ==> left[i] == rest[i],
        after == rest.skip(n as int),
        n == 0 <==> buf.len() == 0 || rest.len() == 0,
        res matches Ok(k) ==> counted(res) == Ok::<nat, IoError>(k as nat),
        res matches Err(e) ==> counted(res) == Err::<nat, IoError>(e),
{
    if 0 <= i < n {
        assert(left.take(n as int)[i] == rest.take(n as int)[i]);
    }
}

} // verus!
