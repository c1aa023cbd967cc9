//! Encoding without validation.
use crate::copy::{stored_loader, LoadFn};
use crate::encode::{encode_run, loaded, validated_run};
use crate::error::{EncodeError, IoError};
use crate::geometry::{byte_start, lemma_split_point, split_point};
use crate::hash::{
    chunk_count, lemma_halves, left_half, pair_bytes, right_half, tree_hash, Digest, Hasher,
};
use crate::iter::{BaoChunk, Walk};
use crate::laws::received::whole_groups;
use crate::laws::roundtrip::{law_encode_validated, parts_fit, provides, response_bytes};
use crate::outboard::Outboard;
use crate::ranges::{selection, wanted};
use crate::tree::BaoTree;
use vstd::prelude::*;

verus! {

/// What encoding reads for a step is there.
pub open spec fn present<O: Outboard>(st: O::V, data: Seq<u8>, step: BaoChunk) -> bool {
    match step {
        BaoChunk::Parent { node, .. } => O::stored_in(st, node) && (O::load_from(st, node) matches Ok(
            Some(_),
        )),
        BaoChunk::Leaf { start_chunk, size, .. } => byte_start(start_chunk.0 as int) + size
            <= data.len(),
    }
}

/// The error for a step for which something is missing.
pub open spec fn missing<O: Outboard>(st: O::V, step: BaoChunk) -> EncodeError {
    match step {
        BaoChunk::Parent { node, .. } => match O::load_from(st, node) {
            Err(e) => EncodeError::Io(e),
            Ok(_) => EncodeError::ParentNotFound(node),
        },
        BaoChunk::Leaf { .. } => EncodeError::Io(IoError::UnexpectedEof),
    }
}

/// Encoding one step.
proof fn lemma_encode_step<O: Outboard>(st: O::V, todo: Seq<BaoChunk>, data: Seq<u8>)
    requires
        todo.len() > 0,
    ensures
        ({
            let load = stored_loader::<O>(st);
            let (out, res) = encode_run(load, todo.skip(1), data);
            let run = encode_run(load, todo, data);
            if present::<O>(st, data, todo[0]) {
                run == (step_output::<O>(st, data, todo[0]) + out, res)
            } else {
                run == (Seq::<u8>::empty(), Err::<(), EncodeError>(missing::<O>(st, todo[0])))
            }
        }),
{
}

/// What is written for a step for which everything is there.
spec fn step_output<O: Outboard>(st: O::V, data: Seq<u8>, step: BaoChunk) -> Seq<u8> {
    match step {
        BaoChunk::Parent { node, .. } => match loaded(stored_loader::<O>(st), node) {
            Ok(pair) => pair_bytes(pair.0, pair.1),
            Err(_) => Seq::empty(),
        },
        BaoChunk::Leaf { start_chunk, size, .. } => data.subrange(
            byte_start(start_chunk.0 as int),
            byte_start(start_chunk.0 as int) + size,
        ),
    }
}

/// Encoding up to the first step for which something is missing.
proof fn lemma_first_missing<O: Outboard>(st: O::V, todo: Seq<BaoChunk>, data: Seq<u8>, k: int)
    requires
        0 <= k < todo.len(),
        !present::<O>(st, data, todo[k]),
        forall|i: int| 0 <= i < k ==> present::<O>(st, data, #[trigger] todo[i]),
    ensures
        encode_run(stored_loader::<O>(st), todo, data) == (
            encode_run(stored_loader::<O>(st), todo.take(k), data).0,
            Err::<(), EncodeError>(missing::<O>(st, todo[k])),
        ),
    decreases k,
{
    lemma_encode_step::<O>(st, todo, data);
    if k > 0 {
        let rest = todo.skip(1);
        assert(present::<O>(st, data, todo[0]));
        assert(rest[k - 1] == todo[k]);
        assert forall|i: int| 0 <= i < k - 1 implies present::<O>(st, data, #[trigger] rest[i]) by {
            assert(rest[i] == todo[i + 1]);
        }
        lemma_first_missing::<O>(st, rest, data, k - 1);
        assert(todo.take(k)[0] == todo[0]);
        assert(todo.take(k).skip(1) =~= rest.take(k - 1));
        lemma_encode_step::<O>(st, todo.take(k), data);
    }
}

/// Encoding succeeds where nothing is missing.
proof fn lemma_nothing_missing<O: Outboard>(st: O::V, todo: Seq<BaoChunk>, data: Seq<u8>)
    requires
        forall|i: int| 0 <= i < todo.len() ==> present::<O>(st, data, #[trigger] todo[i]),
    ensures
        encode_run(stored_loader::<O>(st), todo, data).1 is Ok,
    decreases todo.len(),
{
    if todo.len() > 0 {
        let rest = todo.skip(1);
        assert(present::<O>(st, data, todo[0]));
        assert forall|i: int| 0 <= i < rest.len() implies present::<O>(
            st,
            data,
            #[trigger] rest[i],
        ) by {
            assert(rest[i] == todo[i + 1]);
        }
        lemma_nothing_missing::<O>(st, rest, data);
        lemma_encode_step::<O>(st, todo, data);
    }
}

/// The first step for which something is missing, if there is one.
proof fn lemma_find_missing<O: Outboard>(
    st: O::V,
    todo: Seq<BaoChunk>,
    data: Seq<u8>,
    k: int,
) -> (first: int)
    requires
        0 <= k < todo.len(),
        !present::<O>(st, data, todo[k]),
    ensures
        0 <= first <= k,
        !present::<O>(st, data, todo[first]),
        forall|i: int| 0 <= i < first ==> present::<O>(st, data, #[trigger] todo[i]),
    decreases k,
{
    if exists|i: int| 0 <= i < k && !present::<O>(st, data, #[trigger] todo[i]) {
        let i = choose|i: int| 0 <= i < k && !present::<O>(st, data, #[trigger] todo[i]);
        lemma_find_missing::<O>(st, todo, data, i)
    } else {
        k
    }
}

/// Encoding succeeds if and only if everything that the query needs is there: the hash pairs are
/// stored, and the data is long enough. Otherwise it fails at the first thing that is missing, and
/// what it has written is what the steps before that give.
pub proof fn law_encode_present<O: Outboard>(st: O::V, todo: Seq<BaoChunk>, data: Seq<u8>)
    ensures
        encode_run(stored_loader::<O>(st), todo, data).1 is Ok <==> (forall|i: int|
            0 <= i < todo.len() ==> present::<O>(st, data, #[trigger] todo[i])),
        forall|k: int|
            0 <= k < todo.len() && !present::<O>(st, data, #[trigger] todo[k]) && (forall|i: int|
                0 <= i < k ==> present::<O>(st, data, #[trigger] todo[i])) ==> encode_run(
                stored_loader::<O>(st),
                todo,
                data,
            ) == (
                encode_run(stored_loader::<O>(st), todo.take(k), data).0,
                Err::<(), EncodeError>(missing::<O>(st, todo[k])),
            ),
{
    let load = stored_loader::<O>(st);
    if forall|i: int| 0 <= i < todo.len() ==> present::<O>(st, data, #[trigger] todo[i]) {
        lemma_nothing_missing::<O>(st, todo, data);
    } else {
        let k = choose|k: int| 0 <= k < todo.len() && !present::<O>(st, data, #[trigger] todo[k]);
        let first = lemma_find_missing::<O>(st, todo, data, k);
        lemma_first_missing::<O>(st, todo, data, first);
    }
    assert forall|k: int|
        0 <= k < todo.len() && !present::<O>(st, data, #[trigger] todo[k]) && (forall|i: int|
            0 <= i < k ==> present::<O>(st, data, #[trigger] todo[i])) implies encode_run(
        load,
        todo,
        data,
    ) == (
        encode_run(load, todo.take(k), data).0,
        Err::<(), EncodeError>(missing::<O>(st, todo[k])),
    ) by {
        lemma_first_missing::<O>(st, todo, data, k);
    }
}

/// All leaves among the steps are selected as a whole.
pub open spec fn whole_leaves(todo: Seq<BaoChunk>) -> bool {
    forall|i: int|
        0 <= i < todo.len() ==> ((#[trigger] todo[i]) matches BaoChunk::Leaf { full, .. } ==> full)
}

/// Where all leaves are selected as a whole, validation only checks: if it finds nothing wrong,
/// encoding without it gives the same.
pub proof fn law_validation_only_checks<H: Hasher>(
    load: LoadFn,
    g: int,
    sel: Set<int>,
    todo: Seq<BaoChunk>,
    stack: Seq<Digest>,
    data: Seq<u8>,
)
    requires
        whole_leaves(todo),
        validated_run::<H>(load, g, sel, todo, stack, data).1 is Ok,
    ensures
        encode_run(load, todo, data) == validated_run::<H>(load, g, sel, todo, stack, data),
    decreases todo.len(),
{
    if todo.len() > 0 {
        let rest = todo.skip(1);
        assert(forall|i: int| 0 <= i < rest.len() ==> rest[i] == todo[i + 1]);
        match todo[0] {
            BaoChunk::Parent { node, left, right, .. } => {
                let pair = loaded(load, node)->Ok_0;
                law_validation_only_checks::<H>(
                    load,
                    g,
                    sel,
                    rest,
                    crate::encode::with_children(stack.drop_last(), pair, left, right),
                    data,
                );
            },
            BaoChunk::Leaf { .. } => {
                law_validation_only_checks::<H>(load, g, sel, rest, stack.drop_last(), data);
            },
        }
    }
}

/// Where chunk groups are selected as a whole, so are the leaves of the walk.
proof fn lemma_whole_leaves<H: Hasher>(w: Walk, s: int, bytes: Seq<u8>, is_root: bool)
    requires
        w.whole == 1,
        whole_groups(bytes, w.leaf, s, w.sel),
    ensures
        whole_leaves(w.steps(s, chunk_count(bytes), is_root)),
        parts_fit::<H>(bytes, w.leaf, s, w.sel, is_root),
    decreases bytes.len(),
{
    let m = chunk_count(bytes);
    if wanted(w.sel, s, m) && m > w.leaf && m > 1 {
        lemma_halves(bytes);
        lemma_split_point(m);
        let p = split_point(m);
        lemma_whole_leaves::<H>(w, s, left_half(bytes), false);
        lemma_whole_leaves::<H>(w, s + p, right_half(bytes), false);
        let a = w.steps(s, p, false);
        let b = w.steps(s + p, m - p, false);
        let all = w.steps(s, m, is_root);
        assert forall|i: int| 0 <= i < all.len() implies ((#[trigger] all[i]) matches BaoChunk::Leaf {
            full,
            ..
        } ==> full) by {
            if i > 0 && i < 1 + a.len() {
                assert(all[i] == a[i - 1]);
            } else if i > 0 {
                assert(all[i] == b[i - 1 - a.len()]);
            }
        }
    }
}

/// Encoding without validation, from an outboard and data that have what the query needs, writes
/// the response for the blob, where the query selects chunk groups as a whole.
pub proof fn law_encode_ranges<H: Hasher>(
    load: LoadFn,
    tree: BaoTree,
    ranges: Set<int>,
    data: Seq<u8>,
    blob: Seq<u8>,
)
    requires
        tree.wf(),
        blob.len() == tree.size,
        provides::<H>(load, data, blob, tree.group(), 0, selection(ranges, tree.total())),
        whole_groups(blob, tree.group(), 0, selection(ranges, tree.total())),
    ensures
        encode_run(load, Walk::encode(tree, ranges).all_steps(), data) == (
            response_bytes::<H>(blob, tree.group(), 0, selection(ranges, tree.total())),
            Ok::<(), EncodeError>(()),
        ),
{
    let w = Walk::encode(tree, ranges);
    lemma_whole_leaves::<H>(w, 0, blob, true);
    law_encode_validated::<H>(load, tree, ranges, data, blob);
    law_validation_only_checks::<H>(
        load,
        tree.group(),
        w.sel,
        w.all_steps(),
        seq![tree_hash::<H>(blob, tree.group(), 0, true)],
        data,
    );
}

} // verus!
