//! What validation reports.
use crate::copy::LoadFn;
use crate::error::IoError;
use crate::geometry::{
    byte_end, byte_start, groups, in_tree, lemma_groups_one, lemma_split_point, split_point,
};
use crate::hash::{chunk_count, lemma_halves, left_half, right_half, tree_hash, Hasher};
use crate::iter::lemma_leaf_count;
use crate::laws::received::holds_selected;
use crate::ranges::{selection, wanted};
use crate::tree::{lemma_group, BaoTree};
use crate::validate::{
    data_check, no_check, subtree_span, validate_run, validate_tree, CheckFn, ChunkSpan,
};
use vstd::prelude::*;

verus! {

/// The chunk groups of a subtree that hold something selected and that `ok` takes, from left to
/// right. A subtree that is one group is not asked for what is selected.
pub open spec fn groups_with(
    ok: spec_fn(int, int, bool) -> bool,
    size: int,
    g: int,
    sel: Set<int>,
    s: int,
    m: int,
    is_root: bool,
) -> Seq<ChunkSpan>
    decreases m,
{
    if m <= g || m <= 1 {
        if ok(s, m, is_root) {
            seq![subtree_span(size, s, m)]
        } else {
            Seq::empty()
        }
    } else {
        let p = split_point(m);
        proof {
            lemma_split_point(m);
        }
        let left = if wanted(sel, s, p) {
            groups_with(ok, size, g, sel, s, p, false)
        } else {
            Seq::empty()
        };
        let right = if wanted(sel, s + p, m - p) {
            groups_with(ok, size, g, sel, s + p, m - p, false)
        } else {
            Seq::empty()
        };
        left + right
    }
}

/// The chunk groups of a tree that a validation of `ranges` asks for and that `ok` takes.
pub open spec fn tree_groups_with(
    ok: spec_fn(int, int, bool) -> bool,
    tree: BaoTree,
    ranges: Set<int>,
) -> Seq<ChunkSpan> {
    let sel = selection(ranges, tree.total());
    if groups(tree.group(), tree.total()) == 1 || wanted(sel, 0, tree.total()) {
        groups_with(ok, tree.size as int, tree.group(), sel, 0, tree.total(), true)
    } else {
        Seq::empty()
    }
}

/// The data has the same hash as the blob on a chunk group.
pub open spec fn same_group_hash<H: Hasher>(data: Seq<u8>, blob: Seq<u8>) -> spec_fn(
    int,
    int,
    bool,
) -> bool {
    |s: int, m: int, is_root: bool|
        {
            let end = byte_end(blob.len() as int, s, m);
            H::chunk_hash(s as u64, data.subrange(byte_start(s), end), is_root) == H::chunk_hash(
                s as u64,
                blob.subrange(byte_start(s), end),
                is_root,
            )
        }
}

/// Every chunk group.
pub open spec fn any_group() -> spec_fn(int, int, bool) -> bool {
    |s: int, m: int, is_root: bool| true
}

/// Validating a subtree whose hash pairs are right.
proof fn lemma_valid_subtree<H: Hasher>(
    load: LoadFn,
    check: CheckFn,
    ok: spec_fn(int, int, bool) -> bool,
    blob: Seq<u8>,
    g: int,
    sel: Set<int>,
    s: int,
    m: int,
    is_root: bool,
    bytes: Seq<u8>,
)
    requires
        blob.len() <= u64::MAX,
        in_tree(blob.len() as int, s, m),
        bytes == blob.subrange(byte_start(s), byte_end(blob.len() as int, s, m)),
        m <= g || m <= 1 || wanted(sel, s, m),
        holds_selected::<H>(load, bytes, g, s, sel),
        forall|a: int, n: int, r: bool|
            #![trigger ok(a, n, r)]
            in_tree(blob.len() as int, a, n) ==> check(
                a,
                n,
                r,
                H::chunk_hash(
                    a as u64,
                    blob.subrange(byte_start(a), byte_end(blob.len() as int, a, n)),
                    r,
                ),
            ) == Ok::<bool, IoError>(ok(a, n, r)),
    ensures
        validate_run::<H>(
            load,
            check,
            blob.len() as int,
            g,
            sel,
            s,
            m,
            is_root,
            tree_hash::<H>(bytes, g, s, is_root),
        ) == (
            groups_with(ok, blob.len() as int, g, sel, s, m, is_root),
            Ok::<(), IoError>(()),
        ),
    decreases m,
{
    let size = blob.len() as int;
    lemma_leaf_count(size, s, m);
    assert(chunk_count(bytes) == m);
    if m <= g || m <= 1 {
        assert(check(s, m, is_root, H::chunk_hash(s as u64, bytes, is_root)) == Ok::<bool, IoError>(
            ok(s, m, is_root),
        ));
    } else {
        let p = split_point(m);
        lemma_split_point(m);
        lemma_halves(bytes);
        let lb = left_half(bytes);
        let rb = right_half(bytes);
        assert(lb =~= blob.subrange(byte_start(s), byte_end(size, s, p)));
        assert(rb =~= blob.subrange(byte_start(s + p), byte_end(size, s + p, m - p)));
        if wanted(sel, s, p) {
            lemma_valid_subtree::<H>(load, check, ok, blob, g, sel, s, p, false, lb);
        }
        if wanted(sel, s + p, m - p) {
            lemma_valid_subtree::<H>(load, check, ok, blob, g, sel, s + p, m - p, false, rb);
        }
    }
}

/// Validating a tree whose hash pairs are right.
proof fn lemma_valid_tree<H: Hasher>(
    load: LoadFn,
    check: CheckFn,
    ok: spec_fn(int, int, bool) -> bool,
    tree: BaoTree,
    ranges: Set<int>,
    blob: Seq<u8>,
)
    requires
        tree.wf(),
        blob.len() == tree.size,
        holds_selected::<H>(load, blob, tree.group(), 0, selection(ranges, tree.total())),
        forall|a: int, n: int, r: bool|
            #![trigger ok(a, n, r)]
            in_tree(blob.len() as int, a, n) ==> check(
                a,
                n,
                r,
                H::chunk_hash(
                    a as u64,
                    blob.subrange(byte_start(a), byte_end(blob.len() as int, a, n)),
                    r,
                ),
            ) == Ok::<bool, IoError>(ok(a, n, r)),
    ensures
        validate_tree::<H>(
            load,
            check,
            tree,
            ranges,
            tree_hash::<H>(blob, tree.group(), 0, true),
        ) == (tree_groups_with(ok, tree, ranges), Ok::<(), IoError>(())),
{
    let sel = selection(ranges, tree.total());
    lemma_group(tree.block_size);
    lemma_groups_one(tree.group(), tree.total());
    let whole = blob.subrange(0, byte_end(blob.len() as int, 0, tree.total()));
    assert(blob =~= whole);
    if groups(tree.group(), tree.total()) == 1 || wanted(sel, 0, tree.total()) {
        lemma_valid_subtree::<H>(
            load,
            check,
            ok,
            blob,
            tree.group(),
            sel,
            0,
            tree.total(),
            true,
            blob,
        );
    }
}

/// Validating data against an outboard with the right hash pairs reports exactly the chunk groups
/// that are asked for and on which the data has the hash of the blob.
pub proof fn law_valid_ranges<H: Hasher>(
    load: LoadFn,
    tree: BaoTree,
    ranges: Set<int>,
    data: Seq<u8>,
    blob: Seq<u8>,
)
    requires
        tree.wf(),
        blob.len() == tree.size,
        tree.size <= data.len(),
        holds_selected::<H>(load, blob, tree.group(), 0, selection(ranges, tree.total())),
    ensures
        validate_tree::<H>(
            load,
            data_check::<H>(tree.size as int, data),
            tree,
            ranges,
            tree_hash::<H>(blob, tree.group(), 0, true),
        ) == (
            tree_groups_with(same_group_hash::<H>(data, blob), tree, ranges),
            Ok::<(), IoError>(()),
        ),
{
    let size = blob.len() as int;
    let ok = same_group_hash::<H>(data, blob);
    let check = data_check::<H>(tree.size as int, data);
    assert forall|a: int, n: int, r: bool|
        #![trigger ok(a, n, r)]
        in_tree(size, a, n) implies check(
        a,
        n,
        r,
        H::chunk_hash(a as u64, blob.subrange(byte_start(a), byte_end(size, a, n)), r),
    ) == Ok::<bool, IoError>(ok(a, n, r)) by {
        lemma_leaf_count(size, a, n);
    }
    lemma_valid_tree::<H>(load, check, ok, tree, ranges, blob);
}

/// Validating the blob itself against its outboard reports every chunk group that is asked for.
pub proof fn law_valid_ranges_of_blob<H: Hasher>(
    load: LoadFn,
    tree: BaoTree,
    ranges: Set<int>,
    data: Seq<u8>,
    blob: Seq<u8>,
)
    requires
        tree.wf(),
        blob.len() == tree.size,
        tree.size <= data.len(),
        data.take(tree.size as int) == blob,
        holds_selected::<H>(load, blob, tree.group(), 0, selection(ranges, tree.total())),
    ensures
        validate_tree::<H>(
            load,
            data_check::<H>(tree.size as int, data),
            tree,
            ranges,
            tree_hash::<H>(blob, tree.group(), 0, true),
        ) == (tree_groups_with(any_group(), tree, ranges), Ok::<(), IoError>(())),
{
    let size = blob.len() as int;
    let ok = any_group();
    let check = data_check::<H>(tree.size as int, data);
    assert forall|a: int, n: int, r: bool|
        #![trigger ok(a, n, r)]
        in_tree(size, a, n) implies check(
        a,
        n,
        r,
        H::chunk_hash(a as u64, blob.subrange(byte_start(a), byte_end(size, a, n)), r),
    ) == Ok::<bool, IoError>(ok(a, n, r)) by {
        lemma_leaf_count(size, a, n);
        assert(data.subrange(byte_start(a), byte_end(size, a, n)) =~= blob.subrange(
            byte_start(a),
            byte_end(size, a, n),
        ));
    }
    lemma_valid_tree::<H>(load, check, ok, tree, ranges, blob);
}

/// Validating an outboard with the right hash pairs reports every chunk group that is asked for.
pub proof fn law_valid_outboard_ranges<H: Hasher>(
    load: LoadFn,
    tree: BaoTree,
    ranges: Set<int>,
    blob: Seq<u8>,
)
    requires
        tree.wf(),
        blob.len() == tree.size,
        holds_selected::<H>(load, blob, tree.group(), 0, selection(ranges, tree.total())),
    ensures
        validate_tree::<H>(
            load,
            no_check(),
            tree,
            ranges,
            tree_hash::<H>(blob, tree.group(), 0, true),
        ) == (tree_groups_with(any_group(), tree, ranges), Ok::<(), IoError>(())),
{
    lemma_valid_tree::<H>(load, no_check(), any_group(), tree, ranges, blob);
}

} // verus!
