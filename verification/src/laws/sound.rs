//! What is sent and what is reported as valid where the outboard or the data may be wrong.
use crate::content::bytes_at;
use crate::copy::LoadFn;
use crate::encode::{leaf_hash, loaded, validated_run, with_children};
use crate::error::{EncodeError, IoError};
use crate::geometry::{
    byte_end, byte_start, groups, in_tree, lemma_split_point, node_number, split_point,
};
use crate::hash::{
    chunk_count, lemma_halves, left_half, pair_bytes, right_half, root_pair, tree_hash, Digest,
    Hasher,
};
use crate::iter::{leaf_chunk, lemma_leaf_count, parent_chunk, BaoChunk, Walk};
use crate::laws::roundtrip::{parts_fit, response_bytes};
use crate::ranges::{full, selection, wanted};
use crate::tree::{BaoTree, TreeNode};
use crate::validate::{data_check, subtree_span, validate_run, validate_tree, ChunkSpan};
use vstd::prelude::*;

verus! {

/// No hash collision is met on the way to what is selected: a hash pair that is loaded, or data
/// that is read, is the blob's if it has the same hash as the blob's.
pub open spec fn no_collision<H: Hasher>(
    load: LoadFn,
    data: Seq<u8>,
    bytes: Seq<u8>,
    g: int,
    s: int,
    sel: Set<int>,
    is_root: bool,
) -> bool
    decreases bytes.len(),
{
    let m = chunk_count(bytes);
    if m <= g || m <= 1 {
        forall|all: bool| #[trigger]
            no_leaf_collision::<H>(
                bytes_at(data, byte_start(s), bytes.len() as int),
                bytes,
                s,
                is_root,
                all,
            )
    } else {
        proof {
            lemma_halves(bytes);
        }
        let p = split_point(m);
        let pair = root_pair::<H>(bytes, g, s);
        &&& load(TreeNode(node_number(s, m) as u64)) matches Ok(Some(other)) ==> (H::inner_hash(
            other.0,
            other.1,
            is_root,
        ) == H::inner_hash(pair.0, pair.1, is_root) ==> other == pair)
        &&& wanted(sel, s, p) ==> no_collision::<H>(
            load,
            data,
            left_half(bytes),
            g,
            s,
            sel,
            false,
        )
        &&& wanted(sel, s + p, m - p) ==> no_collision::<H>(
            load,
            data,
            right_half(bytes),
            g,
            s + p,
            sel,
            false,
        )
    }
}

/// What is read for a leaf is the blob's data if it has the same hash.
pub open spec fn no_leaf_collision<H: Hasher>(
    read: Result<Seq<u8>, IoError>,
    bytes: Seq<u8>,
    s: int,
    is_root: bool,
    all: bool,
) -> bool {
    read matches Ok(other) ==> (leaf_hash::<H>(s as u64, other, is_root, all) == leaf_hash::<H>(
        s as u64,
        bytes,
        is_root,
        all,
    ) ==> other == bytes)
}

/// `a` is the start of `b`.
pub open spec fn starts(a: Seq<u8>, b: Seq<u8>) -> bool {
    a.len() <= b.len() && b.take(a.len() as int) == a
}

/// Either encoding fails within the response `resp`, or it writes all of it and goes on.
spec fn writes(
    run: (Seq<u8>, Result<(), EncodeError>),
    resp: Seq<u8>,
    next: (Seq<u8>, Result<(), EncodeError>),
) -> bool {
    ||| run.1 is Err && starts(run.0, resp)
    ||| run.0 == resp + next.0 && run.1 == next.1
}

proof fn lemma_starts(own: Seq<u8>, a: Seq<u8>, b: Seq<u8>, more: Seq<u8>)
    requires
        starts(a, b),
    ensures
        starts(own + a, own + b + more),
{
    assert((own + b + more).take((own + a).len() as int) =~= own + a) by {
        assert(b.take(a.len() as int) == a);
        assert forall|i: int| 0 <= i < a.len() implies b[i] == a[i] by {
            assert(b.take(a.len() as int)[i] == b[i]);
        }
    }
}

/// Encoding a parent and its two children.
proof fn lemma_writes_halves(
    whole: (Seq<u8>, Result<(), EncodeError>),
    own: Seq<u8>,
    a: Seq<u8>,
    b: Seq<u8>,
    d1: (Seq<u8>, Result<(), EncodeError>),
    d2: (Seq<u8>, Result<(), EncodeError>),
    d3: (Seq<u8>, Result<(), EncodeError>),
)
    requires
        whole.0 == own + d1.0 && whole.1 == d1.1,
        writes(d1, a, d2),
        writes(d2, b, d3),
    ensures
        writes(whole, own + a + b, d3),
{
    if d1.1 is Err && starts(d1.0, a) {
        lemma_starts(own, d1.0, a, b);
    } else {
        assert(whole.0 =~= (own + a) + d2.0);
        if d2.1 is Err && starts(d2.0, b) {
            lemma_starts(own + a, d2.0, b, Seq::empty());
            assert(own + a + b + Seq::<u8>::empty() =~= own + a + b);
        } else {
            assert(whole.0 =~= own + a + b + d3.0);
        }
    }
}

/// Encoding a leaf with validation, whatever the data is.
proof fn lemma_sound_leaf<H: Hasher>(
    load: LoadFn,
    data: Seq<u8>,
    w: Walk,
    s: int,
    m: int,
    is_root: bool,
    bytes: Seq<u8>,
    rest: Seq<BaoChunk>,
    stack: Seq<Digest>,
)
    requires
        0 <= w.size <= u64::MAX,
        in_tree(w.size, s, m),
        m <= w.leaf || m <= 1,
        bytes.len() == byte_end(w.size, s, m) - byte_start(s),
        wanted(w.sel, s, m),
        no_collision::<H>(load, data, bytes, w.leaf, s, w.sel, is_root),
        parts_fit::<H>(bytes, w.leaf, s, w.sel, is_root),
    ensures
        writes(
            validated_run::<H>(
                load,
                w.leaf,
                w.sel,
                w.steps(s, m, is_root) + rest,
                stack.push(tree_hash::<H>(bytes, w.leaf, s, is_root)),
                data,
            ),
            response_bytes::<H>(bytes, w.leaf, s, w.sel),
            validated_run::<H>(load, w.leaf, w.sel, rest, stack, data),
        ),
{
    let g = w.leaf;
    lemma_leaf_count(w.size, s, m);
    assert(chunk_count(bytes) == m);
    let todo = w.steps(s, m, is_root) + rest;
    let expected = stack.push(tree_hash::<H>(bytes, g, s, is_root));
    assert(expected.drop_last() =~= stack);
    let all = full(w.sel, s, m);
    if m <= 1 {
        let c = choose|c: int| s <= c < s + m && #[trigger] w.sel.contains(c);
        assert(c == s);
        assert(all);
    }
    assert(todo[0] == leaf_chunk(w.size, s, m, is_root, all));
    assert(todo.skip(1) =~= rest);
    let read = bytes_at(data, byte_start(s), bytes.len() as int);
    assert(no_leaf_collision::<H>(read, bytes, s, is_root, all));
    let resp = response_bytes::<H>(bytes, g, s, w.sel);
    assert(resp.take(0) =~= Seq::empty());
}

/// Encoding a subtree with validation, whatever the outboard and the data are.
proof fn lemma_sound_subtree<H: Hasher>(
    load: LoadFn,
    data: Seq<u8>,
    w: Walk,
    s: int,
    m: int,
    is_root: bool,
    bytes: Seq<u8>,
    rest: Seq<BaoChunk>,
    stack: Seq<Digest>,
)
    requires
        0 <= w.size <= u64::MAX,
        w.whole == 1,
        in_tree(w.size, s, m),
        bytes.len() == byte_end(w.size, s, m) - byte_start(s),
        wanted(w.sel, s, m),
        no_collision::<H>(load, data, bytes, w.leaf, s, w.sel, is_root),
        parts_fit::<H>(bytes, w.leaf, s, w.sel, is_root),
    ensures
        writes(
            validated_run::<H>(
                load,
                w.leaf,
                w.sel,
                w.steps(s, m, is_root) + rest,
                stack.push(tree_hash::<H>(bytes, w.leaf, s, is_root)),
                data,
            ),
            response_bytes::<H>(bytes, w.leaf, s, w.sel),
            validated_run::<H>(load, w.leaf, w.sel, rest, stack, data),
        ),
    decreases m,
{
    let g = w.leaf;
    lemma_leaf_count(w.size, s, m);
    assert(chunk_count(bytes) == m);
    if m <= g || m <= 1 {
        lemma_sound_leaf::<H>(load, data, w, s, m, is_root, bytes, rest, stack);
    } else {
        let p = split_point(m);
        lemma_split_point(m);
        lemma_halves(bytes);
        let wl = wanted(w.sel, s, p);
        let wr = wanted(w.sel, s + p, m - p);
        let lb = left_half(bytes);
        let rb = right_half(bytes);
        let a = w.steps(s, p, false);
        let b = w.steps(s + p, m - p, false);
        let pair = root_pair::<H>(bytes, g, s);
        let own = pair_bytes(pair.0, pair.1);
        let lo = response_bytes::<H>(lb, g, s, w.sel);
        let ro = response_bytes::<H>(rb, g, s + p, w.sel);
        let todo = w.steps(s, m, is_root) + rest;
        let expected = stack.push(tree_hash::<H>(bytes, g, s, is_root));
        let node = TreeNode(node_number(s, m) as u64);
        assert(expected.drop_last() =~= stack);
        assert(todo[0] == parent_chunk(s, m, is_root, wl, wr));
        assert(todo.skip(1) =~= a + (b + rest));
        let whole = validated_run::<H>(load, g, w.sel, todo, expected, data);
        let resp = response_bytes::<H>(bytes, g, s, w.sel);
        assert(resp.take(0) =~= Seq::empty());
        let stack1 = if wr {
            stack.push(pair.1)
        } else {
            stack
        };
        let d1 = validated_run::<H>(
            load,
            g,
            w.sel,
            a + (b + rest),
            with_children(stack, pair, wl, wr),
            data,
        );
        let d2 = validated_run::<H>(load, g, w.sel, b + rest, stack1, data);
        let d3 = validated_run::<H>(load, g, w.sel, rest, stack, data);
        if loaded(load, node) == Ok::<(Digest, Digest), EncodeError>(pair) {
            assert(whole.0 == own + d1.0 && whole.1 == d1.1);
            assert(writes(d1, lo, d2)) by {
                if wl {
                    lemma_sound_subtree::<H>(load, data, w, s, p, false, lb, b + rest, stack1);
                } else {
                    assert(a + (b + rest) =~= b + rest);
                    assert(lo + d2.0 =~= d2.0);
                }
            }
            assert(writes(d2, ro, d3)) by {
                if wr {
                    lemma_sound_subtree::<H>(load, data, w, s + p, m - p, false, rb, rest, stack);
                } else {
                    assert(b + rest =~= rest);
                    assert(ro + d3.0 =~= d3.0);
                }
            }
            lemma_writes_halves(whole, own, lo, ro, d1, d2, d3);
        } else {
            assert(whole.0 =~= Seq::empty());
            assert(whole.1 is Err);
        }
    }
}

/// Encoding with validation never writes anything but the response for the blob, however wrong or
/// incomplete the outboard and the data are: where it fails, it has written the start of the
/// response, and where it succeeds, all of it. This leaves hash collisions aside.
pub proof fn law_encode_validated_sound<H: Hasher>(
    load: LoadFn,
    tree: BaoTree,
    ranges: Set<int>,
    data: Seq<u8>,
    blob: Seq<u8>,
)
    requires
        tree.wf(),
        blob.len() == tree.size,
        no_collision::<H>(
            load,
            data,
            blob,
            tree.group(),
            0,
            selection(ranges, tree.total()),
            true,
        ),
        parts_fit::<H>(blob, tree.group(), 0, selection(ranges, tree.total()), true),
    ensures
        ({
            let sel = selection(ranges, tree.total());
            let (out, res) = validated_run::<H>(
                load,
                tree.group(),
                sel,
                Walk::encode(tree, ranges).all_steps(),
                seq![tree_hash::<H>(blob, tree.group(), 0, true)],
                data,
            );
            let response = response_bytes::<H>(blob, tree.group(), 0, sel);
            starts(out, response) && (res is Ok ==> out == response)
        }),
{
    let w = Walk::encode(tree, ranges);
    let m = tree.total();
    let root = tree_hash::<H>(blob, tree.group(), 0, true);
    let none = Seq::<BaoChunk>::empty();
    let resp = response_bytes::<H>(blob, tree.group(), 0, w.sel);
    assert(Seq::empty().push(root) =~= seq![root]);
    assert(resp.take(resp.len() as int) =~= resp);
    if wanted(w.sel, 0, m) {
        lemma_sound_subtree::<H>(load, data, w, 0, m, true, blob, none, Seq::empty());
        assert(w.steps(0, m, true) + none =~= w.steps(0, m, true));
        assert(resp + Seq::<u8>::empty() =~= resp);
    }
}

/// The chunk groups that are asked for, for which the outboard has the right hash pairs on the way
/// to them, and on which the data is the blob's.
pub open spec fn true_groups<H: Hasher>(
    load: LoadFn,
    data: Seq<u8>,
    size: int,
    bytes: Seq<u8>,
    g: int,
    s: int,
    sel: Set<int>,
) -> Seq<ChunkSpan>
    decreases bytes.len(),
{
    let m = chunk_count(bytes);
    if m <= g || m <= 1 {
        if bytes_at(data, byte_start(s), bytes.len() as int) == Ok::<Seq<u8>, IoError>(bytes) {
            seq![subtree_span(size, s, m)]
        } else {
            Seq::empty()
        }
    } else {
        proof {
            lemma_halves(bytes);
        }
        let p = split_point(m);
        if load(TreeNode(node_number(s, m) as u64)) == Ok::<Option<(Digest, Digest)>, IoError>(
            Some(root_pair::<H>(bytes, g, s)),
        ) {
            let left = if wanted(sel, s, p) {
                true_groups::<H>(load, data, size, left_half(bytes), g, s, sel)
            } else {
                Seq::empty()
            };
            let right = if wanted(sel, s + p, m - p) {
                true_groups::<H>(load, data, size, right_half(bytes), g, s + p, sel)
            } else {
                Seq::empty()
            };
            left + right
        } else {
            Seq::empty()
        }
    }
}

proof fn lemma_true_groups<H: Hasher>(
    load: LoadFn,
    data: Seq<u8>,
    size: int,
    g: int,
    sel: Set<int>,
    s: int,
    m: int,
    is_root: bool,
    bytes: Seq<u8>,
)
    requires
        0 <= size <= u64::MAX,
        size <= data.len(),
        in_tree(size, s, m),
        bytes.len() == byte_end(size, s, m) - byte_start(s),
        no_collision::<H>(load, data, bytes, g, s, sel, is_root),
        forall|node: TreeNode| (#[trigger] load(node)) is Ok,
    ensures
        validate_run::<H>(
            load,
            data_check::<H>(size, data),
            size,
            g,
            sel,
            s,
            m,
            is_root,
            tree_hash::<H>(bytes, g, s, is_root),
        ) == (true_groups::<H>(load, data, size, bytes, g, s, sel), Ok::<(), IoError>(())),
    decreases m,
{
    lemma_leaf_count(size, s, m);
    assert(chunk_count(bytes) == m);
    if m <= g || m <= 1 {
        let read = bytes_at(data, byte_start(s), bytes.len() as int);
        assert(no_leaf_collision::<H>(read, bytes, s, is_root, true));
        let check = data_check::<H>(size, data);
        let hash = tree_hash::<H>(bytes, g, s, is_root);
        assert(check(s, m, is_root, hash) == Ok::<bool, IoError>(
            read == Ok::<Seq<u8>, IoError>(bytes),
        ));
    } else {
        let p = split_point(m);
        lemma_split_point(m);
        lemma_halves(bytes);
        assert(load(TreeNode(node_number(s, m) as u64)) is Ok);
        if wanted(sel, s, p) {
            lemma_true_groups::<H>(load, data, size, g, sel, s, p, false, left_half(bytes));
        }
        if wanted(sel, s + p, m - p) {
            lemma_true_groups::<H>(
                load,
                data,
                size,
                g,
                sel,
                s + p,
                m - p,
                false,
                right_half(bytes),
            );
        }
    }
}

/// Validation reports a chunk group if and only if it is asked for, the outboard has the right
/// hash pairs on the way to it, and its data is the blob's, however wrong the outboard and the data
/// are elsewhere. This leaves hash collisions and failing reads aside.
pub proof fn law_valid_ranges_sound<H: Hasher>(
    load: LoadFn,
    tree: BaoTree,
    ranges: Set<int>,
    data: Seq<u8>,
    blob: Seq<u8>,
)
    requires
        tree.wf(),
        blob.len() == tree.size,
        tree.size <= data.len(),
        forall|node: TreeNode| (#[trigger] load(node)) is Ok,
        no_collision::<H>(
            load,
            data,
            blob,
            tree.group(),
            0,
            selection(ranges, tree.total()),
            true,
        ),
    ensures
        ({
            let sel = selection(ranges, tree.total());
            validate_tree::<H>(
                load,
                data_check::<H>(tree.size as int, data),
                tree,
                ranges,
                tree_hash::<H>(blob, tree.group(), 0, true),
            ) == (
                if groups(tree.group(), tree.total()) == 1 || wanted(sel, 0, tree.total()) {
                    true_groups::<H>(load, data, tree.size as int, blob, tree.group(), 0, sel)
                } else {
                    Seq::empty()
                },
                Ok::<(), IoError>(()),
            )
        }),
{
    let sel = selection(ranges, tree.total());
    lemma_true_groups::<H>(
        load,
        data,
        tree.size as int,
        tree.group(),
        sel,
        0,
        tree.total(),
        true,
        blob,
    );
}

} // verus!
