//! What a response holds, and what decoding it gives back.
use crate::content::{write_over, Content};
use crate::decode::decode_run;
use crate::copy::LoadFn;
use crate::encode::{validated_run, with_children};
use crate::error::{DecodeError, EncodeError, IoError};
use crate::geometry::{byte_end, byte_start, in_tree, lemma_split_point, node_number, split_point};
use crate::hash::{
    chunk_count, hashes_groups_as_trees, lemma_group_free, lemma_halves, lemma_pair_of, left_half,
    pair_bytes, right_half, root_pair, tree_hash, Digest, Hasher,
};
use crate::iter::{
    leaf_chunk, lemma_leaf_count, lemma_wanted_split, parent_chunk, BaoChunk, Walk,
};
use crate::laws::store::holds_pairs;
use crate::outboard::{Outboard, OutboardMut};
use crate::ranges::{full, selection, wanted};
use crate::select::selected_bytes;
use crate::tree::{BaoTree, TreeNode};
use vstd::prelude::*;

verus! {

/// What a response holds of the tree over `bytes`, whose first chunk has the number `s`: the hash
/// pairs of the nodes on the way to what is selected, each before what it covers, and the selected
/// data. Chunk groups that are selected as a whole come without hash pairs of their own.
pub open spec fn response_bytes<H: Hasher>(
    bytes: Seq<u8>,
    g: int,
    s: int,
    sel: Set<int>,
) -> Seq<u8>
    decreases bytes.len(),
{
    let m = chunk_count(bytes);
    if !wanted(sel, s, m) {
        Seq::empty()
    } else if m <= g || m <= 1 {
        selected_bytes::<H>(bytes, g, s, sel)
    } else {
        proof {
            lemma_halves(bytes);
        }
        let pair = root_pair::<H>(bytes, g, s);
        pair_bytes(pair.0, pair.1) + response_bytes::<H>(left_half(bytes), g, s, sel)
            + response_bytes::<H>(right_half(bytes), g, s + split_point(m), sel)
    }
}

/// Inside a chunk group that is selected in part, the hasher hashes each largest subtree that is
/// selected as a whole as the tree over its chunks: the response holds its data without hash pairs.
pub open spec fn inside_fits<H: Hasher>(bytes: Seq<u8>, g: int, s: int, sel: Set<int>) -> bool
    decreases bytes.len(),
{
    let m = chunk_count(bytes);
    if !wanted(sel, s, m) || m <= 1 {
        true
    } else if m <= g && full(sel, s, m) {
        H::chunk_hash(s as u64, bytes, false) == tree_hash::<H>(bytes, 1, s, false)
    } else {
        proof {
            lemma_halves(bytes);
        }
        &&& inside_fits::<H>(left_half(bytes), g, s, sel)
        &&& inside_fits::<H>(right_half(bytes), g, s + split_point(m), sel)
    }
}

/// Each chunk group that is selected in part fits inside.
pub open spec fn insides_fit<H: Hasher>(bytes: Seq<u8>, g: int, s: int, sel: Set<int>) -> bool
    decreases bytes.len(),
{
    let m = chunk_count(bytes);
    if !wanted(sel, s, m) {
        true
    } else if m <= g || m <= 1 {
        full(sel, s, m) || inside_fits::<H>(bytes, g, s, sel)
    } else {
        proof {
            lemma_halves(bytes);
        }
        &&& insides_fit::<H>(left_half(bytes), g, s, sel)
        &&& insides_fit::<H>(right_half(bytes), g, s + split_point(m), sel)
    }
}

/// Each chunk group that is selected in part fits inside, and the hasher hashes it as the tree over
/// its chunks.
pub open spec fn parts_fit<H: Hasher>(
    bytes: Seq<u8>,
    g: int,
    s: int,
    sel: Set<int>,
    is_root: bool,
) -> bool
    decreases bytes.len(),
{
    let m = chunk_count(bytes);
    if !wanted(sel, s, m) {
        true
    } else if m <= g || m <= 1 {
        full(sel, s, m) || (inside_fits::<H>(bytes, g, s, sel) && H::chunk_hash(
            s as u64,
            bytes,
            is_root,
        ) == tree_hash::<H>(bytes, 1, s, is_root))
    } else {
        proof {
            lemma_halves(bytes);
        }
        &&& parts_fit::<H>(left_half(bytes), g, s, sel, false)
        &&& parts_fit::<H>(right_half(bytes), g, s + split_point(m), sel, false)
    }
}

/// What encoding reads is there: loading gives the hash pairs of the nodes on the way to what is
/// selected, and `data` agrees with the blob on each chunk group of which a part is selected.
pub open spec fn provides<H: Hasher>(
    load: LoadFn,
    data: Seq<u8>,
    bytes: Seq<u8>,
    g: int,
    s: int,
    sel: Set<int>,
) -> bool
    decreases bytes.len(),
{
    let m = chunk_count(bytes);
    if !wanted(sel, s, m) {
        true
    } else if m <= g || m <= 1 {
        &&& byte_start(s) + bytes.len() <= data.len()
        &&& data.subrange(byte_start(s), byte_start(s) + bytes.len()) == bytes
    } else {
        proof {
            lemma_halves(bytes);
        }
        &&& load(TreeNode(node_number(s, m) as u64)) == Ok::<Option<(Digest, Digest)>, IoError>(
            Some(root_pair::<H>(bytes, g, s)),
        )
        &&& provides::<H>(load, data, left_half(bytes), g, s, sel)
        &&& provides::<H>(load, data, right_half(bytes), g, s + split_point(m), sel)
    }
}

/// With one chunk to a group, no group is selected in part.
pub proof fn law_chunks_fit<H: Hasher>(
    bytes: Seq<u8>,
    g: int,
    s: int,
    sel: Set<int>,
    is_root: bool,
)
    requires
        g <= 1,
    ensures
        parts_fit::<H>(bytes, g, s, sel, is_root),
        insides_fit::<H>(bytes, g, s, sel),
    decreases bytes.len(),
{
    let m = chunk_count(bytes);
    if m > 1 {
        lemma_halves(bytes);
        law_chunks_fit::<H>(left_half(bytes), g, s, sel, false);
        law_chunks_fit::<H>(right_half(bytes), g, s + split_point(m), sel, false);
    }
}

/// Where the hasher hashes a chunk group as a tree, it fits inside, whatever is selected.
proof fn lemma_tree_fits_inside<H: Hasher>(bytes: Seq<u8>, g: int, s: int, sel: Set<int>)
    requires
        hashes_groups_as_trees::<H>(bytes, g, s),
    ensures
        inside_fits::<H>(bytes, g, s, sel),
    decreases bytes.len(),
{
    let m = chunk_count(bytes);
    if m > 1 {
        lemma_group_free::<H>(bytes, g, s, false);
        lemma_halves(bytes);
        lemma_tree_fits_inside::<H>(left_half(bytes), g, s, sel);
        lemma_tree_fits_inside::<H>(right_half(bytes), g, s + split_point(m), sel);
    }
}

/// Where the hasher hashes all chunk groups of the blob as trees, every query fits.
pub proof fn law_trees_fit<H: Hasher>(
    bytes: Seq<u8>,
    g: int,
    s: int,
    sel: Set<int>,
    is_root: bool,
)
    requires
        hashes_groups_as_trees::<H>(bytes, g, s),
    ensures
        parts_fit::<H>(bytes, g, s, sel, is_root),
        insides_fit::<H>(bytes, g, s, sel),
    decreases bytes.len(),
{
    let m = chunk_count(bytes);
    if m > g && m > 1 {
        lemma_halves(bytes);
        law_trees_fit::<H>(left_half(bytes), g, s, sel, false);
        law_trees_fit::<H>(right_half(bytes), g, s + split_point(m), sel, false);
    } else {
        lemma_group_free::<H>(bytes, g, s, is_root);
        lemma_tree_fits_inside::<H>(bytes, g, s, sel);
    }
}

/// Where every chunk group that is selected in part fits, it fits inside.
pub proof fn law_parts_fit_inside<H: Hasher>(
    bytes: Seq<u8>,
    g: int,
    s: int,
    sel: Set<int>,
    is_root: bool,
)
    requires
        parts_fit::<H>(bytes, g, s, sel, is_root),
    ensures
        insides_fit::<H>(bytes, g, s, sel),
    decreases bytes.len(),
{
    let m = chunk_count(bytes);
    if m > g && m > 1 {
        lemma_halves(bytes);
        if wanted(sel, s, m) {
            law_parts_fit_inside::<H>(left_half(bytes), g, s, sel, false);
            law_parts_fit_inside::<H>(right_half(bytes), g, s + split_point(m), sel, false);
        }
    }
}

/// A subtree inside a group that fits, and that is selected as a whole, is hashed as a tree.
pub proof fn lemma_inside_full<H: Hasher>(bytes: Seq<u8>, g: int, s: int, sel: Set<int>)
    requires
        inside_fits::<H>(bytes, g, s, sel),
        wanted(sel, s, chunk_count(bytes)),
        chunk_count(bytes) <= g || chunk_count(bytes) <= 1,
        full(sel, s, chunk_count(bytes)),
    ensures
        H::chunk_hash(s as u64, bytes, false) == tree_hash::<H>(bytes, 1, s, false),
{
}

/// One chunk that is wanted is selected.
pub proof fn lemma_one_wanted(sel: Set<int>, s: int, m: int)
    requires
        m <= 1,
        wanted(sel, s, m),
    ensures
        full(sel, s, m),
{
    let c = choose|c: int| s <= c < s + m && #[trigger] sel.contains(c);
    assert(c == s);
}

/// Encoding a leaf with validation.
proof fn lemma_encode_leaf<H: Hasher>(
    load: LoadFn,
    data: Seq<u8>,
    w: Walk,
    s: int,
    m: int,
    is_root: bool,
    bytes: Seq<u8>,
    rest: Seq<BaoChunk>,
    stack: Seq<Digest>,
)
    requires
        0 <= w.size <= u64::MAX,
        in_tree(w.size, s, m),
        m <= w.leaf || m <= 1,
        bytes.len() == byte_end(w.size, s, m) - byte_start(s),
        wanted(w.sel, s, m),
        provides::<H>(load, data, bytes, w.leaf, s, w.sel),
        parts_fit::<H>(bytes, w.leaf, s, w.sel, is_root),
    ensures
        validated_run::<H>(
            load,
            w.leaf,
            w.sel,
            w.steps(s, m, is_root) + rest,
            stack.push(tree_hash::<H>(bytes, w.leaf, s, is_root)),
            data,
        ) == ({
            let (out, res) = validated_run::<H>(load, w.leaf, w.sel, rest, stack, data);
            (response_bytes::<H>(bytes, w.leaf, s, w.sel) + out, res)
        }),
{
    let g = w.leaf;
    lemma_leaf_count(w.size, s, m);
    assert(chunk_count(bytes) == m);
    let todo = w.steps(s, m, is_root) + rest;
    let expected = stack.push(tree_hash::<H>(bytes, g, s, is_root));
    assert(expected.drop_last() =~= stack);
    if m <= 1 {
        lemma_one_wanted(w.sel, s, m);
    }
    let all = full(w.sel, s, m);
    assert(todo[0] == leaf_chunk(w.size, s, m, is_root, all));
    assert(todo.skip(1) =~= rest);
}

/// Encoding a parent with validation.
proof fn lemma_encode_parent<H: Hasher>(
    load: LoadFn,
    data: Seq<u8>,
    w: Walk,
    s: int,
    m: int,
    is_root: bool,
    pair: (Digest, Digest),
    rest: Seq<BaoChunk>,
    stack: Seq<Digest>,
)
    requires
        !w.stops(s, m),
        wanted(w.sel, s, m),
        load(TreeNode(node_number(s, m) as u64)) == Ok::<Option<(Digest, Digest)>, IoError>(
            Some(pair),
        ),
    ensures
        ({
            let p = split_point(m);
            let wl = wanted(w.sel, s, p);
            let wr = wanted(w.sel, s + p, m - p);
            let (out, res) = validated_run::<H>(
                load,
                w.leaf,
                w.sel,
                w.steps(s, p, false) + (w.steps(s + p, m - p, false) + rest),
                with_children(stack, pair, wl, wr),
                data,
            );
            validated_run::<H>(
                load,
                w.leaf,
                w.sel,
                w.steps(s, m, is_root) + rest,
                stack.push(H::inner_hash(pair.0, pair.1, is_root)),
                data,
            ) == (pair_bytes(pair.0, pair.1) + out, res)
        }),
{
    let p = split_point(m);
    lemma_split_point(m);
    let wl = wanted(w.sel, s, p);
    let wr = wanted(w.sel, s + p, m - p);
    let todo = w.steps(s, m, is_root) + rest;
    let a = w.steps(s, p, false);
    let b = w.steps(s + p, m - p, false);
    let expected = stack.push(H::inner_hash(pair.0, pair.1, is_root));
    assert(expected.drop_last() =~= stack);
    assert(todo[0] == parent_chunk(s, m, is_root, wl, wr));
    assert(todo.skip(1) =~= a + (b + rest));
}

/// Encoding a subtree with validation.
proof fn lemma_encode_subtree<H: Hasher>(
    load: LoadFn,
    data: Seq<u8>,
    w: Walk,
    s: int,
    m: int,
    is_root: bool,
    bytes: Seq<u8>,
    rest: Seq<BaoChunk>,
    stack: Seq<Digest>,
)
    requires
        0 <= w.size <= u64::MAX,
        w.whole == 1,
        in_tree(w.size, s, m),
        bytes.len() == byte_end(w.size, s, m) - byte_start(s),
        wanted(w.sel, s, m),
        provides::<H>(load, data, bytes, w.leaf, s, w.sel),
        parts_fit::<H>(bytes, w.leaf, s, w.sel, is_root),
    ensures
        validated_run::<H>(
            load,
            w.leaf,
            w.sel,
            w.steps(s, m, is_root) + rest,
            stack.push(tree_hash::<H>(bytes, w.leaf, s, is_root)),
            data,
        ) == ({
            let (out, res) = validated_run::<H>(load, w.leaf, w.sel, rest, stack, data);
            (response_bytes::<H>(bytes, w.leaf, s, w.sel) + out, res)
        }),
    decreases m,
{
    let g = w.leaf;
    lemma_leaf_count(w.size, s, m);
    assert(chunk_count(bytes) == m);
    if m <= g || m <= 1 {
        lemma_encode_leaf::<H>(load, data, w, s, m, is_root, bytes, rest, stack);
    } else {
        let p = split_point(m);
        lemma_split_point(m);
        lemma_halves(bytes);
        let wl = wanted(w.sel, s, p);
        let wr = wanted(w.sel, s + p, m - p);
        let lb = left_half(bytes);
        let rb = right_half(bytes);
        let a = w.steps(s, p, false);
        let b = w.steps(s + p, m - p, false);
        let pair = root_pair::<H>(bytes, g, s);
        lemma_encode_parent::<H>(load, data, w, s, m, is_root, pair, rest, stack);
        let stack1 = if wr {
            stack.push(pair.1)
        } else {
            stack
        };
        let (out, res) = validated_run::<H>(load, g, w.sel, rest, stack, data);
        let lo = response_bytes::<H>(lb, g, s, w.sel);
        let ro = response_bytes::<H>(rb, g, s + p, w.sel);
        let right = validated_run::<H>(load, g, w.sel, b + rest, stack1, data);
        assert(right == (ro + out, res)) by {
            if wr {
                lemma_encode_subtree::<H>(load, data, w, s + p, m - p, false, rb, rest, stack);
            } else {
                assert(b + rest =~= rest);
                assert(ro + out =~= out);
            }
        }
        let both = validated_run::<H>(
            load,
            g,
            w.sel,
            a + (b + rest),
            with_children(stack, pair, wl, wr),
            data,
        );
        assert(both == (lo + (ro + out), res)) by {
            if wl {
                lemma_encode_subtree::<H>(load, data, w, s, p, false, lb, b + rest, stack1);
            } else {
                assert(a + (b + rest) =~= b + rest);
                assert(lo + (ro + out) =~= ro + out);
            }
        }
        let own = pair_bytes(pair.0, pair.1);
        assert(own + (lo + (ro + out)) =~= own + lo + ro + out);
    }
}

/// Encoding with validation, from an outboard and data that have what the query needs, succeeds
/// and writes the response for the blob. The rest of the data and of the outboard may be missing.
pub proof fn law_encode_validated<H: Hasher>(
    load: LoadFn,
    tree: BaoTree,
    ranges: Set<int>,
    data: Seq<u8>,
    blob: Seq<u8>,
)
    requires
        tree.wf(),
        blob.len() == tree.size,
        provides::<H>(load, data, blob, tree.group(), 0, selection(ranges, tree.total())),
        parts_fit::<H>(blob, tree.group(), 0, selection(ranges, tree.total()), true),
    ensures
        validated_run::<H>(
            load,
            tree.group(),
            selection(ranges, tree.total()),
            Walk::encode(tree, ranges).all_steps(),
            seq![tree_hash::<H>(blob, tree.group(), 0, true)],
            data,
        ) == (
            response_bytes::<H>(blob, tree.group(), 0, selection(ranges, tree.total())),
            Ok::<(), EncodeError>(()),
        ),
{
    let w = Walk::encode(tree, ranges);
    let m = tree.total();
    let root = tree_hash::<H>(blob, tree.group(), 0, true);
    let none = Seq::<BaoChunk>::empty();
    assert(Seq::empty().push(root) =~= seq![root]);
    if wanted(w.sel, 0, m) {
        lemma_encode_subtree::<H>(load, data, w, 0, m, true, blob, none, Seq::empty());
        assert(w.steps(0, m, true) + none =~= w.steps(0, m, true));
        let resp = response_bytes::<H>(blob, tree.group(), 0, w.sel);
        assert(resp + Seq::<u8>::empty() =~= resp);
    }
}

/// A complete outboard together with the whole blob has what any query needs.
pub proof fn law_complete_provides<H: Hasher>(
    load: LoadFn,
    data: Seq<u8>,
    bytes: Seq<u8>,
    g: int,
    s: int,
    sel: Set<int>,
)
    requires
        0 <= s,
        byte_start(s) + bytes.len() <= data.len(),
        data.subrange(byte_start(s), byte_start(s) + bytes.len()) == bytes,
        holds_pairs::<H>(load, bytes, g, s),
    ensures
        provides::<H>(load, data, bytes, g, s, sel),
    decreases bytes.len(),
{
    let m = chunk_count(bytes);
    if m > g && m > 1 {
        lemma_halves(bytes);
        let p = split_point(m);
        let lb = left_half(bytes);
        let rb = right_half(bytes);
        assert(data.subrange(byte_start(s), byte_start(s) + lb.len()) =~= lb);
        assert(data.subrange(byte_start(s + p), byte_start(s + p) + rb.len()) =~= rb);
        law_complete_provides::<H>(load, data, lb, g, s, sel);
        law_complete_provides::<H>(load, data, rb, g, s + p, sel);
    }
}

/// The items of a response for the tree over `bytes` below chunk groups.
pub open spec fn selected_items<H: Hasher>(
    bytes: Seq<u8>,
    g: int,
    s: int,
    sel: Set<int>,
) -> Seq<Content>
    decreases bytes.len(),
{
    let m = chunk_count(bytes);
    if !wanted(sel, s, m) {
        Seq::empty()
    } else if m <= 1 || (m <= g && full(sel, s, m)) {
        seq![Content::Leaf { offset: byte_start(s) as u64, data: bytes }]
    } else {
        proof {
            lemma_halves(bytes);
        }
        seq![
            Content::Parent {
                node: TreeNode(node_number(s, m) as u64),
                pair: root_pair::<H>(bytes, 1, s),
            },
        ] + selected_items::<H>(left_half(bytes), g, s, sel) + selected_items::<H>(
            right_half(bytes),
            g,
            s + split_point(m),
            sel,
        )
    }
}

/// The items of the response for the tree over `bytes`.
pub open spec fn response_items<H: Hasher>(
    bytes: Seq<u8>,
    g: int,
    s: int,
    sel: Set<int>,
) -> Seq<Content>
    decreases bytes.len(),
{
    let m = chunk_count(bytes);
    if !wanted(sel, s, m) {
        Seq::empty()
    } else if m <= g || m <= 1 {
        selected_items::<H>(bytes, g, s, sel)
    } else {
        proof {
            lemma_halves(bytes);
        }
        seq![
            Content::Parent {
                node: TreeNode(node_number(s, m) as u64),
                pair: root_pair::<H>(bytes, g, s),
            },
        ] + response_items::<H>(left_half(bytes), g, s, sel) + response_items::<H>(
            right_half(bytes),
            g,
            s + split_point(m),
            sel,
        )
    }
}

/// What a target and an outboard are after items came in, and the first failure to save one.
pub open spec fn apply_items<O: OutboardMut>(items: Seq<Content>, target: Seq<u8>, st: O::V) -> (
    Seq<u8>,
    O::V,
    Result<(), DecodeError>,
)
    decreases items.len(),
{
    if items.len() == 0 {
        (target, st, Ok(()))
    } else {
        match items[0] {
            Content::Parent { node, pair } => {
                let (st1, res) = O::saved(st, node, pair);
                match res {
                    Err(e) => (target, st1, Err(DecodeError::Io(e))),
                    Ok(_) => apply_items::<O>(items.skip(1), target, st1),
                }
            },
            Content::Leaf { offset, data } => apply_items::<O>(
                items.skip(1),
                write_over(target, offset as int, data),
                st,
            ),
        }
    }
}

/// Items that come in one after the other.
pub proof fn lemma_apply_concat<O: OutboardMut>(
    a: Seq<Content>,
    b: Seq<Content>,
    target: Seq<u8>,
    st: O::V,
)
    ensures
        apply_items::<O>(a + b, target, st) == ({
            let (t1, st1, res) = apply_items::<O>(a, target, st);
            match res {
                Err(e) => (t1, st1, Err::<(), DecodeError>(e)),
                Ok(_) => apply_items::<O>(b, t1, st1),
            }
        }),
    decreases a.len(),
{
    if a.len() == 0 {
        assert(a + b =~= b);
    } else {
        assert((a + b)[0] == a[0]);
        assert((a + b).skip(1) =~= a.skip(1) + b);
        match a[0] {
            Content::Parent { node, pair } => {
                let (st1, res) = O::saved(st, node, pair);
                if res is Ok {
                    lemma_apply_concat::<O>(a.skip(1), b, target, st1);
                }
            },
            Content::Leaf { offset, data } => {
                lemma_apply_concat::<O>(
                    a.skip(1),
                    b,
                    write_over(target, offset as int, data),
                    st,
                );
            },
        }
    }
}

/// Decoding after items came in.
pub open spec fn decode_after<O: Outboard + OutboardMut>(
    items: Seq<Content>,
    todo: Seq<BaoChunk>,
    stack: Seq<Digest>,
    encoded: Seq<u8>,
    target: Seq<u8>,
    st: <O as View>::V,
) -> (Seq<u8>, <O as View>::V, Result<(), DecodeError>) {
    let (t1, st1, res) = apply_items::<O>(items, target, st);
    match res {
        Err(e) => (t1, st1, Err(e)),
        Ok(_) => decode_run::<O>(todo, stack, encoded, t1, st1),
    }
}

/// Decoding a leaf that is as expected.
pub proof fn lemma_decode_leaf<O: Outboard + OutboardMut>(
    w: Walk,
    s: int,
    m: int,
    is_root: bool,
    bytes: Seq<u8>,
    rest: Seq<BaoChunk>,
    stack: Seq<Digest>,
    more: Seq<u8>,
    target: Seq<u8>,
    st: <O as View>::V,
)
    requires
        0 <= w.size <= u64::MAX,
        in_tree(w.size, s, m),
        bytes.len() == byte_end(w.size, s, m) - byte_start(s),
        wanted(w.sel, s, m),
        w.stops(s, m),
    ensures
        decode_run::<O>(
            w.steps(s, m, is_root) + rest,
            stack.push(
                <<O as Outboard>::Hasher as Hasher>::chunk_hash(s as u64, bytes, is_root),
            ),
            bytes + more,
            target,
            st,
        ) == decode_after::<O>(
            seq![Content::Leaf { offset: byte_start(s) as u64, data: bytes }],
            rest,
            stack,
            more,
            target,
            st,
        ),
{
    lemma_leaf_count(w.size, s, m);
    let todo = w.steps(s, m, is_root) + rest;
    let item = Content::Leaf { offset: byte_start(s) as u64, data: bytes };
    assert(todo[0] == leaf_chunk(w.size, s, m, is_root, full(w.sel, s, m)));
    assert(todo.skip(1) =~= rest);
    let expected = stack.push(
        <<O as Outboard>::Hasher as Hasher>::chunk_hash(s as u64, bytes, is_root),
    );
    assert(expected.drop_last() =~= stack);
    assert((bytes + more).take(bytes.len() as int) =~= bytes);
    assert((bytes + more).skip(bytes.len() as int) =~= more);
    assert(seq![item].skip(1) =~= Seq::empty());
    let t1 = write_over(target, byte_start(s), bytes);
    assert(apply_items::<O>(Seq::empty(), t1, st) == (t1, st, Ok::<(), DecodeError>(())));
}

/// Decoding a parent that is as expected.
pub proof fn lemma_decode_parent<O: Outboard + OutboardMut>(
    w: Walk,
    s: int,
    m: int,
    is_root: bool,
    pair: (Digest, Digest),
    items: Seq<Content>,
    rest: Seq<BaoChunk>,
    stack: Seq<Digest>,
    encoded: Seq<u8>,
    target: Seq<u8>,
    st: <O as View>::V,
)
    requires
        !w.stops(s, m),
        wanted(w.sel, s, m),
    ensures
        ({
            let p = split_point(m);
            let (st1, res) = O::saved(st, TreeNode(node_number(s, m) as u64), pair);
            let whole = decode_run::<O>(
                w.steps(s, m, is_root) + rest,
                stack.push(
                    <<O as Outboard>::Hasher as Hasher>::inner_hash(pair.0, pair.1, is_root),
                ),
                pair_bytes(pair.0, pair.1) + encoded,
                target,
                st,
            );
            match res {
                Err(e) => whole == (target, st1, Err::<(), DecodeError>(DecodeError::Io(e))),
                Ok(_) => whole == decode_run::<O>(
                    w.steps(s, p, false) + (w.steps(s + p, m - p, false) + rest),
                    with_children(
                        stack,
                        pair,
                        wanted(w.sel, s, p),
                        wanted(w.sel, s + p, m - p),
                    ),
                    encoded,
                    target,
                    st1,
                ),
            }
        }),
        ({
            let node = TreeNode(node_number(s, m) as u64);
            let (st1, res) = O::saved(st, node, pair);
            apply_items::<O>(seq![Content::Parent { node, pair }] + items, target, st) == (
            match res {
                Err(e) => (target, st1, Err::<(), DecodeError>(DecodeError::Io(e))),
                Ok(_) => apply_items::<O>(items, target, st1),
            })
        }),
{
    let p = split_point(m);
    lemma_split_point(m);
    let node = TreeNode(node_number(s, m) as u64);
    let own = pair_bytes(pair.0, pair.1);
    lemma_pair_of(pair.0, pair.1);
    let todo = w.steps(s, m, is_root) + rest;
    let a = w.steps(s, p, false);
    let b = w.steps(s + p, m - p, false);
    assert(todo[0] == parent_chunk(
        s,
        m,
        is_root,
        wanted(w.sel, s, p),
        wanted(w.sel, s + p, m - p),
    ));
    assert(todo.skip(1) =~= a + (b + rest));
    let expected = stack.push(
        <<O as Outboard>::Hasher as Hasher>::inner_hash(pair.0, pair.1, is_root),
    );
    assert(expected.drop_last() =~= stack);
    assert((own + encoded).take(64) =~= own);
    assert((own + encoded).skip(64) =~= encoded);
    let all = seq![Content::Parent { node, pair }] + items;
    assert(all[0] == Content::Parent { node, pair });
    assert(all.skip(1) =~= items);
}

/// Decoding the response for a subtree inside a chunk group.
pub proof fn lemma_decode_selected<O: Outboard + OutboardMut>(
    w: Walk,
    s: int,
    m: int,
    is_root: bool,
    bytes: Seq<u8>,
    rest: Seq<BaoChunk>,
    stack: Seq<Digest>,
    more: Seq<u8>,
    target: Seq<u8>,
    st: <O as View>::V,
)
    requires
        0 <= w.size <= u64::MAX,
        w.leaf == 1,
        in_tree(w.size, s, m),
        bytes.len() == byte_end(w.size, s, m) - byte_start(s),
        wanted(w.sel, s, m),
        m <= w.whole || m <= 1,
        inside_fits::<<O as Outboard>::Hasher>(bytes, w.whole, s, w.sel),
        m <= w.whole && full(w.sel, s, m) ==> <<O as Outboard>::Hasher as Hasher>::chunk_hash(
            s as u64,
            bytes,
            is_root,
        ) == tree_hash::<<O as Outboard>::Hasher>(bytes, 1, s, is_root),
    ensures
        decode_run::<O>(
            w.steps(s, m, is_root) + rest,
            stack.push(tree_hash::<<O as Outboard>::Hasher>(bytes, 1, s, is_root)),
            selected_bytes::<<O as Outboard>::Hasher>(bytes, w.whole, s, w.sel) + more,
            target,
            st,
        ) == decode_after::<O>(
            selected_items::<<O as Outboard>::Hasher>(bytes, w.whole, s, w.sel),
            rest,
            stack,
            more,
            target,
            st,
        ),
    decreases m,
{
    let g = w.whole;
    lemma_leaf_count(w.size, s, m);
    assert(chunk_count(bytes) == m);
    if m <= 1 || (m <= g && full(w.sel, s, m)) {
        lemma_decode_leaf::<O>(w, s, m, is_root, bytes, rest, stack, more, target, st);
    } else {
        let p = split_point(m);
        lemma_split_point(m);
        lemma_halves(bytes);
        lemma_wanted_split(w.sel, s, m, p);
        let wl = wanted(w.sel, s, p);
        let wr = wanted(w.sel, s + p, m - p);
        let lb = left_half(bytes);
        let rb = right_half(bytes);
        let a = w.steps(s, p, false);
        let b = w.steps(s + p, m - p, false);
        let pair = root_pair::<<O as Outboard>::Hasher>(bytes, 1, s);
        let lo = selected_bytes::<<O as Outboard>::Hasher>(lb, g, s, w.sel);
        let ro = selected_bytes::<<O as Outboard>::Hasher>(rb, g, s + p, w.sel);
        let li = selected_items::<<O as Outboard>::Hasher>(lb, g, s, w.sel);
        let ri = selected_items::<<O as Outboard>::Hasher>(rb, g, s + p, w.sel);
        let node = TreeNode(node_number(s, m) as u64);
        let own = pair_bytes(pair.0, pair.1);
        assert(own + lo + ro + more =~= own + (lo + (ro + more)));
        assert(seq![Content::Parent { node, pair }] + li + ri =~= seq![
            Content::Parent { node, pair },
        ] + (li + ri));
        lemma_decode_parent::<O>(
            w,
            s,
            m,
            is_root,
            pair,
            li + ri,
            rest,
            stack,
            lo + (ro + more),
            target,
            st,
        );
        let (st1, res) = O::saved(st, node, pair);
        if res is Ok {
            let stack1 = if wr {
                stack.push(pair.1)
            } else {
                stack
            };
            lemma_apply_concat::<O>(li, ri, target, st1);
            if wl {
                if full(w.sel, s, p) {
                    lemma_inside_full::<<O as Outboard>::Hasher>(lb, g, s, w.sel);
                }
                lemma_decode_selected::<O>(
                    w,
                    s,
                    p,
                    false,
                    lb,
                    b + rest,
                    stack1,
                    ro + more,
                    target,
                    st1,
                );
            } else {
                assert(a + (b + rest) =~= b + rest);
                assert(lo + (ro + more) =~= ro + more);
            }
            let (t2, st2, res2) = apply_items::<O>(li, target, st1);
            if res2 is Ok {
                if wr {
                    if full(w.sel, s + p, m - p) {
                        lemma_inside_full::<<O as Outboard>::Hasher>(rb, g, s + p, w.sel);
                    }
                    lemma_decode_selected::<O>(
                        w,
                        s + p,
                        m - p,
                        false,
                        rb,
                        rest,
                        stack,
                        more,
                        t2,
                        st2,
                    );
                } else {
                    assert(b + rest =~= rest);
                    assert(ro + more =~= more);
                }
            }
        }
    }
}

/// Decoding the response for a subtree.
proof fn lemma_decode_subtree<O: Outboard + OutboardMut>(
    w: Walk,
    s: int,
    m: int,
    is_root: bool,
    bytes: Seq<u8>,
    rest: Seq<BaoChunk>,
    stack: Seq<Digest>,
    more: Seq<u8>,
    target: Seq<u8>,
    st: <O as View>::V,
)
    requires
        0 <= w.size <= u64::MAX,
        w.leaf == 1,
        in_tree(w.size, s, m),
        bytes.len() == byte_end(w.size, s, m) - byte_start(s),
        wanted(w.sel, s, m),
        parts_fit::<<O as Outboard>::Hasher>(bytes, w.whole, s, w.sel, is_root),
    ensures
        decode_run::<O>(
            w.steps(s, m, is_root) + rest,
            stack.push(tree_hash::<<O as Outboard>::Hasher>(bytes, w.whole, s, is_root)),
            response_bytes::<<O as Outboard>::Hasher>(bytes, w.whole, s, w.sel) + more,
            target,
            st,
        ) == decode_after::<O>(
            response_items::<<O as Outboard>::Hasher>(bytes, w.whole, s, w.sel),
            rest,
            stack,
            more,
            target,
            st,
        ),
    decreases m,
{
    let g = w.whole;
    lemma_leaf_count(w.size, s, m);
    assert(chunk_count(bytes) == m);
    if m <= 1 {
        lemma_one_wanted(w.sel, s, m);
    }
    if m <= g || m <= 1 {
        if full(w.sel, s, m) {
            lemma_decode_leaf::<O>(w, s, m, is_root, bytes, rest, stack, more, target, st);
        } else {
            lemma_decode_selected::<O>(w, s, m, is_root, bytes, rest, stack, more, target, st);
        }
    } else {
        let p = split_point(m);
        lemma_split_point(m);
        lemma_halves(bytes);
        lemma_wanted_split(w.sel, s, m, p);
        let wl = wanted(w.sel, s, p);
        let wr = wanted(w.sel, s + p, m - p);
        let lb = left_half(bytes);
        let rb = right_half(bytes);
        let a = w.steps(s, p, false);
        let b = w.steps(s + p, m - p, false);
        let pair = root_pair::<<O as Outboard>::Hasher>(bytes, g, s);
        let lo = response_bytes::<<O as Outboard>::Hasher>(lb, g, s, w.sel);
        let ro = response_bytes::<<O as Outboard>::Hasher>(rb, g, s + p, w.sel);
        let li = response_items::<<O as Outboard>::Hasher>(lb, g, s, w.sel);
        let ri = response_items::<<O as Outboard>::Hasher>(rb, g, s + p, w.sel);
        let node = TreeNode(node_number(s, m) as u64);
        let own = pair_bytes(pair.0, pair.1);
        assert(own + lo + ro + more =~= own + (lo + (ro + more)));
        assert(seq![Content::Parent { node, pair }] + li + ri =~= seq![
            Content::Parent { node, pair },
        ] + (li + ri));
        lemma_decode_parent::<O>(
            w,
            s,
            m,
            is_root,
            pair,
            li + ri,
            rest,
            stack,
            lo + (ro + more),
            target,
            st,
        );
        let (st1, res) = O::saved(st, node, pair);
        if res is Ok {
            let stack1 = if wr {
                stack.push(pair.1)
            } else {
                stack
            };
            lemma_apply_concat::<O>(li, ri, target, st1);
            if wl {
                lemma_decode_subtree::<O>(
                    w,
                    s,
                    p,
                    false,
                    lb,
                    b + rest,
                    stack1,
                    ro + more,
                    target,
                    st1,
                );
            } else {
                assert(a + (b + rest) =~= b + rest);
                assert(lo + (ro + more) =~= ro + more);
            }
            let (t2, st2, res2) = apply_items::<O>(li, target, st1);
            if res2 is Ok {
                if wr {
                    lemma_decode_subtree::<O>(
                        w,
                        s + p,
                        m - p,
                        false,
                        rb,
                        rest,
                        stack,
                        more,
                        t2,
                        st2,
                    );
                } else {
                    assert(b + rest =~= rest);
                    assert(ro + more =~= more);
                }
            }
        }
    }
}

/// Decoding the response for a blob with the blob's root hash accepts every item of it. What
/// follows the response is not read.
pub proof fn law_decode_response<O: Outboard + OutboardMut>(
    tree: BaoTree,
    ranges: Set<int>,
    blob: Seq<u8>,
    more: Seq<u8>,
    target: Seq<u8>,
    st: <O as View>::V,
)
    requires
        tree.wf(),
        blob.len() == tree.size,
        parts_fit::<<O as Outboard>::Hasher>(
            blob,
            tree.group(),
            0,
            selection(ranges, tree.total()),
            true,
        ),
    ensures
        ({
            let g = tree.group();
            let sel = selection(ranges, tree.total());
            decode_run::<O>(
                Walk::response(tree, ranges).all_steps(),
                seq![tree_hash::<<O as Outboard>::Hasher>(blob, g, 0, true)],
                response_bytes::<<O as Outboard>::Hasher>(blob, g, 0, sel) + more,
                target,
                st,
            ) == apply_items::<O>(
                response_items::<<O as Outboard>::Hasher>(blob, g, 0, sel),
                target,
                st,
            )
        }),
{
    let w = Walk::response(tree, ranges);
    let m = tree.total();
    let root = tree_hash::<<O as Outboard>::Hasher>(blob, tree.group(), 0, true);
    let none = Seq::<BaoChunk>::empty();
    assert(Seq::empty().push(root) =~= seq![root]);
    if wanted(w.sel, 0, m) {
        lemma_decode_subtree::<O>(
            w,
            0,
            m,
            true,
            blob,
            none,
            Seq::empty(),
            more,
            target,
            st,
        );
        assert(w.steps(0, m, true) + none =~= w.steps(0, m, true));
        let items = response_items::<<O as Outboard>::Hasher>(blob, tree.group(), 0, w.sel);
        let (t1, st1, res) = apply_items::<O>(items, target, st);
        assert(res matches Ok(unit) ==> unit == ());
        assert(res is Ok ==> decode_run::<O>(none, Seq::empty(), more, t1, st1) == (t1, st1, res));
    }
}

} // verus!
