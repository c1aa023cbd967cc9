//! Computing outboards from data.
use crate::content::Parent;
use crate::error::IoError;
use crate::geometry::{byte_end, byte_start, in_tree, lemma_split_point, node_number, split_point};
use crate::hash::{
    chunk_count, lemma_halves, left_half, pair_bytes, right_half, root_pair, tree_hash, Digest,
    Hasher,
};
use crate::iter::{leaf_chunk, lemma_leaf_count, leaf_step, parent_chunk, BaoChunk, Subtree};
use crate::outboard::{
    empty_outboard, fits_memory, OutboardMut, OutboardState, PostOrderOutboard, PreOrderOutboard,
};
use crate::stack::HashStack;
use crate::tree::{split_at, BaoTree, BlockSize, ChunkNum, TreeNode};
use core::marker::PhantomData;
use vstd::prelude::*;
use vstd::slice::slice_subrange;

verus! {

/// The steps over a subtree in post order: its groups of `g` chunks from left to right, and each
/// parent after its children.
pub open spec fn post_steps(size: int, g: int, s: int, m: int, is_root: bool) -> Seq<BaoChunk>
    decreases m,
{
    if m <= g || m <= 1 {
        seq![leaf_chunk(size, s, m, is_root, true)]
    } else {
        let p = split_point(m);
        proof {
            lemma_split_point(m);
        }
        post_steps(size, g, s, p, false) + post_steps(size, g, s + p, m - p, false) + seq![
            parent_chunk(s, m, is_root, true, true),
        ]
    }
}

/// The steps over a whole tree in post order.
pub open spec fn tree_post_steps(tree: BaoTree) -> Seq<BaoChunk> {
    post_steps(tree.size as int, tree.group(), 0, tree.total(), true)
}

/// A subtree that a walk in post order has not finished.
#[derive(Clone, Copy, Debug)]
struct Entry {
    tree: Subtree,
    /// Both children are on the stack above or done.
    open: bool,
}

/// The steps that are left for the entries on a stack, the one on top first.
spec fn entry_steps(size: int, g: int, stack: Seq<Entry>) -> Seq<BaoChunk>
    decreases stack.len(),
{
    if stack.len() == 0 {
        Seq::empty()
    } else {
        let t = stack.last().tree;
        let rest = entry_steps(size, g, stack.drop_last());
        if stack.last().open {
            seq![parent_chunk(t.start as int, t.count as int, t.is_root, true, true)] + rest
        } else {
            post_steps(size, g, t.start as int, t.count as int, t.is_root) + rest
        }
    }
}

/// With `n` hashes at hand, the entries on a stack end in a single hash.
spec fn balanced(n: int, stack: Seq<Entry>) -> bool
    decreases stack.len(),
{
    if stack.len() == 0 {
        n == 1
    } else if stack.last().open {
        n >= 2 && balanced(n - 1, stack.drop_last())
    } else {
        balanced(n + 1, stack.drop_last())
    }
}

/// What has to be done next to compute an outboard.
#[derive(Clone, Copy, Debug)]
pub enum CreateStep {
    /// Read the next `size` bytes of the data and hand them to `leaf`.
    Read {
        /// The first chunk of the bytes.
        start_chunk: ChunkNum,
        /// Number of bytes.
        size: u64,
        /// True if the bytes are the whole blob.
        is_root: bool,
    },
    /// Save the hash pair of a node.
    Save {
        /// The node.
        node: TreeNode,
        /// The hashes of its two children.
        pair: (Digest, Digest),
    },
    /// Nothing: this is the root hash.
    Done(Digest),
}

/// The computation of an outboard, between reads of the data and writes of the hash pairs.
pub struct OutboardCreator<H> {
    tree: BaoTree,
    group: u64,
    entries: Vec<Entry>,
    hashes: HashStack,
    hasher: PhantomData<H>,
}

impl<H: Hasher> OutboardCreator<H> {
    /// The steps that are left.
    pub closed spec fn todo(&self) -> Seq<BaoChunk> {
        entry_steps(self.tree.size as int, self.group as int, self.entries@)
    }

    /// The hashes of the finished subtrees that have no finished parent, from left to right.
    pub closed spec fn hashes(&self) -> Seq<Digest> {
        self.hashes@
    }

    /// The subtrees lie in the tree, and end in a single hash.
    pub closed spec fn wf(&self) -> bool {
        &&& self.group >= 1
        &&& balanced(self.hashes@.len() as int, self.entries@)
        &&& forall|i: int|
            0 <= i < self.entries@.len() ==> in_tree(
                self.tree.size as int,
                (#[trigger] self.entries@[i]).tree.start as int,
                self.entries@[i].tree.count as int,
            ) && (self.entries@[i].open ==> self.entries@[i].tree.count >= 2)
    }

    /// Starts the computation for a tree.
    pub fn new(tree: BaoTree) -> (res: OutboardCreator<H>)
        requires
            tree.wf(),
        ensures
            res.wf(),
            res.todo() == tree_post_steps(tree),
            res.hashes() == Seq::<Digest>::empty(),
    {
        let root = Subtree { start: 0, count: tree.total_chunks(), is_root: true };
        let mut entries: Vec<Entry> = Vec::new();
        entries.push(Entry { tree: root, open: false });
        let res = OutboardCreator {
            tree,
            group: tree.block_size.chunks(),
            entries,
            hashes: HashStack::new(),
            hasher: PhantomData,
        };
        proof {
            let stack = res.entries@;
            assert(stack.drop_last() =~= Seq::empty());
            assert(entry_steps(tree.size as int, tree.group(), Seq::empty()) =~= Seq::empty());
            assert(balanced(1, Seq::empty()));
            assert(res.todo() =~= tree_post_steps(tree));
        }
        res
    }

    /// What has to be done next. For a parent, its pair is handed out and counts as saved; for a
    /// read, the same step comes again until `leaf` gets the bytes.
    pub fn next(&mut self) -> (res: CreateStep)
        requires
            old(self).wf(),
        ensures
            final(self).wf(),
            create_step::<H>(
                old(self).todo(),
                old(self).hashes(),
                res,
                final(self).todo(),
                final(self).hashes(),
            ),
    {
        self.expand();
        if self.entries.len() == 0 {
            let ghost hs = self.hashes@;
            let hash = self.hashes.pop();
            match hash {
                Some(h) => {
                    self.hashes.push(h);
                    assert(self.hashes@ =~= hs);
                    return CreateStep::Done(h);
                },
                None => {
                    assert(false);
                    return CreateStep::Done(Digest::zero());
                },
            }
        }
        let top = self.entries[self.entries.len() - 1];
        if top.open {
            return self.pop_open(top.tree);
        }
        match leaf_step(self.tree, top.tree, true) {
            BaoChunk::Leaf { start_chunk, size, is_root, .. } => {
                CreateStep::Read { start_chunk, size, is_root }
            },
            BaoChunk::Parent { .. } => {
                assert(false);
                CreateStep::Done(Digest::zero())
            },
        }
    }

    /// Opens subtrees until a group or a parent is on top.
    fn expand(&mut self)
        requires
            old(self).wf(),
        ensures
            final(self).wf(),
            final(self).todo() == old(self).todo(),
            final(self).hashes() == old(self).hashes(),
            final(self).tree == old(self).tree,
            final(self).group == old(self).group,
            final(self).entries@.len() > 0 && !final(self).entries@.last().open ==> {
                let t = final(self).entries@.last().tree;
                t.count <= 1 || t.count <= final(self).group
            },
    {
        let ghost size = self.tree.size as int;
        let ghost g = self.group as int;
        while self.entries.len() > 0 && !self.entries[self.entries.len() - 1].open
            && self.entries[self.entries.len() - 1].tree.count > 1
            && self.entries[self.entries.len() - 1].tree.count > self.group
            invariant
                self.wf(),
                self.tree == old(self).tree,
                self.group == old(self).group,
                self.tree.size == size,
                self.group == g,
                self.hashes() == old(self).hashes(),
                self.todo() == old(self).todo(),
            decreases
                    (if self.entries@.len() > 0 && !self.entries@.last().open {
                        self.entries@.last().tree.count as int
                    } else {
                        0
                    }),
        {
            let ghost stack = self.entries@;
            let t = self.entries[self.entries.len() - 1].tree;
            assert(stack[stack.len() - 1] == stack.last());
            let total = self.tree.total_chunks();
            let p = split_at(t.count);
            let lt = Subtree { start: t.start, count: p, is_root: false };
            let rt = Subtree { start: t.start + p, count: t.count - p, is_root: false };
            let popped = self.entries.pop();
            let ghost rest = self.entries@;
            self.entries.push(Entry { tree: t, open: true });
            self.entries.push(Entry { tree: rt, open: false });
            self.entries.push(Entry { tree: lt, open: false });
            proof {
                assert(stack =~= rest.push(Entry { tree: t, open: false }));
                lemma_open(size, g, self.hashes@.len() as int, rest, t);
                assert(forall|i: int| 0 <= i < rest.len() ==> rest[i] == stack[i]);
            }
        }
    }

    /// Finishes the parent on top.
    fn pop_open(&mut self, t: Subtree) -> (res: CreateStep)
        requires
            old(self).wf(),
            old(self).entries@.len() > 0,
            old(self).entries@.last() == (Entry { tree: t, open: true }),
        ensures
            final(self).wf(),
            create_step::<H>(
                old(self).todo(),
                old(self).hashes(),
                res,
                final(self).todo(),
                final(self).hashes(),
            ),
    {
        let ghost stack = self.entries@;
        let ghost hs = self.hashes@;
        let ghost steps = self.todo();
        let popped = self.entries.pop();
        let right = self.hashes.pop();
        let left = self.hashes.pop();
        proof {
            assert(self.entries@ =~= stack.drop_last());
            assert(hs.drop_last().drop_last() =~= hs.take(hs.len() - 2));
            assert(balanced(hs.len() - 1, stack.drop_last()));
        }
        match (left, right) {
            (Some(l), Some(r)) => {
                let parent = H::hash_inner(&l, &r, t.is_root);
                self.hashes.push(parent);
                let total = self.tree.total_chunks();
                assert(stack[stack.len() - 1] == stack.last());
                let p = split_at(t.count);
                let node = TreeNode(t.start + (p - 1));
                proof {
                    assert(steps.skip(1) =~= self.todo());
                    assert(forall|i: int|
                        0 <= i < self.entries@.len() ==> self.entries@[i] == stack[i]);
                }
                CreateStep::Save { node, pair: (l, r) }
            },
            _ => {
                assert(false);
                CreateStep::Done(Digest::zero())
            },
        }
    }

    /// Takes the bytes that the step `Read` asked for.
    pub fn leaf(&mut self, data: &[u8])
        requires
            old(self).wf(),
            old(self).todo().len() > 0,
            old(self).todo()[0] is Leaf,
        ensures
            final(self).wf(),
            final(self).todo() == old(self).todo().skip(1),
            old(self).todo()[0] matches BaoChunk::Leaf { start_chunk, is_root, .. }
                && final(self).hashes() == old(self).hashes().push(
                H::chunk_hash(start_chunk.0, data@, is_root),
            ),
    {
        self.expand();
        let top = self.entries[self.entries.len() - 1];
        let ghost stack = self.entries@;
        let ghost steps = self.todo();
        let popped = self.entries.pop();
        let hash = H::hash_chunk(top.tree.start, data, top.tree.is_root);
        self.hashes.push(hash);
        proof {
            assert(stack[stack.len() - 1] == stack.last());
            assert(self.entries@ =~= stack.drop_last());
            assert(steps.skip(1) =~= self.todo());
            assert(forall|i: int| 0 <= i < self.entries@.len() ==> self.entries@[i] == stack[i]);
        }
    }
}

/// Opening a subtree leaves the steps and the balance as they are.
proof fn lemma_open(size: int, g: int, n: int, rest: Seq<Entry>, t: Subtree)
    requires
        n >= 0,
        t.count > 1,
        t.count > g,
        t.start + t.count <= u64::MAX,
        balanced(n, rest.push(Entry { tree: t, open: false })),
    ensures
        ({
            let p = split_point(t.count as int);
            let lt = Subtree { start: t.start, count: p as u64, is_root: false };
            let rt = Subtree {
                start: (t.start + p) as u64,
                count: (t.count - p) as u64,
                is_root: false,
            };
            let opened = rest.push(Entry { tree: t, open: true }).push(
                Entry { tree: rt, open: false },
            ).push(Entry { tree: lt, open: false });
            &&& entry_steps(size, g, opened) == entry_steps(
                size,
                g,
                rest.push(Entry { tree: t, open: false }),
            )
            &&& balanced(n, opened)
        }),
{
    let p = split_point(t.count as int);
    lemma_split_point(t.count as int);
    let lt = Subtree { start: t.start, count: p as u64, is_root: false };
    let rt = Subtree { start: (t.start + p) as u64, count: (t.count - p) as u64, is_root: false };
    let s0 = rest.push(Entry { tree: t, open: false });
    let s1 = rest.push(Entry { tree: t, open: true });
    let s2 = s1.push(Entry { tree: rt, open: false });
    let s3 = s2.push(Entry { tree: lt, open: false });
    assert(s0.drop_last() =~= rest);
    assert(s1.drop_last() =~= rest);
    assert(s2.drop_last() =~= s1);
    assert(s3.drop_last() =~= s2);
    assert(balanced(n + 1, rest));
    assert(balanced(n + 2, s1));
    assert(balanced(n + 1, s2));
    let r = entry_steps(size, g, rest);
    let a = post_steps(size, g, t.start as int, p, false);
    let b = post_steps(size, g, t.start + p, t.count - p, false);
    let c = seq![parent_chunk(t.start as int, t.count as int, t.is_root, true, true)];
    assert(entry_steps(size, g, s1) == c + r);
    assert(entry_steps(size, g, s2) == b + (c + r));
    assert(entry_steps(size, g, s3) == a + (b + (c + r)));
    assert(entry_steps(size, g, s0) == (a + b + c) + r);
    assert(a + (b + (c + r)) =~= (a + b + c) + r);
}

/// What `OutboardCreator::next` does: with the steps `todo` left and the finished hashes `hashes`,
/// it returns `res`, and `todo2` and `hashes2` are left.
pub open spec fn create_step<H: Hasher>(
    todo: Seq<BaoChunk>,
    hashes: Seq<Digest>,
    res: CreateStep,
    todo2: Seq<BaoChunk>,
    hashes2: Seq<Digest>,
) -> bool {
    if todo.len() == 0 {
        &&& hashes.len() == 1
        &&& res == CreateStep::Done(hashes[0])
        &&& todo2 == todo
        &&& hashes2 == hashes
    } else {
        match todo[0] {
            BaoChunk::Leaf { start_chunk, size, is_root, .. } => {
                &&& res == CreateStep::Read { start_chunk, size, is_root }
                &&& todo2 == todo
                &&& hashes2 == hashes
            },
            BaoChunk::Parent { node, is_root, .. } => {
                let l = hashes[hashes.len() - 2];
                let r = hashes[hashes.len() - 1];
                &&& hashes.len() >= 2
                &&& res == CreateStep::Save { node, pair: (l, r) }
                &&& todo2 == todo.skip(1)
                &&& hashes2 == hashes.take(hashes.len() - 2).push(H::inner_hash(l, r, is_root))
            },
        }
    }
}

/// What saving a hash pair does to a store, and what it returns.
pub type SaveFn<S> = spec_fn(S, TreeNode, (Digest, Digest)) -> (S, Result<(), IoError>);

/// Saving to an outboard.
pub open spec fn outboard_saver<O: OutboardMut>() -> SaveFn<O::V> {
    |st: O::V, node: TreeNode, pair: (Digest, Digest)| O::saved(st, node, pair)
}

/// Appending to a stream.
pub open spec fn stream_saver() -> SaveFn<Seq<u8>> {
    |st: Seq<u8>, node: TreeNode, pair: (Digest, Digest)|
        (st + pair_bytes(pair.0, pair.1), Ok::<(), IoError>(()))
}

/// Computing an outboard, with the steps `todo` left, the finished hashes `hashes`, the rest of
/// the data, and what is saved so far: what is saved in the end, and the root hash or the first
/// failure.
pub open spec fn create_run<H: Hasher, S>(
    save: SaveFn<S>,
    todo: Seq<BaoChunk>,
    hashes: Seq<Digest>,
    data: Seq<u8>,
    st: S,
) -> (S, Result<Digest, IoError>)
    decreases todo.len(),
{
    if todo.len() == 0 {
        (st, Ok(hashes.last()))
    } else {
        match todo[0] {
            BaoChunk::Leaf { start_chunk, size, is_root, .. } => {
                if size <= data.len() {
                    let hash = H::chunk_hash(start_chunk.0, data.take(size as int), is_root);
                    create_run::<H, S>(
                        save,
                        todo.skip(1),
                        hashes.push(hash),
                        data.skip(size as int),
                        st,
                    )
                } else {
                    (st, Err(IoError::UnexpectedEof))
                }
            },
            BaoChunk::Parent { node, is_root, .. } => {
                let l = hashes[hashes.len() - 2];
                let r = hashes[hashes.len() - 1];
                let (st1, res) = save(st, node, (l, r));
                match res {
                    Err(e) => (st1, Err(e)),
                    Ok(_) => create_run::<H, S>(
                        save,
                        todo.skip(1),
                        hashes.take(hashes.len() - 2).push(H::inner_hash(l, r, is_root)),
                        data,
                        st1,
                    ),
                }
            },
        }
    }
}

/// The hash pairs of the tree over `bytes` with groups of `g` chunks, in post order. The first
/// chunk has the number `s`.
pub open spec fn tree_pairs<H: Hasher>(bytes: Seq<u8>, g: int, s: int) -> Seq<Parent>
    decreases bytes.len(),
{
    let m = chunk_count(bytes);
    if m <= g || m <= 1 {
        Seq::empty()
    } else {
        proof {
            lemma_halves(bytes);
        }
        tree_pairs::<H>(left_half(bytes), g, s) + tree_pairs::<H>(
            right_half(bytes),
            g,
            s + split_point(m),
        ) + seq![
            Parent {
                node: TreeNode(node_number(s, m) as u64),
                pair: root_pair::<H>(bytes, g, s),
            },
        ]
    }
}

/// Saves hash pairs one after the other, up to the first failure.
pub open spec fn save_all<S>(save: SaveFn<S>, st: S, pairs: Seq<Parent>) -> (S, Result<(), IoError>)
    decreases pairs.len(),
{
    if pairs.len() == 0 {
        (st, Ok(()))
    } else {
        let (st1, res) = save(st, pairs[0].node, pairs[0].pair);
        match res {
            Err(e) => (st1, Err(e)),
            Ok(_) => save_all(save, st1, pairs.skip(1)),
        }
    }
}

/// Saving a list is saving its two parts in turn.
pub proof fn lemma_save_all_concat<S>(save: SaveFn<S>, st: S, a: Seq<Parent>, b: Seq<Parent>)
    ensures
        save_all(save, st, a + b) == ({
            let (st1, res) = save_all(save, st, a);
            match res {
                Err(e) => (st1, Err::<(), IoError>(e)),
                Ok(_) => save_all(save, st1, b),
            }
        }),
    decreases a.len(),
{
    if a.len() == 0 {
        assert(a + b =~= b);
    } else {
        assert((a + b).skip(1) =~= a.skip(1) + b);
        assert((a + b)[0] == a[0]);
        let (st1, res) = save(st, a[0].node, a[0].pair);
        if res is Ok {
            lemma_save_all_concat(save, st1, a.skip(1), b);
        }
    }
}

/// Computing the outboard of a subtree from its bytes saves the hash pairs of the subtree in post
/// order, and leaves its hash.
pub proof fn lemma_create_subtree<H: Hasher, S>(
    save: SaveFn<S>,
    size: int,
    g: int,
    s: int,
    m: int,
    is_root: bool,
    bytes: Seq<u8>,
    rest: Seq<BaoChunk>,
    hashes: Seq<Digest>,
    more: Seq<u8>,
    st: S,
)
    requires
        0 <= size <= u64::MAX,
        in_tree(size, s, m),
        bytes.len() == byte_end(size, s, m) - byte_start(s),
    ensures
        create_run::<H, S>(
            save,
            post_steps(size, g, s, m, is_root) + rest,
            hashes,
            bytes + more,
            st,
        ) == ({
            let (st1, res) = save_all(save, st, tree_pairs::<H>(bytes, g, s));
            match res {
                Err(e) => (st1, Err::<Digest, IoError>(e)),
                Ok(_) => create_run::<H, S>(
                    save,
                    rest,
                    hashes.push(tree_hash::<H>(bytes, g, s, is_root)),
                    more,
                    st1,
                ),
            }
        }),
    decreases m,
{
    lemma_leaf_count(size, s, m);
    assert(chunk_count(bytes) == m);
    let todo = post_steps(size, g, s, m, is_root) + rest;
    if m <= g || m <= 1 {
        assert(todo[0] == leaf_chunk(size, s, m, is_root, true));
        assert(todo.skip(1) =~= rest);
        assert((bytes + more).take(bytes.len() as int) =~= bytes);
        assert((bytes + more).skip(bytes.len() as int) =~= more);
    } else {
        let p = split_point(m);
        lemma_split_point(m);
        lemma_halves(bytes);
        let lb = left_half(bytes);
        let rb = right_half(bytes);
        let a = post_steps(size, g, s, p, false);
        let b = post_steps(size, g, s + p, m - p, false);
        let step = parent_chunk(s, m, is_root, true, true);
        let c = seq![step] + rest;
        assert(todo =~= a + (b + c));
        assert(bytes + more =~= lb + (rb + more));
        let lh = tree_hash::<H>(lb, g, s, false);
        let rh = tree_hash::<H>(rb, g, s + p, false);
        let lp = tree_pairs::<H>(lb, g, s);
        let rp = tree_pairs::<H>(rb, g, s + p);
        let own = Parent { node: TreeNode(node_number(s, m) as u64), pair: (lh, rh) };
        lemma_create_subtree::<H, S>(save, size, g, s, p, false, lb, b + c, hashes, rb + more, st);
        lemma_save_all_concat(save, st, lp, rp + seq![own]);
        assert(tree_pairs::<H>(bytes, g, s) =~= lp + (rp + seq![own]));
        let (st1, res1) = save_all(save, st, lp);
        if res1 is Ok {
            lemma_create_subtree::<H, S>(
                save,
                size,
                g,
                s + p,
                m - p,
                false,
                rb,
                c,
                hashes.push(lh),
                more,
                st1,
            );
            lemma_save_all_concat(save, st1, rp, seq![own]);
            let (st2, res2) = save_all(save, st1, rp);
            if res2 is Ok {
                let hs = hashes.push(lh).push(rh);
                assert(c[0] == step);
                assert(c.skip(1) =~= rest);
                assert(hs.take(hs.len() - 2) =~= hashes);
                assert(seq![own].skip(1) =~= Seq::empty());
                let (st3, res3) = save(st2, own.node, own.pair);
                assert(save_all(save, st3, Seq::empty()) == (st3, Ok::<(), IoError>(())));
            }
        }
    }
}

/// Computing the outboard of a tree from at least as many bytes as the tree has.
pub proof fn lemma_create_tree<H: Hasher, S>(save: SaveFn<S>, tree: BaoTree, data: Seq<u8>, st: S)
    requires
        tree.wf(),
        tree.size <= data.len(),
    ensures
        create_run::<H, S>(save, tree_post_steps(tree), Seq::empty(), data, st) == created::<H, S>(
            save,
            tree,
            data.take(tree.size as int),
            st,
        ),
{
    let size = tree.size as int;
    let bytes = data.take(size);
    let none = Seq::<BaoChunk>::empty();
    assert(bytes + data.skip(size) =~= data);
    assert(tree_post_steps(tree) + none =~= tree_post_steps(tree));
    lemma_create_subtree::<H, S>(
        save,
        size,
        tree.group(),
        0,
        tree.total(),
        true,
        bytes,
        none,
        Seq::empty(),
        data.skip(size),
        st,
    );
}

/// The outcome of computing the outboard of a blob: its hash pairs are saved in post order, and
/// unless that fails the result is its root hash.
pub open spec fn created<H: Hasher, S>(save: SaveFn<S>, tree: BaoTree, blob: Seq<u8>, st: S) -> (
    S,
    Result<Digest, IoError>,
) {
    let (st1, res) = save_all(save, st, tree_pairs::<H>(blob, tree.group(), 0));
    match res {
        Err(e) => (st1, Err(e)),
        Ok(_) => (st1, Ok(tree_hash::<H>(blob, tree.group(), 0, true))),
    }
}

/// Computes the outboard for the given data.
///
/// Unlike `outboard_post_order`, this works with any outboard, but it is not guaranteed that the
/// writes are sequential. Data after the size of the tree is not read.
pub fn outboard<O: OutboardMut>(data: &[u8], tree: BaoTree, store: &mut O) -> (res: Result<
    Digest,
    IoError,
>)
    requires
        tree.wf(),
        O::can_save(old(store)@),
    ensures
        (final(store)@, res) == create_run::<O::Hasher, O::V>(
            outboard_saver::<O>(),
            tree_post_steps(tree),
            Seq::empty(),
            data@,
            old(store)@,
        ),
        tree.size <= data@.len() ==> (final(store)@, res) == created::<O::Hasher, O::V>(
            outboard_saver::<O>(),
            tree,
            data@.take(tree.size as int),
            old(store)@,
        ),
        tree.size > data@.len() ==> res is Err,
        O::can_save(final(store)@),
{
    proof {
        if tree.size <= data@.len() {
            lemma_create_tree::<O::Hasher, O::V>(
                outboard_saver::<O>(),
                tree,
                data@,
                store@,
            );
        } else {
            lemma_short::<O::Hasher, O::V>(outboard_saver::<O>(), tree, data@, store@);
        }
    }
    let ghost save = outboard_saver::<O>();
    let ghost whole = create_run::<O::Hasher, O::V>(
        save,
        tree_post_steps(tree),
        Seq::empty(),
        data@,
        store@,
    );
    let mut creator = OutboardCreator::<O::Hasher>::new(tree);
    let mut pos: usize = 0;
    assert(data@.skip(0) =~= data@);
    loop
        invariant
            creator.wf(),
            O::can_save(store@),
            pos <= data@.len(),
            save == outboard_saver::<O>(),
            create_run::<O::Hasher, O::V>(
                save,
                creator.todo(),
                creator.hashes(),
                data@.skip(pos as int),
                store@,
            ) == whole,
            whole == create_run::<O::Hasher, O::V>(
                save,
                tree_post_steps(tree),
                Seq::empty(),
                data@,
                old(store)@,
            ),
            tree.size <= data@.len() ==> whole == created::<O::Hasher, O::V>(
                save,
                tree,
                data@.take(tree.size as int),
                old(store)@,
            ),
            tree.size > data@.len() ==> whole.1 is Err,
        decreases creator.todo().len(),
    {
        match creator.next() {
            CreateStep::Read { size, .. } => {
                let left: u64 = (data.len() - pos) as u64;
                if size > left {
                    return Err(IoError::UnexpectedEof);
                }
                let end: usize = pos + size as usize;
                let buf = slice_subrange(data, pos, end);
                proof {
                    let rest = data@.skip(pos as int);
                    assert(rest.take(size as int) =~= buf@);
                    assert(rest.skip(size as int) =~= data@.skip(end as int));
                }
                creator.leaf(buf);
                pos = end;
            },
            CreateStep::Save { node, pair } => {
                match store.save(node, &pair) {
                    Ok(_) => {},
                    Err(e) => {
                        return Err(e);
                    },
                }
            },
            CreateStep::Done(hash) => {
                return Ok(hash);
            },
        }
    }
}

/// Computes the post order outboard for the given data, appending it to a stream. The writes are
/// sequential.
///
/// This does not add the size to the output.
pub fn outboard_post_order<H: Hasher>(data: &[u8], tree: BaoTree, outboard: &mut Vec<u8>) -> (res:
    Result<Digest, IoError>)
    requires
        tree.wf(),
    ensures
        (final(outboard)@, res) == create_run::<H, Seq<u8>>(
            stream_saver(),
            tree_post_steps(tree),
            Seq::empty(),
            data@,
            old(outboard)@,
        ),
        tree.size <= data@.len() ==> {
            let blob = data@.take(tree.size as int);
            &&& res == Ok::<Digest, IoError>(tree_hash::<H>(blob, tree.group(), 0, true))
            &&& final(outboard)@ == old(outboard)@ + pairs_bytes(
                tree_pairs::<H>(blob, tree.group(), 0),
            )
        },
        tree.size > data@.len() ==> res == Err::<Digest, IoError>(IoError::UnexpectedEof),
{
    let ghost save = stream_saver();
    let ghost before = outboard@;
    let ghost whole = create_run::<H, Seq<u8>>(
        save,
        tree_post_steps(tree),
        Seq::empty(),
        data@,
        before,
    );
    let mut creator = OutboardCreator::<H>::new(tree);
    let mut pos: usize = 0;
    proof {
        assert(data@.skip(0) =~= data@);
        if tree.size <= data@.len() {
            let blob = data@.take(tree.size as int);
            lemma_create_tree::<H, Seq<u8>>(save, tree, data@, before);
            lemma_stream(before, tree_pairs::<H>(blob, tree.group(), 0));
        } else {
            lemma_short::<H, Seq<u8>>(save, tree, data@, before);
        }
    }
    loop
        invariant
            creator.wf(),
            pos <= data@.len(),
            save == stream_saver(),
            create_run::<H, Seq<u8>>(
                save,
                creator.todo(),
                creator.hashes(),
                data@.skip(pos as int),
                outboard@,
            ) == whole,
            whole == create_run::<H, Seq<u8>>(
                save,
                tree_post_steps(tree),
                Seq::empty(),
                data@,
                old(outboard)@,
            ),
            tree.size <= data@.len() ==> {
                let blob = data@.take(tree.size as int);
                &&& whole.1 == Ok::<Digest, IoError>(tree_hash::<H>(blob, tree.group(), 0, true))
                &&& whole.0 == old(outboard)@ + pairs_bytes(
                    tree_pairs::<H>(blob, tree.group(), 0),
                )
            },
            tree.size > data@.len() ==> whole.1 == Err::<Digest, IoError>(IoError::UnexpectedEof),
        decreases creator.todo().len(),
    {
        match creator.next() {
            CreateStep::Read { size, .. } => {
                let left: u64 = (data.len() - pos) as u64;
                if size > left {
                    return Err(IoError::UnexpectedEof);
                }
                let end: usize = pos + size as usize;
                let buf = slice_subrange(data, pos, end);
                proof {
                    let rest = data@.skip(pos as int);
                    assert(rest.take(size as int) =~= buf@);
                    assert(rest.skip(size as int) =~= data@.skip(end as int));
                }
                creator.leaf(buf);
                pos = end;
            },
            CreateStep::Save { pair, .. } => {
                let ghost st = outboard@;
                outboard.extend_from_slice(pair.0.0.as_slice());
                outboard.extend_from_slice(pair.1.0.as_slice());
                assert(outboard@ =~= st + pair_bytes(pair.0, pair.1));
            },
            CreateStep::Done(hash) => {
                return Ok(hash);
            },
        }
    }
}

/// Number of bytes that the steps read.
pub open spec fn steps_size(todo: Seq<BaoChunk>) -> int
    decreases todo.len(),
{
    if todo.len() == 0 {
        0
    } else {
        match todo[0] {
            BaoChunk::Leaf { size, .. } => size + steps_size(todo.skip(1)),
            BaoChunk::Parent { .. } => steps_size(todo.skip(1)),
        }
    }
}

proof fn lemma_steps_size_concat(a: Seq<BaoChunk>, b: Seq<BaoChunk>)
    ensures
        steps_size(a + b) == steps_size(a) + steps_size(b),
    decreases a.len(),
{
    if a.len() == 0 {
        assert(a + b =~= b);
    } else {
        assert((a + b).skip(1) =~= a.skip(1) + b);
        assert((a + b)[0] == a[0]);
        lemma_steps_size_concat(a.skip(1), b);
    }
}

proof fn lemma_post_steps_size(size: int, g: int, s: int, m: int, is_root: bool)
    requires
        0 <= size <= u64::MAX,
        in_tree(size, s, m),
    ensures
        steps_size(post_steps(size, g, s, m, is_root)) == byte_end(size, s, m) - byte_start(s),
    decreases m,
{
    lemma_leaf_count(size, s, m);
    let none = Seq::<BaoChunk>::empty();
    assert(steps_size(none) == 0);
    if m <= g || m <= 1 {
        let all = post_steps(size, g, s, m, is_root);
        assert(all[0] == leaf_chunk(size, s, m, is_root, true));
        assert(all.skip(1) =~= none);
    } else {
        let p = split_point(m);
        lemma_split_point(m);
        let a = post_steps(size, g, s, p, false);
        let b = post_steps(size, g, s + p, m - p, false);
        let c = seq![parent_chunk(s, m, is_root, true, true)];
        lemma_post_steps_size(size, g, s, p, false);
        lemma_post_steps_size(size, g, s + p, m - p, false);
        lemma_steps_size_concat(a + b, c);
        lemma_steps_size_concat(a, b);
        assert(c[0] is Parent);
        assert(c.skip(1) =~= none);
    }
}

/// Saving never fails.
pub open spec fn saves_always<S>(save: SaveFn<S>) -> bool {
    forall|st: S, node: TreeNode, pair: (Digest, Digest)| (#[trigger] save(st, node, pair)).1 is Ok
}

/// Steps that read more than there is fail, for want of data unless a save fails before.
proof fn lemma_short_steps<H: Hasher, S>(
    save: SaveFn<S>,
    todo: Seq<BaoChunk>,
    hashes: Seq<Digest>,
    data: Seq<u8>,
    st: S,
)
    requires
        steps_size(todo) > data.len(),
    ensures
        create_run::<H, S>(save, todo, hashes, data, st).1 is Err,
        saves_always(save) ==> create_run::<H, S>(save, todo, hashes, data, st).1 == Err::<
            Digest,
            IoError,
        >(IoError::UnexpectedEof),
    decreases todo.len(),
{
    match todo[0] {
        BaoChunk::Leaf { start_chunk, size, is_root, .. } => {
            if size <= data.len() {
                let hash = H::chunk_hash(start_chunk.0, data.take(size as int), is_root);
                lemma_short_steps::<H, S>(
                    save,
                    todo.skip(1),
                    hashes.push(hash),
                    data.skip(size as int),
                    st,
                );
            }
        },
        BaoChunk::Parent { node, is_root, .. } => {
            let l = hashes[hashes.len() - 2];
            let r = hashes[hashes.len() - 1];
            lemma_short_steps::<H, S>(
                save,
                todo.skip(1),
                hashes.take(hashes.len() - 2).push(H::inner_hash(l, r, is_root)),
                data,
                save(st, node, (l, r)).0,
            );
        },
    }
}

/// Computing the outboard of a tree from fewer bytes than the tree has fails.
pub proof fn lemma_short<H: Hasher, S>(save: SaveFn<S>, tree: BaoTree, data: Seq<u8>, st: S)
    requires
        tree.wf(),
        tree.size > data.len(),
    ensures
        create_run::<H, S>(save, tree_post_steps(tree), Seq::empty(), data, st).1 is Err,
        saves_always(save) ==> create_run::<H, S>(
            save,
            tree_post_steps(tree),
            Seq::empty(),
            data,
            st,
        ).1 == Err::<Digest, IoError>(IoError::UnexpectedEof),
{
    lemma_post_steps_size(tree.size as int, tree.group(), 0, tree.total(), true);
    lemma_short_steps::<H, S>(save, tree_post_steps(tree), Seq::empty(), data, st);
}

/// The bytes of hash pairs that follow each other.
pub open spec fn pairs_bytes(pairs: Seq<Parent>) -> Seq<u8>
    decreases pairs.len(),
{
    if pairs.len() == 0 {
        Seq::empty()
    } else {
        pair_bytes(pairs[0].pair.0, pairs[0].pair.1) + pairs_bytes(pairs.skip(1))
    }
}

/// Saving hash pairs to a stream appends their bytes.
pub proof fn lemma_stream(st: Seq<u8>, pairs: Seq<Parent>)
    ensures
        save_all(stream_saver(), st, pairs) == (st + pairs_bytes(pairs), Ok::<(), IoError>(())),
    decreases pairs.len(),
{
    if pairs.len() == 0 {
        assert(st + pairs_bytes(pairs) =~= st);
    } else {
        let own = pair_bytes(pairs[0].pair.0, pairs[0].pair.1);
        lemma_stream(st + own, pairs.skip(1));
        assert((st + own) + pairs_bytes(pairs.skip(1)) =~= st + pairs_bytes(pairs));
    }
}

/// The outboard that a computation for `size` bytes starts from.
pub open spec fn sized_outboard(size: u64, block_size: BlockSize) -> OutboardState {
    OutboardState {
        root: empty_outboard().root,
        tree: BaoTree { size, block_size },
        data: empty_outboard().data,
    }
}

/// Initialising an outboard in memory: the hash pairs are saved, and the root hash is set unless
/// the computation fails.
pub open spec fn initialized_outboard<H: Hasher>(
    save: SaveFn<OutboardState>,
    st: OutboardState,
    data: Seq<u8>,
) -> (OutboardState, Result<(), IoError>) {
    let (st1, res) = create_run::<H, OutboardState>(
        save,
        tree_post_steps(st.tree),
        Seq::empty(),
        data,
        st,
    );
    match res {
        Ok(root) => (OutboardState { root, tree: st1.tree, data: st1.data }, Ok(())),
        Err(e) => (st1, Err(e)),
    }
}

/// Outboards that can be initialised from data.
pub trait CreateOutboard: View + Sized {
    /// The outboard that a computation for `size` bytes starts from.
    spec fn sized(size: u64, block_size: BlockSize) -> Self::V;

    /// The outboard can be initialised in this state.
    spec fn can_init(st: Self::V) -> bool;

    /// What initialising from `data` does in this state, and what it returns.
    spec fn initialized(st: Self::V, data: Seq<u8>) -> (Self::V, Result<(), IoError>);

    /// Creates an outboard from data, measuring the size first.
    fn create(data: &[u8], block_size: BlockSize) -> (res: Result<Self, IoError>)
        requires
            Self::can_init(Self::sized(data.len() as u64, block_size)),
        ensures
            match res {
                Ok(o) => Self::initialized(Self::sized(data.len() as u64, block_size), data@) == (
                    o@,
                    Ok::<(), IoError>(()),
                ),
                Err(e) => Self::initialized(
                    Self::sized(data.len() as u64, block_size),
                    data@,
                ).1 == Err::<(), IoError>(e),
            },
    ;

    /// Creates an outboard for the first `size` bytes of data.
    fn create_sized(data: &[u8], size: u64, block_size: BlockSize) -> (res: Result<Self, IoError>)
        requires
            Self::can_init(Self::sized(size, block_size)),
        ensures
            match res {
                Ok(o) => Self::initialized(Self::sized(size, block_size), data@) == (
                    o@,
                    Ok::<(), IoError>(()),
                ),
                Err(e) => Self::initialized(Self::sized(size, block_size), data@).1 == Err::<
                    (),
                    IoError,
                >(e),
            },
    ;

    /// Initialises the outboard from data, with the tree that it has. It only takes in data up to
    /// the size of the tree.
    fn init_from(&mut self, data: &[u8]) -> (res: Result<(), IoError>)
        requires
            Self::can_init(old(self)@),
        ensures
            (final(self)@, res) == Self::initialized(old(self)@, data@),
    ;
}

/// Saving leaves a part of the state as it is.
spec fn saves_keep<S, P>(save: SaveFn<S>, part: spec_fn(S) -> P) -> bool {
    forall|st: S, node: TreeNode, pair: (Digest, Digest)|
        part((#[trigger] save(st, node, pair)).0) == part(st)
}

/// What every save leaves as it is, a whole computation does.
proof fn lemma_create_keeps<H: Hasher, S, P>(
    save: SaveFn<S>,
    part: spec_fn(S) -> P,
    todo: Seq<BaoChunk>,
    hashes: Seq<Digest>,
    data: Seq<u8>,
    st: S,
)
    requires
        saves_keep(save, part),
    ensures
        part(create_run::<H, S>(save, todo, hashes, data, st).0) == part(st),
    decreases todo.len(),
{
    if todo.len() > 0 {
        match todo[0] {
            BaoChunk::Leaf { start_chunk, size, is_root, .. } => {
                if size <= data.len() {
                    let hash = H::chunk_hash(start_chunk.0, data.take(size as int), is_root);
                    lemma_create_keeps::<H, S, P>(
                        save,
                        part,
                        todo.skip(1),
                        hashes.push(hash),
                        data.skip(size as int),
                        st,
                    );
                }
            },
            BaoChunk::Parent { node, is_root, .. } => {
                let l = hashes[hashes.len() - 2];
                let r = hashes[hashes.len() - 1];
                lemma_create_keeps::<H, S, P>(
                    save,
                    part,
                    todo.skip(1),
                    hashes.take(hashes.len() - 2).push(H::inner_hash(l, r, is_root)),
                    data,
                    save(st, node, (l, r)).0,
                );
            },
        }
    }
}

/// Where saving never fails, saving one hash pair after the other does not.
proof fn lemma_saves_all<S>(save: SaveFn<S>, st: S, pairs: Seq<Parent>)
    requires
        saves_always(save),
    ensures
        save_all(save, st, pairs).1 is Ok,
    decreases pairs.len(),
{
    if pairs.len() > 0 {
        let (st1, res) = save(st, pairs[0].node, pairs[0].pair);
        lemma_saves_all(save, st1, pairs.skip(1));
    }
}

/// Initialising a pre order outboard succeeds if and only if there is enough data.
proof fn lemma_initialized_pre<H: Hasher>(st: OutboardState, data: Seq<u8>)
    requires
        st.tree.wf(),
    ensures
        ({
            let (after, res) = initialized_outboard::<H>(
                outboard_saver::<PreOrderOutboard<H>>(),
                st,
                data,
            );
            &&& after.tree == st.tree
            &&& res is Err ==> after.root == st.root
            &&& st.tree.size <= data.len() ==> res is Ok && after.root == tree_hash::<H>(
                data.take(st.tree.size as int),
                st.tree.group(),
                0,
                true,
            )
            &&& st.tree.size > data.len() ==> res == Err::<(), IoError>(IoError::UnexpectedEof)
        }),
{
    let save = outboard_saver::<PreOrderOutboard<H>>();
    assert(saves_always(save));
    let kept = |a: OutboardState| (a.tree, a.root);
    assert(saves_keep(save, kept));
    lemma_create_keeps::<H, OutboardState, (BaoTree, Digest)>(
        save,
        kept,
        tree_post_steps(st.tree),
        Seq::empty(),
        data,
        st,
    );
    if st.tree.size <= data.len() {
        let blob = data.take(st.tree.size as int);
        lemma_create_tree::<H, OutboardState>(save, st.tree, data, st);
        lemma_saves_all(save, st, tree_pairs::<H>(blob, st.tree.group(), 0));
    } else {
        lemma_short::<H, OutboardState>(save, st.tree, data, st);
    }
}

/// Initialising a post order outboard succeeds if and only if there is enough data.
proof fn lemma_initialized_post<H: Hasher>(st: OutboardState, data: Seq<u8>)
    requires
        st.tree.wf(),
    ensures
        ({
            let (after, res) = initialized_outboard::<H>(
                outboard_saver::<PostOrderOutboard<H>>(),
                st,
                data,
            );
            &&& after.tree == st.tree
            &&& res is Err ==> after.root == st.root
            &&& st.tree.size <= data.len() ==> res is Ok && after.root == tree_hash::<H>(
                data.take(st.tree.size as int),
                st.tree.group(),
                0,
                true,
            )
            &&& st.tree.size > data.len() ==> res == Err::<(), IoError>(IoError::UnexpectedEof)
        }),
{
    let save = outboard_saver::<PostOrderOutboard<H>>();
    assert(saves_always(save));
    let kept = |a: OutboardState| (a.tree, a.root);
    assert(saves_keep(save, kept));
    lemma_create_keeps::<H, OutboardState, (BaoTree, Digest)>(
        save,
        kept,
        tree_post_steps(st.tree),
        Seq::empty(),
        data,
        st,
    );
    if st.tree.size <= data.len() {
        let blob = data.take(st.tree.size as int);
        lemma_create_tree::<H, OutboardState>(save, st.tree, data, st);
        lemma_saves_all(save, st, tree_pairs::<H>(blob, st.tree.group(), 0));
    } else {
        lemma_short::<H, OutboardState>(save, st.tree, data, st);
    }
}

impl<H: Hasher> CreateOutboard for PreOrderOutboard<H> {
    open spec fn sized(size: u64, block_size: BlockSize) -> OutboardState {
        sized_outboard(size, block_size)
    }

    open spec fn can_init(st: OutboardState) -> bool {
        fits_memory(st.tree)
    }

    open spec fn initialized(st: OutboardState, data: Seq<u8>) -> (
        OutboardState,
        Result<(), IoError>,
    ) {
        initialized_outboard::<H>(outboard_saver::<PreOrderOutboard<H>>(), st, data)
    }

    fn create(data: &[u8], block_size: BlockSize) -> (res: Result<Self, IoError>)
        ensures
            res matches Ok(o) && o@.tree == (BaoTree { size: data.len() as u64, block_size })
                && o@.root == tree_hash::<H>(data@, block_size.group(), 0, true),
    {
        assert(data@.take(data@.len() as int) =~= data@);
        Self::create_sized(data, data.len() as u64, block_size)
    }

    fn create_sized(data: &[u8], size: u64, block_size: BlockSize) -> (res: Result<
        Self,
        IoError,
    >)
        ensures
            size <= data@.len() ==> (res matches Ok(o) && o@.tree == (BaoTree { size, block_size })
                && o@.root == tree_hash::<H>(data@.take(size as int), block_size.group(), 0, true)),
            size > data@.len() ==> (res matches Err(e) && e == IoError::UnexpectedEof),
    {
        let mut res: PreOrderOutboard<H> = PreOrderOutboard::default();
        res.tree = BaoTree::new(size, block_size);
        assert(res@ == sized_outboard(size, block_size));
        match res.init_from(data) {
            Ok(_) => Ok(res),
            Err(e) => Err(e),
        }
    }

    fn init_from(&mut self, data: &[u8]) -> (res: Result<(), IoError>)
        ensures
            final(self)@.tree == old(self)@.tree,
            res is Err ==> final(self)@.root == old(self)@.root,
            old(self)@.tree.size <= data@.len() ==> res is Ok && final(self)@.root == tree_hash::<
                H,
            >(data@.take(old(self)@.tree.size as int), old(self)@.tree.group(), 0, true),
            old(self)@.tree.size > data@.len() ==> res == Err::<(), IoError>(
                IoError::UnexpectedEof,
            ),
    {
        let tree = self.tree;
        proof {
            lemma_initialized_pre::<H>(self@, data@);
        }
        match outboard(data, tree, self) {
            Ok(root) => {
                self.root = root;
                self.sync()
            },
            Err(e) => Err(e),
        }
    }
}

impl<H: Hasher> CreateOutboard for PostOrderOutboard<H> {
    open spec fn sized(size: u64, block_size: BlockSize) -> OutboardState {
        sized_outboard(size, block_size)
    }

    open spec fn can_init(st: OutboardState) -> bool {
        fits_memory(st.tree)
    }

    open spec fn initialized(st: OutboardState, data: Seq<u8>) -> (
        OutboardState,
        Result<(), IoError>,
    ) {
        initialized_outboard::<H>(outboard_saver::<PostOrderOutboard<H>>(), st, data)
    }

    fn create(data: &[u8], block_size: BlockSize) -> (res: Result<Self, IoError>)
        ensures
            res matches Ok(o) && o@.tree == (BaoTree { size: data.len() as u64, block_size })
                && o@.root == tree_hash::<H>(data@, block_size.group(), 0, true),
    {
        assert(data@.take(data@.len() as int) =~= data@);
        Self::create_sized(data, data.len() as u64, block_size)
    }

    fn create_sized(data: &[u8], size: u64, block_size: BlockSize) -> (res: Result<
        Self,
        IoError,
    >)
        ensures
            size <= data@.len() ==> (res matches Ok(o) && o@.tree == (BaoTree { size, block_size })
                && o@.root == tree_hash::<H>(data@.take(size as int), block_size.group(), 0, true)),
            size > data@.len() ==> (res matches Err(e) && e == IoError::UnexpectedEof),
    {
        let mut res: PostOrderOutboard<H> = PostOrderOutboard::default();
        res.tree = BaoTree::new(size, block_size);
        assert(res@ == sized_outboard(size, block_size));
        match res.init_from(data) {
            Ok(_) => Ok(res),
            Err(e) => Err(e),
        }
    }

    fn init_from(&mut self, data: &[u8]) -> (res: Result<(), IoError>)
        ensures
            final(self)@.tree == old(self)@.tree,
            res is Err ==> final(self)@.root == old(self)@.root,
            old(self)@.tree.size <= data@.len() ==> res is Ok && final(self)@.root == tree_hash::<
                H,
            >(data@.take(old(self)@.tree.size as int), old(self)@.tree.group(), 0, true),
            old(self)@.tree.size > data@.len() ==> res == Err::<(), IoError>(
                IoError::UnexpectedEof,
            ),
    {
        let tree = self.tree;
        proof {
            lemma_initialized_post::<H>(self@, data@);
        }
        match outboard(data, tree, self) {
            Ok(root) => {
                self.root = root;
                self.sync()
            },
            Err(e) => Err(e),
        }
    }
}

} // verus!
