//! Walks over a tree.
use crate::geometry::{
    byte_end, byte_start, in_tree, lemma_split_point, node_number, pre_order, split_point,
    tree_chunks, CHUNK_LEN,
};
use crate::ranges::{full, selection, wanted, ChunkRanges};
use crate::tree::{split_at, BaoTree, ChunkNum, TreeNode};
use vstd::prelude::*;

verus! {

/// A step of a walk: a parent with its hash pair, or a leaf with its data.
#[derive(Clone, Copy, Debug, PartialEq, Eq, Structural)]
pub enum BaoChunk {
    /// The hash pair of a node.
    Parent {
        /// The node.
        node: TreeNode,
        /// True if the node is the root of the tree.
        is_root: bool,
        /// True if the walk goes on to the left child.
        left: bool,
        /// True if the walk goes on to the right child.
        right: bool,
    },
    /// The data of a run of chunks.
    Leaf {
        /// The first chunk.
        start_chunk: ChunkNum,
        /// Number of bytes.
        size: u64,
        /// True if the leaf is the whole tree.
        is_root: bool,
        /// True if the query selects all the chunks of the leaf.
        full: bool,
    },
}

/// A subtree that a walk still has to visit.
#[derive(Clone, Copy, Debug)]
pub struct Subtree {
    /// The first chunk.
    pub start: u64,
    /// Number of chunks.
    pub count: u64,
    /// True if it is the whole tree.
    pub is_root: bool,
}

/// A walk, as mathematics: over the tree of `size` bytes, to the chunks in `sel`. It stops at
/// subtrees of at most `leaf` chunks, and at subtrees of at most `whole` chunks all of which are
/// selected.
pub struct Walk {
    pub size: int,
    pub leaf: int,
    pub whole: int,
    pub sel: Set<int>,
}

/// The leaf for a subtree.
pub open spec fn leaf_chunk(size: int, s: int, m: int, is_root: bool, all: bool) -> BaoChunk {
    BaoChunk::Leaf {
        start_chunk: ChunkNum(s as u64),
        size: (byte_end(size, s, m) - byte_start(s)) as u64,
        is_root,
        full: all,
    }
}

/// The parent for a subtree.
pub open spec fn parent_chunk(s: int, m: int, is_root: bool, left: bool, right: bool) -> BaoChunk {
    BaoChunk::Parent { node: TreeNode(node_number(s, m) as u64), is_root, left, right }
}

impl Walk {
    /// The walk that writes a response from an outboard.
    pub open spec fn encode(tree: BaoTree, ranges: Set<int>) -> Walk {
        Walk {
            size: tree.size as int,
            leaf: tree.group(),
            whole: 1,
            sel: selection(ranges, tree.total()),
        }
    }

    /// The walk that reads a response.
    pub open spec fn response(tree: BaoTree, ranges: Set<int>) -> Walk {
        Walk {
            size: tree.size as int,
            leaf: 1,
            whole: tree.group(),
            sel: selection(ranges, tree.total()),
        }
    }

    /// The walk does not go below this subtree.
    pub open spec fn stops(self, s: int, m: int) -> bool {
        m <= 1 || m <= self.leaf || (m <= self.whole && full(self.sel, s, m))
    }

    /// The steps over a subtree, each parent before its children.
    pub open spec fn steps(self, s: int, m: int, is_root: bool) -> Seq<BaoChunk>
        decreases m,
    {
        if !wanted(self.sel, s, m) {
            Seq::empty()
        } else if self.stops(s, m) {
            seq![leaf_chunk(self.size, s, m, is_root, full(self.sel, s, m))]
        } else {
            let p = split_point(m);
            proof {
                lemma_split_point(m);
            }
            seq![
                parent_chunk(
                    s,
                    m,
                    is_root,
                    wanted(self.sel, s, p),
                    wanted(self.sel, s + p, m - p),
                ),
            ] + self.steps(s, p, false) + self.steps(s + p, m - p, false)
        }
    }

    /// The steps over the subtrees on a stack, the one on top first.
    pub open spec fn stack_steps(self, stack: Seq<Subtree>) -> Seq<BaoChunk>
        decreases stack.len(),
    {
        if stack.len() == 0 {
            Seq::empty()
        } else {
            let t = stack.last();
            self.steps(t.start as int, t.count as int, t.is_root) + self.stack_steps(
                stack.drop_last(),
            )
        }
    }

    /// The steps over the whole tree.
    pub open spec fn all_steps(self) -> Seq<BaoChunk> {
        self.steps(0, tree_chunks(self.size), true)
    }
}

/// The walk over the parts of a tree that a query selects.
pub struct RangesIter {
    tree: BaoTree,
    ranges: ChunkRanges,
    leaf: u64,
    whole: u64,
    stack: Vec<Subtree>,
}

impl RangesIter {
    /// The walk.
    pub closed spec fn walk(&self) -> Walk {
        Walk {
            size: self.tree.size as int,
            leaf: self.leaf as int,
            whole: self.whole as int,
            sel: self.ranges@,
        }
    }

    /// The subtrees that are still to be visited.
    pub closed spec fn pending(&self) -> Seq<Subtree> {
        self.stack@
    }

    /// The steps that are still to come.
    pub open spec fn remaining(&self) -> Seq<BaoChunk> {
        self.walk().stack_steps(self.pending())
    }

    /// The tree.
    pub closed spec fn spec_tree(&self) -> BaoTree {
        self.tree
    }

    /// What is still to be visited lies in the tree and is asked for.
    pub closed spec fn wf(&self) -> bool {
        &&& self.tree.wf()
        &&& forall|i: int|
            0 <= i < self.stack@.len() ==> in_tree(
                self.tree.size as int,
                (#[trigger] self.stack@[i]).start as int,
                self.stack@[i].count as int,
            ) && wanted(self.ranges@, self.stack@[i].start as int, self.stack@[i].count as int)
    }

    fn start(tree: BaoTree, ranges: &ChunkRanges, leaf: u64, whole: u64) -> (res: RangesIter)
        requires
            tree.wf(),
        ensures
            res.wf(),
            res.spec_tree() == tree,
            res.walk() == (Walk {
                size: tree.size as int,
                leaf: leaf as int,
                whole: whole as int,
                sel: selection(ranges@, tree.total()),
            }),
            res.remaining() == res.walk().all_steps(),
            res.pending().len() <= 1,
    {
        let total = tree.total_chunks();
        let selected = ranges.truncated(total);
        let mut stack: Vec<Subtree> = Vec::new();
        let root = Subtree { start: 0, count: total, is_root: true };
        let asked = selected.intersects(0, total);
        if asked {
            stack.push(root);
        }
        let res = RangesIter { tree, ranges: selected, leaf, whole, stack };
        proof {
            if asked {
                assert(res.stack@.last() == root);
                assert(res.stack@.drop_last() =~= Seq::empty());
                assert(res.walk().stack_steps(Seq::empty()) =~= Seq::empty());
                assert(res.remaining() =~= res.walk().all_steps());
            }
        }
        res
    }

    /// The walk that writes a response from an outboard: its leaves are chunk groups.
    pub fn encode(tree: BaoTree, ranges: &ChunkRanges) -> (res: RangesIter)
        requires
            tree.wf(),
        ensures
            res.wf(),
            res.spec_tree() == tree,
            res.walk() == Walk::encode(tree, ranges@),
            res.remaining() == res.walk().all_steps(),
            res.pending().len() <= 1,
    {
        RangesIter::start(tree, ranges, tree.block_size.chunks(), 1)
    }

    /// The walk that reads a response: it goes into chunk groups of which only a part is selected.
    pub fn response(tree: BaoTree, ranges: &ChunkRanges) -> (res: RangesIter)
        requires
            tree.wf(),
        ensures
            res.wf(),
            res.spec_tree() == tree,
            res.walk() == Walk::response(tree, ranges@),
            res.remaining() == res.walk().all_steps(),
            res.pending().len() <= 1,
    {
        RangesIter::start(tree, ranges, 1, tree.block_size.chunks())
    }

    /// The tree.
    pub fn tree(&self) -> (res: BaoTree)
        ensures
            res == self.spec_tree(),
    {
        self.tree
    }

    /// The chunks that the walk goes to.
    pub fn selected(&self) -> (res: &ChunkRanges)
        ensures
            res@ == self.walk().sel,
    {
        &self.ranges
    }

    /// The next step.
    pub fn next(&mut self) -> (res: Option<BaoChunk>)
        requires
            old(self).wf(),
        ensures
            final(self).wf(),
            final(self).walk() == old(self).walk(),
            final(self).spec_tree() == old(self).spec_tree(),
            match res {
                None => old(self).remaining().len() == 0 && final(self).pending()
                    == old(self).pending(),
                Some(step) => {
                    &&& old(self).remaining().len() > 0
                    &&& step == old(self).remaining()[0]
                    &&& final(self).remaining() == old(self).remaining().skip(1)
                    &&& step_visits(step, old(self).pending(), final(self).pending())
                    &&& step_fits(old(self).walk(), step)
                },
            },
    {
        let ghost before = self.stack@;
        let ghost w = self.walk();
        match self.stack.pop() {
            None => None,
            Some(t) => {
                let ghost rest = self.stack@;
                assert(before =~= rest.push(t));
                assert(before[before.len() - 1] == t);
                assert(forall|i: int| 0 <= i < rest.len() ==> rest[i] == before[i]);
                let total = self.tree.total_chunks();
                let all = self.ranges.covers(t.start, t.count);
                if t.count <= 1 || t.count <= self.leaf || (t.count <= self.whole && all) {
                    let step = leaf_step(self.tree, t, all);
                    proof {
                        lemma_next_leaf(w, rest, t);
                    }
                    Some(step)
                } else {
                    let p = split_at(t.count);
                    let right = self.ranges.intersects(t.start + p, t.count - p);
                    let left = self.ranges.intersects(t.start, p);
                    if right {
                        self.stack.push(
                            Subtree { start: t.start + p, count: t.count - p, is_root: false },
                        );
                    }
                    if left {
                        self.stack.push(Subtree { start: t.start, count: p, is_root: false });
                    }
                    let node = TreeNode(t.start + (p - 1));
                    proof {
                        lemma_next_parent(w, rest, t);
                        lemma_wanted_split(w.sel, t.start as int, t.count as int, p as int);
                    }
                    Some(BaoChunk::Parent { node, is_root: t.is_root, left, right })
                }
            },
        }
    }
}

/// The leaf for a subtree.
pub(crate) fn leaf_step(tree: BaoTree, t: Subtree, all: bool) -> (res: BaoChunk)
    requires
        in_tree(tree.size as int, t.start as int, t.count as int),
    ensures
        res == leaf_chunk(tree.size as int, t.start as int, t.count as int, t.is_root, all),
        res matches BaoChunk::Leaf { size, .. } && size == byte_end(
            tree.size as int,
            t.start as int,
            t.count as int,
        ) - byte_start(t.start as int),
{
    let end = t.start + t.count;
    let from = t.start * CHUNK_LEN;
    let to: u64 = if end <= tree.size / CHUNK_LEN {
        end * CHUNK_LEN
    } else {
        tree.size
    };
    BaoChunk::Leaf { start_chunk: ChunkNum(t.start), size: to - from, is_root: t.is_root, full: all }
}

proof fn lemma_next_leaf(w: Walk, rest: Seq<Subtree>, t: Subtree)
    requires
        0 <= w.size <= u64::MAX,
        in_tree(w.size, t.start as int, t.count as int),
        wanted(w.sel, t.start as int, t.count as int),
        w.stops(t.start as int, t.count as int),
    ensures
        ({
            let s = t.start as int;
            let m = t.count as int;
            let step = leaf_chunk(w.size, s, m, t.is_root, full(w.sel, s, m));
            &&& w.stack_steps(rest.push(t)).len() > 0
            &&& w.stack_steps(rest.push(t))[0] == step
            &&& w.stack_steps(rest.push(t)).skip(1) == w.stack_steps(rest)
            &&& step_fits(w, step)
        }),
{
    let s = t.start as int;
    let m = t.count as int;
    lemma_leaf_count(w.size, s, m);
    let step = leaf_chunk(w.size, s, m, t.is_root, full(w.sel, s, m));
    let stack = rest.push(t);
    assert(stack.drop_last() =~= rest);
    assert(w.stack_steps(stack) =~= seq![step] + w.stack_steps(rest));
    assert(w.stack_steps(stack).skip(1) =~= w.stack_steps(rest));
}

proof fn lemma_next_parent(w: Walk, rest: Seq<Subtree>, t: Subtree)
    requires
        0 <= w.size <= u64::MAX,
        in_tree(w.size, t.start as int, t.count as int),
        wanted(w.sel, t.start as int, t.count as int),
        !w.stops(t.start as int, t.count as int),
    ensures
        ({
            let s = t.start as int;
            let m = t.count as int;
            let p = split_point(m);
            let l = wanted(w.sel, s, p);
            let r = wanted(w.sel, s + p, m - p);
            let rt = Subtree { start: (s + p) as u64, count: (m - p) as u64, is_root: false };
            let lt = Subtree { start: s as u64, count: p as u64, is_root: false };
            let mid = if r {
                rest.push(rt)
            } else {
                rest
            };
            let after = if l {
                mid.push(lt)
            } else {
                mid
            };
            &&& w.stack_steps(rest.push(t)).len() > 0
            &&& w.stack_steps(rest.push(t))[0] == parent_chunk(s, m, t.is_root, l, r)
            &&& w.stack_steps(rest.push(t)).skip(1) == w.stack_steps(after)
        }),
{
    let s = t.start as int;
    let m = t.count as int;
    let p = split_point(m);
    lemma_split_point(m);
    let l = wanted(w.sel, s, p);
    let r = wanted(w.sel, s + p, m - p);
    let rt = Subtree { start: (s + p) as u64, count: (m - p) as u64, is_root: false };
    let lt = Subtree { start: s as u64, count: p as u64, is_root: false };
    let mid = if r {
        rest.push(rt)
    } else {
        rest
    };
    let after = if l {
        mid.push(lt)
    } else {
        mid
    };
    let step = parent_chunk(s, m, t.is_root, l, r);
    let ls = w.steps(s, p, false);
    let rs = w.steps(s + p, m - p, false);
    assert(rest.push(t).drop_last() =~= rest);
    assert(w.stack_steps(rest.push(t)) == (seq![step] + ls + rs) + w.stack_steps(rest));
    assert(w.stack_steps(mid) =~= rs + w.stack_steps(rest)) by {
        assert(rest.push(rt).drop_last() =~= rest);
    }
    assert(w.stack_steps(after) =~= ls + w.stack_steps(mid)) by {
        assert(mid.push(lt).drop_last() =~= mid);
    }
    assert(w.stack_steps(rest.push(t)).skip(1) =~= w.stack_steps(after));
}

/// What a step says fits the tree.
pub open spec fn step_fits(walk: Walk, step: BaoChunk) -> bool {
    match step {
        BaoChunk::Leaf { start_chunk, size, is_root, full: all } => {
            let s = start_chunk.0 as int;
            let m = tree_chunks(size as int);
            &&& in_tree(walk.size, s, m)
            &&& wanted(walk.sel, s, m)
            &&& walk.stops(s, m)
            &&& byte_end(walk.size, s, m) == byte_start(s) + size
            &&& step == leaf_chunk(walk.size, s, m, is_root, full(walk.sel, s, m))
        },
        BaoChunk::Parent { node, left, right, .. } => {
            &&& node.0 + 1 < tree_chunks(walk.size)
            &&& left || right
        },
    }
}

/// The number of chunks of a subtree follows from its number of bytes.
pub proof fn lemma_leaf_count(size: int, s: int, m: int)
    requires
        0 <= size,
        in_tree(size, s, m),
    ensures
        0 <= byte_start(s) <= byte_end(size, s, m) <= size,
        tree_chunks(byte_end(size, s, m) - byte_start(s)) == m,
{
}

/// Where a subtree is asked for, so is one of its halves.
pub proof fn lemma_wanted_split(sel: Set<int>, s: int, m: int, p: int)
    requires
        wanted(sel, s, m),
        0 <= p <= m,
    ensures
        wanted(sel, s, p) || wanted(sel, s + p, m - p),
{
    let c = choose|c: int| s <= c < s + m && #[trigger] sel.contains(c);
    if c < s + p {
        assert(wanted(sel, s, p));
    } else {
        assert(wanted(sel, s + p, m - p));
    }
}

/// A step takes one subtree off the stack and puts on those that the walk goes on to.
pub open spec fn step_visits(step: BaoChunk, before: Seq<Subtree>, after: Seq<Subtree>) -> bool {
    &&& before.len() > 0
    &&& match step {
        BaoChunk::Leaf { .. } => after.len() == before.len() - 1,
        BaoChunk::Parent { left, right, .. } => after.len() == before.len() - 1 + (if left {
            1int
        } else {
            0
        }) + (if right {
            1int
        } else {
            0
        }),
    }
}

/// The walk over the nodes of a tree that an outboard tracks, in pre order.
pub struct NodeIter {
    group: u64,
    stack: Vec<Subtree>,
}

/// The tracked nodes of the subtrees on a stack, the one on top first.
pub open spec fn stack_nodes(g: int, stack: Seq<Subtree>) -> Seq<int>
    decreases stack.len(),
{
    if stack.len() == 0 {
        Seq::empty()
    } else {
        let t = stack.last();
        pre_order(g, t.start as int, t.count as int) + stack_nodes(g, stack.drop_last())
    }
}

impl NodeIter {
    /// The nodes that are still to come.
    pub closed spec fn remaining(&self) -> Seq<int> {
        stack_nodes(self.group as int, self.stack@)
    }

    /// The subtrees on the stack are larger than a group.
    pub closed spec fn wf(&self) -> bool {
        &&& self.group >= 1
        &&& forall|i: int|
            0 <= i < self.stack@.len() ==> (#[trigger] self.stack@[i]).count > self.group
                && self.stack@[i].start + self.stack@[i].count <= 0x40_0000_0000_0000
    }

    /// The walk over the tracked nodes of a tree.
    pub fn new(tree: BaoTree) -> (res: NodeIter)
        requires
            tree.wf(),
        ensures
            res.wf(),
            res.remaining() == tree.pre_order_nodes(),
    {
        let group = tree.block_size.chunks();
        let total = tree.total_chunks();
        let mut stack: Vec<Subtree> = Vec::new();
        if total > group {
            stack.push(Subtree { start: 0, count: total, is_root: true });
        }
        let res = NodeIter { group, stack };
        proof {
            assert(stack_nodes(group as int, Seq::empty()) =~= Seq::empty());
            if total > group {
                assert(res.stack@.drop_last() =~= Seq::empty());
            }
            assert(res.remaining() =~= tree.pre_order_nodes());
        }
        res
    }

    /// The next node.
    pub fn next(&mut self) -> (res: Option<TreeNode>)
        requires
            old(self).wf(),
        ensures
            final(self).wf(),
            match res {
                None => old(self).remaining().len() == 0 && final(self).remaining()
                    == old(self).remaining(),
                Some(node) => old(self).remaining().len() > 0 && node.0 == old(self).remaining()[0]
                    && final(self).remaining() == old(self).remaining().skip(1),
            },
    {
        let ghost before = self.stack@;
        let ghost g = self.group as int;
        match self.stack.pop() {
            None => None,
            Some(t) => {
                let ghost rest = self.stack@;
                assert(before[before.len() - 1] == t);
                assert(before.drop_last() =~= rest);
                let p = split_at(t.count);
                let rt = Subtree { start: t.start + p, count: t.count - p, is_root: false };
                let lt = Subtree { start: t.start, count: p, is_root: false };
                if t.count - p > self.group {
                    self.stack.push(rt);
                }
                let ghost mid = self.stack@;
                if p > self.group {
                    self.stack.push(lt);
                }
                proof {
                    let a = pre_order(g, t.start as int, p as int);
                    let b = pre_order(g, t.start + p, t.count - p);
                    let r = stack_nodes(g, rest);
                    assert(forall|i: int| 0 <= i < rest.len() ==> rest[i] == before[i]);
                    assert(rest.push(rt).drop_last() =~= rest);
                    assert(stack_nodes(g, mid) =~= b + r);
                    assert(mid.push(lt).drop_last() =~= mid);
                    assert(stack_nodes(g, self.stack@) =~= a + (b + r));
                    let x = node_number(t.start as int, t.count as int);
                    assert(stack_nodes(g, before) == (seq![x] + a + b) + r);
                    assert(stack_nodes(g, before).skip(1) =~= a + (b + r));
                }
                Some(TreeNode(t.start + (p - 1)))
            },
        }
    }
}

} // verus!
