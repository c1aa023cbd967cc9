//! Finding the parts of a blob that are valid.
use crate::content::{bytes_at, read_exact_at};
use crate::copy::{outboard_loader, LoadFn};
use crate::error::IoError;
use crate::geometry::{
    byte_end, byte_start, chunks_of, groups, in_tree, lemma_groups_one, lemma_split_point,
    node_number, split_point,
};
use crate::hash::{Digest, Hasher};
use crate::iter::Subtree;
use crate::outboard::Outboard;
use crate::ranges::{selection, wanted, ChunkRanges};
use crate::tree::{lemma_group, split_at, BaoTree, ChunkNum, TreeNode};
use core::marker::PhantomData;
use vstd::prelude::*;

verus! {

/// The chunks `start..end`.
#[derive(Clone, Copy, Debug, PartialEq, Eq, Structural)]
pub struct ChunkSpan {
    /// The first chunk.
    pub start: ChunkNum,
    /// The end.
    pub end: ChunkNum,
}

/// A subtree that is still to be validated, and its expected hash.
#[derive(Clone, Copy, Debug)]
pub struct Visit {
    /// The subtree.
    pub tree: Subtree,
    /// The expected hash.
    pub hash: Digest,
}

/// What has to be done next to validate a blob.
#[derive(Clone, Copy, Debug, PartialEq, Eq, Structural)]
pub enum ValidateStep {
    /// Load the hash pair of a node and hand it to `loaded`.
    Load(TreeNode),
    /// Read `size` bytes from `start` on and hand them to `check`, or call `accept`.
    Check {
        /// Where the bytes start.
        start: u64,
        /// Number of bytes.
        size: u64,
    },
}

/// Whether a chunk group has the expected hash: of the first chunk, the number of chunks, whether
/// it is the whole tree, and the hash.
pub type CheckFn = spec_fn(int, int, bool, Digest) -> Result<bool, IoError>;

/// Checks a group by hashing its data.
pub open spec fn data_check<H: Hasher>(size: int, data: Seq<u8>) -> CheckFn {
    |s: int, m: int, is_root: bool, hash: Digest|
        match bytes_at(data, byte_start(s), byte_end(size, s, m) - byte_start(s)) {
            Err(e) => Err(e),
            Ok(bytes) => Ok(H::chunk_hash(s as u64, bytes, is_root) == hash),
        }
}

/// Takes every group for valid.
pub open spec fn no_check() -> CheckFn {
    |s: int, m: int, is_root: bool, hash: Digest| Ok::<bool, IoError>(true)
}

/// The chunks of a subtree.
pub open spec fn subtree_span(size: int, s: int, m: int) -> ChunkSpan {
    ChunkSpan {
        start: ChunkNum(s as u64),
        end: ChunkNum(chunks_of(byte_end(size, s, m)) as u64),
    }
}

/// Validating a subtree against its expected hash: the valid groups among the selected chunks from
/// left to right, and the failure that ended it, if any. Where a hash pair is missing or wrong,
/// nothing below it is valid.
pub open spec fn validate_run<H: Hasher>(
    load: LoadFn,
    check: CheckFn,
    size: int,
    g: int,
    sel: Set<int>,
    s: int,
    m: int,
    is_root: bool,
    hash: Digest,
) -> (Seq<ChunkSpan>, Result<(), IoError>)
    decreases m,
{
    if m <= g || m <= 1 {
        match check(s, m, is_root, hash) {
            Err(e) => (Seq::empty(), Err(e)),
            Ok(valid) => if valid {
                (seq![subtree_span(size, s, m)], Ok(()))
            } else {
                (Seq::empty(), Ok(()))
            },
        }
    } else {
        let p = split_point(m);
        proof {
            lemma_split_point(m);
        }
        match load(TreeNode(node_number(s, m) as u64)) {
            Err(e) => (Seq::empty(), Err(e)),
            Ok(None) => (Seq::empty(), Ok(())),
            Ok(Some((l, r))) => if H::inner_hash(l, r, is_root) != hash {
                (Seq::empty(), Ok(()))
            } else {
                let left = if wanted(sel, s, p) {
                    validate_run::<H>(load, check, size, g, sel, s, p, false, l)
                } else {
                    (Seq::empty(), Ok(()))
                };
                let right = if wanted(sel, s + p, m - p) {
                    validate_run::<H>(load, check, size, g, sel, s + p, m - p, false, r)
                } else {
                    (Seq::empty(), Ok(()))
                };
                match left.1 {
                    Err(e) => left,
                    Ok(_) => (left.0 + right.0, right.1),
                }
            },
        }
    }
}

/// Validating the subtrees on a stack, the one on top first.
pub open spec fn validate_stack<H: Hasher>(
    load: LoadFn,
    check: CheckFn,
    size: int,
    g: int,
    sel: Set<int>,
    stack: Seq<Visit>,
) -> (Seq<ChunkSpan>, Result<(), IoError>)
    decreases stack.len(),
{
    if stack.len() == 0 {
        (Seq::empty(), Ok(()))
    } else {
        let v = stack.last();
        let top = validate_run::<H>(
            load,
            check,
            size,
            g,
            sel,
            v.tree.start as int,
            v.tree.count as int,
            v.tree.is_root,
            v.hash,
        );
        let rest = validate_stack::<H>(load, check, size, g, sel, stack.drop_last());
        match top.1 {
            Err(e) => top,
            Ok(_) => (top.0 + rest.0, rest.1),
        }
    }
}

/// Validating a tree. A tree of one group is validated whatever is selected.
pub open spec fn validate_tree<H: Hasher>(
    load: LoadFn,
    check: CheckFn,
    tree: BaoTree,
    ranges: Set<int>,
    root: Digest,
) -> (Seq<ChunkSpan>, Result<(), IoError>) {
    let sel = selection(ranges, tree.total());
    if groups(tree.group(), tree.total()) == 1 || wanted(sel, 0, tree.total()) {
        validate_run::<H>(
            load,
            check,
            tree.size as int,
            tree.group(),
            sel,
            0,
            tree.total(),
            true,
            root,
        )
    } else {
        (Seq::empty(), Ok(()))
    }
}

/// The subtrees that are left after a hash pair was loaded for the one on top.
pub open spec fn after_load<H: Hasher>(
    sel: Set<int>,
    stack: Seq<Visit>,
    pair: Option<(Digest, Digest)>,
) -> Seq<Visit> {
    let v = stack.last();
    let rest = stack.drop_last();
    let s = v.tree.start as int;
    let m = v.tree.count as int;
    let p = split_point(m);
    match pair {
        None => rest,
        Some((l, r)) => if H::inner_hash(l, r, v.tree.is_root) != v.hash {
            rest
        } else {
            let lt = Subtree { start: s as u64, count: p as u64, is_root: false };
            let rt = Subtree { start: (s + p) as u64, count: (m - p) as u64, is_root: false };
            let mid = if wanted(sel, s + p, m - p) {
                rest.push(Visit { tree: rt, hash: r })
            } else {
                rest
            };
            if wanted(sel, s, p) {
                mid.push(Visit { tree: lt, hash: l })
            } else {
                mid
            }
        },
    }
}

/// A measure of the work that is left for a stack.
pub open spec fn visit_weight(stack: Seq<Visit>) -> int
    decreases stack.len(),
{
    if stack.len() == 0 {
        0
    } else {
        2 * stack.last().tree.count - 1 + visit_weight(stack.drop_last())
    }
}

/// Loading a hash pair takes work off, and leaves what is still to be found.
proof fn lemma_after_load<H: Hasher>(
    load: LoadFn,
    check: CheckFn,
    size: int,
    g: int,
    sel: Set<int>,
    stack: Seq<Visit>,
    pair: Option<(Digest, Digest)>,
)
    requires
        stack.len() > 0,
        stack.last().tree.count > 1,
        stack.last().tree.count > g,
        stack.last().tree.start + stack.last().tree.count <= u64::MAX,
        load(
            TreeNode(
                node_number(
                    stack.last().tree.start as int,
                    stack.last().tree.count as int,
                ) as u64,
            ),
        ) == Ok::<Option<(Digest, Digest)>, IoError>(pair),
    ensures
        validate_stack::<H>(load, check, size, g, sel, stack) == validate_stack::<H>(
            load,
            check,
            size,
            g,
            sel,
            after_load::<H>(sel, stack, pair),
        ),
        visit_weight(after_load::<H>(sel, stack, pair)) < visit_weight(stack),
{
    let v = stack.last();
    let rest = stack.drop_last();
    let s = v.tree.start as int;
    let m = v.tree.count as int;
    let p = split_point(m);
    lemma_split_point(m);
    let below = validate_stack::<H>(load, check, size, g, sel, rest);
    if let Some((l, r)) = pair {
        if H::inner_hash(l, r, v.tree.is_root) == v.hash {
            let lt = Visit {
                tree: Subtree { start: s as u64, count: p as u64, is_root: false },
                hash: l,
            };
            let rt = Visit {
                tree: Subtree { start: (s + p) as u64, count: (m - p) as u64, is_root: false },
                hash: r,
            };
            let mid = if wanted(sel, s + p, m - p) {
                rest.push(rt)
            } else {
                rest
            };
            assert(rest.push(rt).drop_last() =~= rest);
            assert(mid.push(lt).drop_last() =~= mid);
            let left = if wanted(sel, s, p) {
                validate_run::<H>(load, check, size, g, sel, s, p, false, l)
            } else {
                (Seq::empty(), Ok(()))
            };
            let right = if wanted(sel, s + p, m - p) {
                validate_run::<H>(load, check, size, g, sel, s + p, m - p, false, r)
            } else {
                (Seq::empty(), Ok(()))
            };
            assert(Seq::<ChunkSpan>::empty() + below.0 =~= below.0);
            let two = validate_stack::<H>(load, check, size, g, sel, mid);
            assert(Seq::<ChunkSpan>::empty() + two.0 =~= two.0);
            assert(left.0 + (right.0 + below.0) =~= (left.0 + right.0) + below.0);
            assert(visit_weight(rest.push(rt)) == 2 * (m - p) - 1 + visit_weight(rest));
            assert(visit_weight(mid.push(lt)) == 2 * p - 1 + visit_weight(mid));
        } else {
            assert(Seq::<ChunkSpan>::empty() + below.0 =~= below.0);
        }
    } else {
        assert(Seq::<ChunkSpan>::empty() + below.0 =~= below.0);
    }
}

/// The validation of a blob, between loads of hash pairs and reads of data.
pub struct Validator<H> {
    tree: BaoTree,
    group: u64,
    ranges: ChunkRanges,
    stack: Vec<Visit>,
    hasher: PhantomData<H>,
}

impl<H: Hasher> Validator<H> {
    /// The subtrees that are still to be validated.
    pub closed spec fn visits(&self) -> Seq<Visit> {
        self.stack@
    }

    /// The selected chunks.
    pub closed spec fn sel(&self) -> Set<int> {
        self.ranges@
    }

    /// The size of the blob.
    pub closed spec fn size(&self) -> int {
        self.tree.size as int
    }

    /// Number of chunks in a group.
    pub closed spec fn group(&self) -> int {
        self.group as int
    }

    /// What is still to be validated lies in the tree.
    pub open spec fn wf(&self) -> bool {
        &&& 0 <= self.size() <= u64::MAX
        &&& forall|i: int|
            0 <= i < self.visits().len() ==> in_tree(
                self.size(),
                (#[trigger] self.visits()[i]).tree.start as int,
                self.visits()[i].tree.count as int,
            )
    }

    /// The subtree on top is a chunk group.
    pub open spec fn at_group(&self) -> bool {
        &&& self.visits().len() > 0
        &&& self.visits().last().tree.count <= self.group() || self.visits().last().tree.count <= 1
    }

    /// Starts the validation of what `ranges` selects of the blob with the given root hash. A blob
    /// of one group is validated whatever is selected.
    pub fn new(root: Digest, tree: BaoTree, ranges: &ChunkRanges) -> (res: Validator<H>)
        requires
            tree.wf(),
        ensures
            res.wf(),
            res.size() == tree.size,
            res.group() == tree.group(),
            res.sel() == selection(ranges@, tree.total()),
            res.visits().len() == (if tree.total() <= tree.group() || wanted(
                res.sel(),
                0,
                tree.total(),
            ) {
                1int
            } else {
                0
            }),
            res.visits().len() > 0 ==> {
                let top = res.visits()[0];
                &&& top.hash == root
                &&& top.tree.start == 0 && top.tree.count == tree.total() && top.tree.is_root
            },
            forall|load: LoadFn, check: CheckFn| #[trigger]
                validate_stack::<H>(
                    load,
                    check,
                    res.size(),
                    res.group(),
                    res.sel(),
                    res.visits(),
                ) == validate_tree::<H>(load, check, tree, ranges@, root),
    {
        let total = tree.total_chunks();
        let selected = ranges.truncated(total);
        let mut stack: Vec<Visit> = Vec::new();
        let top = Visit { tree: Subtree { start: 0, count: total, is_root: true }, hash: root };
        let visit = tree.blocks() == 1 || selected.intersects(0, total);
        if visit {
            stack.push(top);
        }
        let res = Validator {
            tree,
            group: tree.block_size.chunks(),
            ranges: selected,
            stack,
            hasher: PhantomData,
        };
        proof {
            lemma_group(tree.block_size);
            lemma_groups_one(tree.group(), tree.total());
            let none = Seq::<Visit>::empty();
            assert forall|load: LoadFn, check: CheckFn| #[trigger]
                validate_stack::<H>(
                    load,
                    check,
                    res.size(),
                    res.group(),
                    res.sel(),
                    res.visits(),
                ) == validate_tree::<H>(load, check, tree, ranges@, root) by {
                let whole = validate_tree::<H>(load, check, tree, ranges@, root);
                assert(whole.0 + Seq::<ChunkSpan>::empty() =~= whole.0);
                assert(validate_stack::<H>(
                    load,
                    check,
                    res.size(),
                    res.group(),
                    res.sel(),
                    none,
                ) == (Seq::<ChunkSpan>::empty(), Ok::<(), IoError>(())));
                if visit {
                    assert(res.visits().drop_last() =~= none);
                    assert(res.visits().last() == top);
                    assert(whole.1 matches Ok(u) ==> u == ());
                    assert(res.sel() == selection(ranges@, tree.total()));
                    assert(validate_run::<H>(
                        load,
                        check,
                        res.size(),
                        res.group(),
                        res.sel(),
                        0,
                        total as int,
                        true,
                        root,
                    ) == whole);
                } else {
                    assert(res.visits() =~= none);
                }
            }
        }
        res
    }

    /// What has to be done next.
    pub fn want(&self) -> (res: Option<ValidateStep>)
        requires
            self.wf(),
        ensures
            res is Some <==> self.visits().len() > 0,
            res matches Some(step) ==> {
                let t = self.visits().last().tree;
                let s = t.start as int;
                let m = t.count as int;
                if self.at_group() {
                    &&& step matches ValidateStep::Check { start, size } && start == byte_start(s)
                        && size == byte_end(self.size(), s, m) - byte_start(s) && start == 1024 * s
                        && start + size == (if 1024 * (s + m) <= self.size() {
                        1024 * (s + m)
                    } else {
                        self.size()
                    })
                } else {
                    step == ValidateStep::Load(TreeNode(node_number(s, m) as u64))
                }
            },
    {
        if self.stack.len() == 0 {
            return None;
        }
        let ghost last = self.visits()[self.visits().len() - 1];
        let t = self.stack[self.stack.len() - 1].tree;
        let total = self.tree.total_chunks();
        if t.count <= self.group || t.count <= 1 {
            let (start, end) = self.byte_range(t);
            Some(ValidateStep::Check { start, size: end - start })
        } else {
            let p = split_at(t.count);
            Some(ValidateStep::Load(TreeNode(t.start + (p - 1))))
        }
    }

    fn byte_range(&self, t: Subtree) -> (res: (u64, u64))
        requires
            in_tree(self.size(), t.start as int, t.count as int),
        ensures
            res.0 == byte_start(t.start as int),
            res.1 == byte_end(self.size(), t.start as int, t.count as int),
            res.0 <= res.1 <= self.size(),
    {
        let end = t.start + t.count;
        let to: u64 = if end <= self.tree.size / 1024 {
            end * 1024
        } else {
            self.tree.size
        };
        (t.start * 1024, to)
    }

    /// Takes the hash pair of the node that `want` asked for. `None` stands for a node that the
    /// outboard does not have.
    pub fn loaded(&mut self, pair: Option<(Digest, Digest)>)
        requires
            old(self).wf(),
            old(self).visits().len() > 0,
            !old(self).at_group(),
        ensures
            final(self).wf(),
            final(self).size() == old(self).size(),
            final(self).group() == old(self).group(),
            final(self).sel() == old(self).sel(),
            final(self).visits() == after_load::<H>(old(self).sel(), old(self).visits(), pair),
    {
        let ghost before = self.visits();
        assert(before[before.len() - 1] == before.last());
        let visit = self.stack[self.stack.len() - 1];
        let popped = self.stack.pop();
        assert(self.visits() =~= before.drop_last());
        assert(forall|i: int| 0 <= i < before.len() - 1 ==> self.visits()[i] == before[i]);
        let t = visit.tree;
        match pair {
            None => {
                // the outboard is incomplete
            },
            Some((l_hash, r_hash)) => {
                let actual = H::hash_inner(&l_hash, &r_hash, t.is_root);
                if actual.same(&visit.hash) {
                    let total = self.tree.total_chunks();
                    let p = split_at(t.count);
                    let rt = Subtree { start: t.start + p, count: t.count - p, is_root: false };
                    let lt = Subtree { start: t.start, count: p, is_root: false };
                    if self.ranges.intersects(t.start + p, t.count - p) {
                        self.stack.push(Visit { tree: rt, hash: r_hash });
                    }
                    if self.ranges.intersects(t.start, p) {
                        self.stack.push(Visit { tree: lt, hash: l_hash });
                    }
                }
            },
        }
    }

    /// Takes the data that `want` asked for, and returns the chunks of the group if the data has
    /// the expected hash.
    pub fn check(&mut self, data: &[u8]) -> (res: Option<ChunkSpan>)
        requires
            old(self).wf(),
            old(self).at_group(),
        ensures
            final(self).wf(),
            final(self).size() == old(self).size(),
            final(self).group() == old(self).group(),
            final(self).sel() == old(self).sel(),
            final(self).visits() == old(self).visits().drop_last(),
            ({
                let v = old(self).visits().last();
                let s = v.tree.start;
                res == (if H::chunk_hash(s, data@, v.tree.is_root) == v.hash {
                    Some(subtree_span(old(self).size(), s as int, v.tree.count as int))
                } else {
                    None
                })
            }),
            res matches Some(span) ==> {
                let t = old(self).visits().last().tree;
                &&& span.start.0 == t.start
                &&& old(self).size() > 0 ==> span.end.0 == t.start + t.count
                &&& old(self).size() == 0 ==> span.end.0 == 0
            },
    {
        let visit = self.stack[self.stack.len() - 1];
        let span = self.accept();
        let actual = H::hash_chunk(visit.tree.start, data, visit.tree.is_root);
        if actual.same(&visit.hash) {
            Some(span)
        } else {
            None
        }
    }

    /// Returns the chunks of the group that `want` asked for, without a look at its data.
    pub fn accept(&mut self) -> (res: ChunkSpan)
        requires
            old(self).wf(),
            old(self).at_group(),
        ensures
            final(self).wf(),
            final(self).size() == old(self).size(),
            final(self).group() == old(self).group(),
            final(self).sel() == old(self).sel(),
            final(self).visits() == old(self).visits().drop_last(),
            ({
                let t = old(self).visits().last().tree;
                res == subtree_span(old(self).size(), t.start as int, t.count as int)
            }),
            res.start.0 == old(self).visits().last().tree.start,
            ({
                let t = old(self).visits().last().tree;
                old(self).size() > 0 ==> res.end.0 == t.start + t.count
            }),
            old(self).size() == 0 ==> res.end.0 == 0,
    {
        let ghost before = self.visits();
        assert(before[before.len() - 1] == before.last());
        let t = self.stack[self.stack.len() - 1].tree;
        let (start, end) = self.byte_range(t);
        let popped = self.stack.pop();
        assert(self.visits() =~= before.drop_last());
        assert(forall|i: int| 0 <= i < before.len() - 1 ==> self.visits()[i] == before[i]);
        ChunkSpan { start: ChunkNum::full_chunks(start), end: ChunkNum::chunks(end) }
    }
}

/// Computes the valid ranges of a blob, from its data and an outboard: the spans of its chunk
/// groups, and the failure that ended the search, if any.
///
/// This is not cheap, since it computes the hashes of all the chunks. `ranges` limits the search.
pub fn valid_ranges<O: Outboard>(outboard: &mut O, data: &[u8], ranges: &ChunkRanges) -> (res: (
    Vec<ChunkSpan>,
    Result<(), IoError>,
))
    requires
        O::tree_of(old(outboard)@).wf(),
    ensures
        final(outboard)@ == old(outboard)@,
        ({
            let tree = O::tree_of(old(outboard)@);
            (res.0@, res.1) == validate_tree::<O::Hasher>(
                outboard_loader::<O>(old(outboard)@),
                data_check::<O::Hasher>(tree.size as int, data@),
                tree,
                ranges@,
                O::root_of(old(outboard)@),
            )
        }),
{
    let tree = outboard.tree();
    let ghost load = outboard_loader::<O>(outboard@);
    let ghost check = data_check::<O::Hasher>(tree.size as int, data@);
    let mut validator = Validator::<O::Hasher>::new(outboard.root(), tree, ranges);
    let ghost whole = validate_tree::<O::Hasher>(
        load,
        check,
        tree,
        ranges@,
        O::root_of(outboard@),
    );
    let mut spans: Vec<ChunkSpan> = Vec::new();
    proof {
        assert(validate_stack::<O::Hasher>(
            load,
            check,
            validator.size(),
            validator.group(),
            validator.sel(),
            validator.visits(),
        ) == whole);
        assert(spans@ + whole.0 =~= whole.0);
        lemma_weight(validator.size(), validator.visits());
    }
    loop
        invariant
            validator.wf(),
            validator.size() == tree.size,
            outboard@ == old(outboard)@,
            O::tree_of(outboard@).wf(),
            tree == O::tree_of(old(outboard)@),
            load == outboard_loader::<O>(old(outboard)@),
            check == data_check::<O::Hasher>(tree.size as int, data@),
            whole == validate_tree::<O::Hasher>(
                load,
                check,
                tree,
                ranges@,
                O::root_of(old(outboard)@),
            ),
            ({
                let (rest, result) = validate_stack::<O::Hasher>(
                    load,
                    check,
                    validator.size(),
                    validator.group(),
                    validator.sel(),
                    validator.visits(),
                );
                spans@ + rest == whole.0 && result == whole.1
            }),
            visit_weight(validator.visits()) >= 0,
        decreases visit_weight(validator.visits()),
    {
        let ghost stack = validator.visits();
        let ghost below = validate_stack::<O::Hasher>(
            load,
            check,
            validator.size(),
            validator.group(),
            validator.sel(),
            stack.drop_last(),
        );
        proof {
            if stack.len() > 0 {
                assert(stack[stack.len() - 1] == stack.last());
                lemma_weight(validator.size(), stack.drop_last());
            }
            assert(spans@ + Seq::<ChunkSpan>::empty() =~= spans@);
        }
        match validator.want() {
            None => {
                return (spans, Ok(()));
            },
            Some(ValidateStep::Load(node)) => {
                match outboard.load(node) {
                    Err(e) => {
                        return (spans, Err(e));
                    },
                    Ok(pair) => {
                        proof {
                            lemma_after_load::<O::Hasher>(
                                load,
                                check,
                                validator.size(),
                                validator.group(),
                                validator.sel(),
                                stack,
                                pair,
                            );
                        }
                        validator.loaded(pair);
                        proof {
                            lemma_weight(validator.size(), validator.visits());
                        }
                    },
                }
            },
            Some(ValidateStep::Check { start, size }) => {
                match read_exact_at(data, start, size) {
                    Err(e) => {
                        return (spans, Err(e));
                    },
                    Ok(bytes) => {
                        let ghost before = spans@;
                        match validator.check(bytes) {
                            Some(span) => {
                                spans.push(span);
                                assert(before + (seq![span] + below.0) =~= spans@ + below.0);
                            },
                            None => {
                                assert(Seq::<ChunkSpan>::empty() + below.0 =~= below.0);
                            },
                        }
                    },
                }
            },
        }
    }
}

/// Subtrees in a tree are work.
proof fn lemma_weight(size: int, stack: Seq<Visit>)
    requires
        forall|i: int|
            0 <= i < stack.len() ==> in_tree(
                size,
                (#[trigger] stack[i]).tree.start as int,
                stack[i].tree.count as int,
            ),
    ensures
        visit_weight(stack) >= 0,
    decreases stack.len(),
{
    if stack.len() > 0 {
        assert(stack[stack.len() - 1] == stack.last());
        assert(forall|i: int| 0 <= i < stack.len() - 1 ==> stack.drop_last()[i] == stack[i]);
        lemma_weight(size, stack.drop_last());
    }
}

/// Computes the ranges of a blob for which an outboard has valid hash pairs: the spans of its
/// chunk groups, and the failure that ended the search, if any.
///
/// This is not cheap, since it computes the hashes of all the pairs.
pub fn valid_outboard_ranges<O: Outboard>(outboard: &mut O, ranges: &ChunkRanges) -> (res: (
    Vec<ChunkSpan>,
    Result<(), IoError>,
))
    requires
        O::tree_of(old(outboard)@).wf(),
    ensures
        final(outboard)@ == old(outboard)@,
        (res.0@, res.1) == validate_tree::<O::Hasher>(
            outboard_loader::<O>(old(outboard)@),
            no_check(),
            O::tree_of(old(outboard)@),
            ranges@,
            O::root_of(old(outboard)@),
        ),
{
    let tree = outboard.tree();
    let ghost load = outboard_loader::<O>(outboard@);
    let ghost check = no_check();
    let mut validator = Validator::<O::Hasher>::new(outboard.root(), tree, ranges);
    let ghost whole = validate_tree::<O::Hasher>(
        load,
        check,
        tree,
        ranges@,
        O::root_of(outboard@),
    );
    let mut spans: Vec<ChunkSpan> = Vec::new();
    proof {
        assert(validate_stack::<O::Hasher>(
            load,
            check,
            validator.size(),
            validator.group(),
            validator.sel(),
            validator.visits(),
        ) == whole);
        assert(spans@ + whole.0 =~= whole.0);
        lemma_weight(validator.size(), validator.visits());
    }
    loop
        invariant
            validator.wf(),
            outboard@ == old(outboard)@,
            O::tree_of(outboard@).wf(),
            load == outboard_loader::<O>(old(outboard)@),
            check == no_check(),
            whole == validate_tree::<O::Hasher>(
                load,
                check,
                O::tree_of(old(outboard)@),
                ranges@,
                O::root_of(old(outboard)@),
            ),
            ({
                let (rest, result) = validate_stack::<O::Hasher>(
                    load,
                    check,
                    validator.size(),
                    validator.group(),
                    validator.sel(),
                    validator.visits(),
                );
                spans@ + rest == whole.0 && result == whole.1
            }),
            visit_weight(validator.visits()) >= 0,
        decreases visit_weight(validator.visits()),
    {
        let ghost stack = validator.visits();
        let ghost below = validate_stack::<O::Hasher>(
            load,
            check,
            validator.size(),
            validator.group(),
            validator.sel(),
            stack.drop_last(),
        );
        proof {
            if stack.len() > 0 {
                assert(stack[stack.len() - 1] == stack.last());
                lemma_weight(validator.size(), stack.drop_last());
            }
            assert(spans@ + Seq::<ChunkSpan>::empty() =~= spans@);
        }
        match validator.want() {
            None => {
                return (spans, Ok(()));
            },
            Some(ValidateStep::Load(node)) => {
                match outboard.load(node) {
                    Err(e) => {
                        return (spans, Err(e));
                    },
                    Ok(pair) => {
                        proof {
                            lemma_after_load::<O::Hasher>(
                                load,
                                check,
                                validator.size(),
                                validator.group(),
                                validator.sel(),
                                stack,
                                pair,
                            );
                        }
                        validator.loaded(pair);
                        proof {
                            lemma_weight(validator.size(), validator.visits());
                        }
                    },
                }
            },
            Some(ValidateStep::Check { .. }) => {
                let ghost before = spans@;
                let span = validator.accept();
                spans.push(span);
                assert(before + (seq![span] + below.0) =~= spans@ + below.0);
            },
        }
    }
}

} // verus!
