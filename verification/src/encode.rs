//! Encoding the parts of a blob that a query selects.
use crate::content::{bytes_at, read_exact_at};
use crate::copy::{outboard_loader, stored_loader, LoadFn};
use crate::error::{EncodeError, IoError};
use crate::geometry::byte_start;
use crate::hash::{combine_hash_pair, pair_bytes, tree_hash, Digest, Hasher};
use crate::iter::{step_fits, BaoChunk, RangesIter, Walk};
use crate::outboard::Outboard;
use crate::ranges::{selection, ChunkRanges};
use crate::select::{encode_selected_rec, selected_bytes};
use crate::stack::HashStack;
use crate::tree::{BaoTree, TreeNode};
use core::marker::PhantomData;
use vstd::prelude::*;

verus! {

/// The stack after the hashes of the children that a walk goes on to are put on it, the left one
/// on top.
pub open spec fn with_children(
    stack: Seq<Digest>,
    pair: (Digest, Digest),
    left: bool,
    right: bool,
) -> Seq<Digest> {
    let a = if right {
        stack.push(pair.1)
    } else {
        stack
    };
    if left {
        a.push(pair.0)
    } else {
        a
    }
}

/// The hash pair of a node, if the outboard has it.
pub open spec fn loaded(load: LoadFn, node: TreeNode) -> Result<(Digest, Digest), EncodeError> {
    match load(node) {
        Err(e) => Err(EncodeError::Io(e)),
        Ok(None) => Err(EncodeError::ParentNotFound(node)),
        Ok(Some(pair)) => Ok(pair),
    }
}

/// Encoding without validation: what is written for the steps `todo`, and the first failure.
pub open spec fn encode_run(load: LoadFn, todo: Seq<BaoChunk>, data: Seq<u8>) -> (
    Seq<u8>,
    Result<(), EncodeError>,
)
    decreases todo.len(),
{
    if todo.len() == 0 {
        (Seq::empty(), Ok(()))
    } else {
        match todo[0] {
            BaoChunk::Parent { node, .. } => match loaded(load, node) {
                Err(e) => (Seq::empty(), Err(e)),
                Ok(pair) => {
                    let (out, res) = encode_run(load, todo.skip(1), data);
                    (pair_bytes(pair.0, pair.1) + out, res)
                },
            },
            BaoChunk::Leaf { start_chunk, size, .. } => match bytes_at(
                data,
                byte_start(start_chunk.0 as int),
                size as int,
            ) {
                Err(e) => (Seq::empty(), Err(EncodeError::Io(e))),
                Ok(bytes) => {
                    let (out, res) = encode_run(load, todo.skip(1), data);
                    (bytes + out, res)
                },
            },
        }
    }
}

/// The hash of the data of a leaf. A leaf that is selected in part is hashed down to its chunks.
pub open spec fn leaf_hash<H: Hasher>(s: u64, bytes: Seq<u8>, is_root: bool, all: bool) -> Digest {
    if all {
        H::chunk_hash(s, bytes, is_root)
    } else {
        tree_hash::<H>(bytes, 1, s as int, is_root)
    }
}

/// What is written for the data of a leaf: all of it, or what is selected, with the hash pairs
/// down to it.
pub open spec fn leaf_bytes<H: Hasher>(
    s: u64,
    bytes: Seq<u8>,
    all: bool,
    g: int,
    sel: Set<int>,
) -> Seq<u8> {
    if all {
        bytes
    } else {
        selected_bytes::<H>(bytes, g, s as int, sel)
    }
}

/// Encoding with validation: what is written for the steps `todo` with the expected hashes on
/// `stack`, and the first failure. Nothing is written of a step that fails.
pub open spec fn validated_run<H: Hasher>(
    load: LoadFn,
    g: int,
    sel: Set<int>,
    todo: Seq<BaoChunk>,
    stack: Seq<Digest>,
    data: Seq<u8>,
) -> (Seq<u8>, Result<(), EncodeError>)
    decreases todo.len(),
{
    if todo.len() == 0 {
        (Seq::empty(), Ok(()))
    } else {
        match todo[0] {
            BaoChunk::Parent { node, is_root, left, right } => match loaded(load, node) {
                Err(e) => (Seq::empty(), Err(e)),
                Ok(pair) => {
                    if H::inner_hash(pair.0, pair.1, is_root) != stack.last() {
                        (Seq::empty(), Err(EncodeError::ParentHashMismatch(node)))
                    } else {
                        let (out, res) = validated_run::<H>(
                            load,
                            g,
                            sel,
                            todo.skip(1),
                            with_children(stack.drop_last(), pair, left, right),
                            data,
                        );
                        (pair_bytes(pair.0, pair.1) + out, res)
                    }
                },
            },
            BaoChunk::Leaf { start_chunk, size, is_root, full } => match bytes_at(
                data,
                byte_start(start_chunk.0 as int),
                size as int,
            ) {
                Err(e) => (Seq::empty(), Err(EncodeError::Io(e))),
                Ok(bytes) => {
                    if leaf_hash::<H>(start_chunk.0, bytes, is_root, full) != stack.last() {
                        (Seq::empty(), Err(EncodeError::LeafHashMismatch(start_chunk)))
                    } else {
                        let (out, res) = validated_run::<H>(
                            load,
                            g,
                            sel,
                            todo.skip(1),
                            stack.drop_last(),
                            data,
                        );
                        (leaf_bytes::<H>(start_chunk.0, bytes, full, g, sel) + out, res)
                    }
                },
            },
        }
    }
}

/// Encoding with validation, between reads and writes.
///
/// `want` says what to read next: the hash pair of a node, for `supply_pair`, or data, for
/// `supply_data`. Both return what to write.
pub struct ValidatedEncoder<H> {
    iter: RangesIter,
    stack: HashStack,
    current: Option<BaoChunk>,
    group: u64,
    hasher: PhantomData<H>,
}

impl<H: Hasher> ValidatedEncoder<H> {
    /// The steps that are left.
    pub closed spec fn todo(&self) -> Seq<BaoChunk> {
        match self.current {
            Some(step) => seq![step] + self.iter.remaining(),
            None => Seq::empty(),
        }
    }

    /// The expected hashes.
    pub closed spec fn expected(&self) -> Seq<Digest> {
        self.stack@
    }

    /// The selected chunks.
    pub closed spec fn sel(&self) -> Set<int> {
        self.iter.walk().sel
    }

    /// Number of chunks in a group.
    pub closed spec fn group(&self) -> int {
        self.group as int
    }

    /// There is an expected hash for each subtree that is still to be visited.
    pub closed spec fn wf(&self) -> bool {
        &&& self.iter.wf()
        &&& 0 <= self.iter.walk().size <= u64::MAX
        &&& self.current matches Some(step) ==> {
            &&& step_fits(self.iter.walk(), step)
            &&& self.stack@.len() >= 1
            &&& match step {
                BaoChunk::Leaf { .. } => self.stack@.len() - 1 == self.iter.pending().len(),
                BaoChunk::Parent { left, right, .. } => self.stack@.len() - 1 + (if left {
                    1int
                } else {
                    0
                }) + (if right {
                    1int
                } else {
                    0
                }) == self.iter.pending().len(),
            }
        }
    }

    /// Starts encoding what `ranges` selects of the blob with the given root hash.
    pub fn new(root: Digest, tree: BaoTree, ranges: &ChunkRanges) -> (res: ValidatedEncoder<H>)
        requires
            tree.wf(),
        ensures
            res.wf(),
            res.todo() == Walk::encode(tree, ranges@).all_steps(),
            res.todo().len() > 0 ==> res.expected() == seq![root],
            res.sel() == selection(ranges@, tree.total()),
            res.group() == tree.group(),
    {
        let mut iter = RangesIter::encode(tree, ranges);
        let ghost all = iter.remaining();
        let mut stack = HashStack::new();
        stack.push(root);
        let current = iter.next();
        assert(stack@ =~= seq![root]);
        let res = ValidatedEncoder {
            iter,
            stack,
            current,
            group: tree.block_size.chunks(),
            hasher: PhantomData,
        };
        assert(res.todo() =~= all);
        res
    }

    /// The data of a leaf lies in the blob.
    pub proof fn lemma_leaf_in_range(&self)
        requires
            self.wf(),
            self.todo().len() > 0,
            self.todo()[0] is Leaf,
        ensures
            self.todo()[0] matches BaoChunk::Leaf { start_chunk, size, .. } && start_chunk.0 * 1024
                + size <= u64::MAX,
    {
    }

    /// What to read next: the hash pair of a node, or data.
    pub fn want(&self) -> (res: Option<BaoChunk>)
        ensures
            res is Some <==> self.todo().len() > 0,
            res matches Some(step) ==> step == self.todo()[0],
    {
        self.current
    }

    fn advance(&mut self)
        requires
            old(self).iter.wf(),
            0 <= old(self).iter.walk().size <= u64::MAX,
            old(self).stack@.len() == old(self).iter.pending().len(),
        ensures
            final(self).wf(),
            final(self).todo() == old(self).iter.remaining(),
            final(self).expected() == old(self).expected(),
            final(self).sel() == old(self).sel(),
            final(self).group() == old(self).group(),
    {
        let ghost all = self.iter.remaining();
        self.current = self.iter.next();
        assert(self.todo() =~= all);
    }

    /// Takes the hash pair of the node that `want` asked for, and returns what to write. `None`
    /// stands for a node that the outboard does not have.
    pub fn supply_pair(&mut self, pair: Option<(Digest, Digest)>) -> (res: Result<
        [u8; 64],
        EncodeError,
    >)
        requires
            old(self).wf(),
            old(self).todo().len() > 0,
            old(self).todo()[0] is Parent,
        ensures
            final(self).wf(),
            final(self).sel() == old(self).sel(),
            final(self).group() == old(self).group(),
            old(self).todo()[0] matches BaoChunk::Parent { node, is_root, left, right } && match pair {
                None => res == Err::<[u8; 64], EncodeError>(EncodeError::ParentNotFound(node))
                    && final(self).todo().len() == 0,
                Some(p) => if H::inner_hash(p.0, p.1, is_root) != old(self).expected().last() {
                    res == Err::<[u8; 64], EncodeError>(EncodeError::ParentHashMismatch(node))
                        && final(self).todo().len() == 0
                } else {
                    &&& res matches Ok(out) && out@ == pair_bytes(p.0, p.1)
                    &&& final(self).todo() == old(self).todo().skip(1)
                    &&& final(self).expected() == with_children(
                        old(self).expected().drop_last(),
                        p,
                        left,
                        right,
                    )
                },
            },
    {
        let ghost todo = self.todo();
        let ghost stack = self.stack@;
        match self.current {
            Some(BaoChunk::Parent { node, is_root, left, right }) => {
                self.current = None;
                match pair {
                    None => Err(EncodeError::ParentNotFound(node)),
                    Some((l_hash, r_hash)) => {
                        let actual = H::hash_inner(&l_hash, &r_hash, is_root);
                        let matched = match self.stack.pop() {
                            Some(expected) => actual.same(&expected),
                            None => false,
                        };
                        if !matched {
                            return Err(EncodeError::ParentHashMismatch(node));
                        }
                        if right {
                            self.stack.push(r_hash);
                        }
                        if left {
                            self.stack.push(l_hash);
                        }
                        assert(todo.skip(1) =~= self.iter.remaining());
                        self.advance();
                        Ok(combine_hash_pair(&l_hash, &r_hash))
                    },
                }
            },
            _ => {
                assert(false);
                Err(EncodeError::Io(IoError::Other))
            },
        }
    }

    /// Takes the data that `want` asked for, and returns what to write.
    pub fn supply_data(&mut self, bytes: &[u8]) -> (res: Result<Vec<u8>, EncodeError>)
        requires
            old(self).wf(),
            old(self).todo().len() > 0,
            old(self).todo()[0] matches BaoChunk::Leaf { size, .. } && size == bytes@.len(),
        ensures
            final(self).wf(),
            final(self).sel() == old(self).sel(),
            final(self).group() == old(self).group(),
            old(self).todo()[0] matches BaoChunk::Leaf { start_chunk, is_root, full, .. }
                && if leaf_hash::<H>(start_chunk.0, bytes@, is_root, full)
                != old(self).expected().last() {
                res == Err::<Vec<u8>, EncodeError>(EncodeError::LeafHashMismatch(start_chunk))
                    && final(self).todo().len() == 0
            } else {
                &&& res matches Ok(out) && out@ == leaf_bytes::<H>(
                    start_chunk.0,
                    bytes@,
                    full,
                    old(self).group(),
                    old(self).sel(),
                )
                &&& final(self).todo() == old(self).todo().skip(1)
                &&& final(self).expected() == old(self).expected().drop_last()
            },
    {
        let ghost todo = self.todo();
        match self.current {
            Some(BaoChunk::Leaf { start_chunk, is_root, full, .. }) => {
                self.current = None;
                let mut out: Vec<u8> = Vec::new();
                let actual: Digest = if full {
                    out.extend_from_slice(bytes);
                    assert(out@ =~= bytes@);
                    H::hash_chunk(start_chunk.0, bytes, is_root)
                } else {
                    let ghost part = selected_bytes::<H>(
                        bytes@,
                        self.group as int,
                        start_chunk.0 as int,
                        self.sel(),
                    );
                    let hash = encode_selected_rec::<H>(
                        start_chunk,
                        bytes,
                        is_root,
                        self.iter.selected(),
                        self.group,
                        &mut out,
                    );
                    assert(out@ =~= part);
                    hash
                };
                let matched = match self.stack.pop() {
                    Some(expected) => actual.same(&expected),
                    None => false,
                };
                if !matched {
                    return Err(EncodeError::LeafHashMismatch(start_chunk));
                }
                assert(todo.skip(1) =~= self.iter.remaining());
                self.advance();
                Ok(out)
            },
            _ => {
                assert(false);
                Err(EncodeError::Io(IoError::Other))
            },
        }
    }
}

/// What encoding without validation writes for a node: the bytes of its hash pair, if the outboard
/// gives one and really has it.
pub fn pair_to_write(node: TreeNode, loaded: Option<(Digest, Digest)>, stored: bool) -> (res: Result<
    [u8; 64],
    EncodeError,
>)
    ensures
        match loaded {
            Some(pair) if stored => res matches Ok(bytes) && bytes@ == pair_bytes(pair.0, pair.1),
            _ => res == Err::<[u8; 64], EncodeError>(EncodeError::ParentNotFound(node)),
        },
{
    match loaded {
        Some((l_hash, r_hash)) => if stored {
            Ok(combine_hash_pair(&l_hash, &r_hash))
        } else {
            Err(EncodeError::ParentNotFound(node))
        },
        None => Err(EncodeError::ParentNotFound(node)),
    }
}

/// Encodes what a query selects of a blob, from its data and an outboard.
///
/// This does not validate, so corrupt data is only found by whoever reads the encoding.
///
/// Data and outboard may be incomplete. This succeeds if what is asked for is there, and fails as
/// soon as something is missing.
pub fn encode_ranges<O: Outboard>(
    data: &[u8],
    outboard: &mut O,
    ranges: &ChunkRanges,
    encoded: &mut Vec<u8>,
) -> (res: Result<(), EncodeError>)
    requires
        O::tree_of(old(outboard)@).wf(),
    ensures
        final(outboard)@ == old(outboard)@,
        ({
            let (out, result) = encode_run(
                stored_loader::<O>(old(outboard)@),
                Walk::encode(O::tree_of(old(outboard)@), ranges@).all_steps(),
                data@,
            );
            final(encoded)@ == old(encoded)@ + out && res == result
        }),
{
    let ghost load = stored_loader::<O>(outboard@);
    let mut steps = RangesIter::encode(outboard.tree(), ranges);
    let ghost whole = encode_run(load, steps.remaining(), data@);
    let ghost before = encoded@;
    let ghost mut written = Seq::<u8>::empty();
    assert(before + written =~= before);
    assert(written + whole.0 =~= whole.0);
    loop
        invariant
            steps.wf(),
            0 <= steps.walk().size <= u64::MAX,
            outboard@ == old(outboard)@,
            O::tree_of(outboard@).wf(),
            load == stored_loader::<O>(old(outboard)@),
            encoded@ == before + written,
            before == old(encoded)@,
            written + encode_run(load, steps.remaining(), data@).0 == whole.0,
            encode_run(load, steps.remaining(), data@).1 == whole.1,
            whole == encode_run(
                load,
                Walk::encode(O::tree_of(old(outboard)@), ranges@).all_steps(),
                data@,
            ),
        decreases steps.remaining().len(),
    {
        let ghost rest = steps.remaining();
        match steps.next() {
            None => {
                assert(written + Seq::<u8>::empty() =~= written);
                return Ok(());
            },
            Some(BaoChunk::Parent { node, .. }) => {
                let loaded_pair = match outboard.load(node) {
                    Err(e) => {
                        assert(written + Seq::<u8>::empty() =~= written);
                        return Err(EncodeError::Io(e));
                    },
                    Ok(loaded_pair) => loaded_pair,
                };
                let stored = outboard.stored(node);
                match pair_to_write(node, loaded_pair, stored) {
                    Err(e) => {
                        assert(written + Seq::<u8>::empty() =~= written);
                        return Err(e);
                    },
                    Ok(pair) => {
                        encoded.extend_from_slice(pair.as_slice());
                        proof {
                            let out = encode_run(load, steps.remaining(), data@).0;
                            assert(written + (pair@ + out) =~= (written + pair@) + out);
                            written = written + pair@;
                            assert(encoded@ =~= before + written);
                        }
                    },
                }
            },
            Some(BaoChunk::Leaf { start_chunk, size, .. }) => {
                let start = start_chunk.to_bytes();
                match read_exact_at(data, start, size) {
                    Err(e) => {
                        assert(written + Seq::<u8>::empty() =~= written);
                        return Err(EncodeError::Io(e));
                    },
                    Ok(bytes) => {
                        encoded.extend_from_slice(bytes);
                        proof {
                            let out = encode_run(load, steps.remaining(), data@).0;
                            assert(written + (bytes@ + out) =~= (written + bytes@) + out);
                            written = written + bytes@;
                            assert(encoded@ =~= before + written);
                        }
                    },
                }
            },
        }
    }
}

/// Encodes what a query selects of a blob, from its data and an outboard, and validates data and
/// hash pairs before they are written.
///
/// Data and outboard may be incomplete. This succeeds if what is asked for is there, and fails as
/// soon as something is missing.
pub fn encode_ranges_validated<O: Outboard>(
    data: &[u8],
    outboard: &mut O,
    ranges: &ChunkRanges,
    encoded: &mut Vec<u8>,
) -> (res: Result<(), EncodeError>)
    requires
        O::tree_of(old(outboard)@).wf(),
    ensures
        final(outboard)@ == old(outboard)@,
        ({
            let tree = O::tree_of(old(outboard)@);
            let (out, result) = validated_run::<O::Hasher>(
                outboard_loader::<O>(old(outboard)@),
                tree.group(),
                selection(ranges@, tree.total()),
                Walk::encode(tree, ranges@).all_steps(),
                seq![O::root_of(old(outboard)@)],
                data@,
            );
            final(encoded)@ == old(encoded)@ + out && res == result
        }),
{
    let ghost load = outboard_loader::<O>(outboard@);
    let tree = outboard.tree();
    let ghost g = tree.group();
    let ghost sel = selection(ranges@, tree.total());
    let mut encoder = ValidatedEncoder::<O::Hasher>::new(outboard.root(), tree, ranges);
    let ghost whole = validated_run::<O::Hasher>(
        load,
        g,
        sel,
        encoder.todo(),
        seq![O::root_of(outboard@)],
        data@,
    );
    let ghost before = encoded@;
    let ghost mut written = Seq::<u8>::empty();
    assert(before + written =~= before);
    assert(written + whole.0 =~= whole.0);
    loop
        invariant
            encoder.wf(),
            encoder.sel() == sel,
            encoder.group() == g,
            outboard@ == old(outboard)@,
            O::tree_of(outboard@).wf(),
            load == outboard_loader::<O>(old(outboard)@),
            tree == O::tree_of(old(outboard)@),
            g == tree.group(),
            sel == selection(ranges@, tree.total()),
            encoded@ == before + written,
            before == old(encoded)@,
            ({
                let (out, result) = validated_run::<O::Hasher>(
                    load,
                    g,
                    sel,
                    encoder.todo(),
                    encoder.expected(),
                    data@,
                );
                written + out == whole.0 && result == whole.1
            }),
            whole == validated_run::<O::Hasher>(
                load,
                g,
                sel,
                Walk::encode(tree, ranges@).all_steps(),
                seq![O::root_of(old(outboard)@)],
                data@,
            ),
        decreases encoder.todo().len(),
    {
        assert(written + Seq::<u8>::empty() =~= written);
        match encoder.want() {
            None => {
                return Ok(());
            },
            Some(BaoChunk::Parent { node, .. }) => {
                let pair = match outboard.load(node) {
                    Err(e) => {
                        return Err(EncodeError::Io(e));
                    },
                    Ok(pair) => pair,
                };
                match encoder.supply_pair(pair) {
                    Err(e) => {
                        return Err(e);
                    },
                    Ok(bytes) => {
                        encoded.extend_from_slice(bytes.as_slice());
                        proof {
                            let out = validated_run::<O::Hasher>(
                                load,
                                g,
                                sel,
                                encoder.todo(),
                                encoder.expected(),
                                data@,
                            ).0;
                            assert(written + (bytes@ + out) =~= (written + bytes@) + out);
                            written = written + bytes@;
                            assert(encoded@ =~= before + written);
                        }
                    },
                }
            },
            Some(BaoChunk::Leaf { start_chunk, size, .. }) => {
                proof {
                    encoder.lemma_leaf_in_range();
                }
                let start = start_chunk.to_bytes();
                let bytes = match read_exact_at(data, start, size) {
                    Err(e) => {
                        return Err(EncodeError::Io(e));
                    },
                    Ok(bytes) => bytes,
                };
                match encoder.supply_data(bytes) {
                    Err(e) => {
                        return Err(e);
                    },
                    Ok(to_write) => {
                        encoded.extend_from_slice(to_write.as_slice());
                        proof {
                            let out = validated_run::<O::Hasher>(
                                load,
                                g,
                                sel,
                                encoder.todo(),
                                encoder.expected(),
                                data@,
                            ).0;
                            assert(written + (to_write@ + out) =~= (written + to_write@) + out);
                            written = written + to_write@;
                            assert(encoded@ =~= before + written);
                        }
                    },
                }
            },
        }
    }
}

} // verus!
