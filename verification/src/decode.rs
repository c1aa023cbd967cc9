//! Decoding a response.
use crate::content::{write_at, write_over, BaoContentItem, Content, Leaf, Parent};
use crate::encode::with_children;
use crate::error::{DecodeError, IoError};
use crate::geometry::{byte_start, tree_chunks};
use crate::hash::{pair_of, read_parent, Digest, Hasher};
use crate::iter::{lemma_leaf_count, step_fits, BaoChunk, RangesIter, Walk};
use crate::outboard::{Outboard, OutboardMut};
use crate::ranges::ChunkRanges;
use crate::stack::HashStack;
use crate::tree::BaoTree;
use core::marker::PhantomData;
use vstd::prelude::*;
use vstd::slice::{slice_subrange, slice_to_vec};

verus! {

/// Number of bytes that a response holds for a step.
pub open spec fn step_bytes(step: BaoChunk) -> int {
    match step {
        BaoChunk::Parent { .. } => 64,
        BaoChunk::Leaf { size, .. } => size as int,
    }
}

/// The stack without the hash on top.
pub open spec fn below_top(stack: Seq<Digest>) -> Seq<Digest> {
    if stack.len() == 0 {
        stack
    } else {
        stack.drop_last()
    }
}

/// The hash on top of the stack is this one.
pub open spec fn expects(stack: Seq<Digest>, hash: Digest) -> bool {
    stack.len() > 0 && stack.last() == hash
}

/// Decoding a step from what was read for it, with the expected hashes on `stack`: the expected
/// hashes after it, and the item or the failure. The children of a parent are expected even if its
/// hash is wrong; a failed read leaves the expected hashes as they are. Where no hash is expected,
/// none matches.
pub open spec fn decode_step<H: Hasher>(
    step: BaoChunk,
    stack: Seq<Digest>,
    read: Result<Seq<u8>, IoError>,
) -> (Seq<Digest>, Result<Content, DecodeError>) {
    let read = match read {
        Ok(bytes) => if bytes.len() == step_bytes(step) {
            Ok(bytes)
        } else {
            Err(IoError::UnexpectedEof)
        },
        Err(e) => Err(e),
    };
    match step {
        BaoChunk::Parent { node, is_root, left, right } => match read {
            Err(e) => (stack, Err(DecodeError::parent_read(e, node))),
            Ok(bytes) => {
                let pair = pair_of(bytes);
                let after = with_children(below_top(stack), pair, left, right);
                if !expects(stack, H::inner_hash(pair.0, pair.1, is_root)) {
                    (after, Err(DecodeError::ParentHashMismatch(node)))
                } else {
                    (after, Ok(Content::Parent { node, pair }))
                }
            },
        },
        BaoChunk::Leaf { start_chunk, is_root, .. } => match read {
            Err(e) => (stack, Err(DecodeError::leaf_read(e, start_chunk))),
            Ok(bytes) => if !expects(stack, H::chunk_hash(start_chunk.0, bytes, is_root)) {
                (below_top(stack), Err(DecodeError::LeafHashMismatch(start_chunk)))
            } else {
                (
                    below_top(stack),
                    Ok(
                        Content::Leaf {
                            offset: byte_start(start_chunk.0 as int) as u64,
                            data: bytes,
                        },
                    ),
                )
            },
        },
    }
}

/// A response decoder.
///
/// Each call of `next` takes what was read from the response: `want` says how many bytes that is.
#[verifier::reject_recursive_types(H)]
pub struct ResponseDecoder<R, H> {
    iter: RangesIter,
    stack: HashStack,
    current: Option<BaoChunk>,
    hash: Digest,
    encoded: R,
    hasher: PhantomData<H>,
}

/// What `ResponseDecoder::next` returns.
#[verifier::reject_recursive_types(H)]
pub enum ResponseDecoderNext<R, H> {
    /// One more item, and the decoder in its next state.
    More((ResponseDecoder<R, H>, Result<BaoContentItem, DecodeError>)),
    /// The response is done, and this is the underlying reader.
    Done(R),
}

/// What an item says, if there is one.
pub open spec fn item_view(item: Result<BaoContentItem, DecodeError>) -> Result<
    Content,
    DecodeError,
> {
    match item {
        Ok(content) => Ok(content@),
        Err(e) => Err(e),
    }
}

/// What was read, if it was.
pub open spec fn read_view(read: Result<Vec<u8>, IoError>) -> Result<Seq<u8>, IoError> {
    match read {
        Ok(bytes) => Ok(bytes@),
        Err(e) => Err(e),
    }
}

impl<R, H: Hasher> ResponseDecoder<R, H> {
    /// The steps that are left.
    pub closed spec fn todo(&self) -> Seq<BaoChunk> {
        match self.current {
            Some(step) => seq![step] + self.iter.remaining(),
            None => Seq::empty(),
        }
    }

    /// The expected hashes.
    pub closed spec fn expected(&self) -> Seq<Digest> {
        self.stack@
    }

    /// The hash of the blob.
    pub closed spec fn blob_hash(&self) -> Digest {
        self.hash
    }

    /// The underlying reader.
    pub closed spec fn reader(&self) -> R {
        self.encoded
    }

    /// The tree.
    pub closed spec fn spec_tree(&self) -> BaoTree {
        self.iter.spec_tree()
    }

    /// What is still to be decoded fits the tree.
    pub closed spec fn wf(&self) -> bool {
        &&& self.iter.wf()
        &&& self.iter.walk().size == self.iter.spec_tree().size
        &&& self.current matches Some(step) ==> step_fits(self.iter.walk(), step)
    }

    /// Creates a decoder, when the size is already known.
    ///
    /// The size as well as the block size is given in the tree.
    pub fn new(hash: Digest, ranges: &ChunkRanges, tree: BaoTree, encoded: R) -> (res: Self)
        requires
            tree.wf(),
        ensures
            res.wf(),
            res.todo() == Walk::response(tree, ranges@).all_steps(),
            res.expected() == seq![hash],
            res.blob_hash() == hash,
            res.reader() == encoded,
            res.spec_tree() == tree,
    {
        let mut iter = RangesIter::response(tree, ranges);
        let ghost all = iter.remaining();
        let mut stack = HashStack::new();
        stack.push(hash);
        let current = iter.next();
        assert(stack@ =~= seq![hash]);
        let res = ResponseDecoder { iter, stack, current, hash, encoded, hasher: PhantomData };
        assert(res.todo() =~= all);
        res
    }

    /// Number of bytes to read from the response for the next call of `next`.
    pub fn want(&self) -> (res: Option<u64>)
        ensures
            res is Some <==> self.todo().len() > 0,
            res matches Some(n) ==> n == step_bytes(self.todo()[0]),
            res matches Some(n) ==> match self.todo()[0] {
                BaoChunk::Parent { .. } => n == 64,
                BaoChunk::Leaf { size, .. } => n == size,
            },
    {
        match self.current {
            Some(BaoChunk::Parent { .. }) => Some(64),
            Some(BaoChunk::Leaf { size, .. }) => Some(size),
            None => None,
        }
    }

    /// The underlying reader, to read from.
    pub fn encoded(&mut self) -> (res: &mut R)
        ensures
            *res == old(self).reader(),
            final(self).reader() == *final(res),
            final(self).todo() == old(self).todo(),
            final(self).expected() == old(self).expected(),
            final(self).blob_hash() == old(self).blob_hash(),
            final(self).spec_tree() == old(self).spec_tree(),
            final(self).wf() == old(self).wf(),
    {
        &mut self.encoded
    }

    /// Proceeds to the next state with what was read from the response. Once the response is done,
    /// what was read does not matter.
    ///
    /// Decoding can go on after any failure. After an item whose hash is wrong, what comes next is
    /// checked as if it were right. After something that could not be read, what comes next is
    /// checked against the hash that was expected for that.
    pub fn next(self, read: Result<Vec<u8>, IoError>) -> (res: ResponseDecoderNext<R, H>)
        requires
            self.wf(),
        ensures
            res is Done <==> self.todo().len() == 0,
            res matches ResponseDecoderNext::Done(reader) ==> reader == self.reader(),
            res matches ResponseDecoderNext::More((next, item)) ==> {
                &&& next.wf()
                &&& next.todo() == self.todo().skip(1)
                &&& (next.expected(), item_view(item)) == decode_step::<H>(
                    self.todo()[0],
                    self.expected(),
                    read_view(read),
                )
                &&& next.blob_hash() == self.blob_hash()
                &&& next.reader() == self.reader()
                &&& next.spec_tree() == self.spec_tree()
                &&& item matches Ok(BaoContentItem::Leaf(leaf)) ==> leaf.offset + leaf.data@.len()
                    <= self.spec_tree().size
                &&& item matches Ok(BaoContentItem::Leaf(leaf)) ==> (self.todo()[0] matches BaoChunk::Leaf {
                    start_chunk,
                    size,
                    ..
                } && leaf.offset == 1024 * start_chunk.0 && leaf.data@.len() == size && (
                read matches Ok(bytes) && leaf.data@ == bytes@))
                &&& item matches Ok(BaoContentItem::Parent(parent)) ==> (
                self.todo()[0] matches BaoChunk::Parent { node, .. } && parent.node == node && (
                read matches Ok(bytes) && parent.pair.0@ + parent.pair.1@ == bytes@))
            },
    {
        match self.current {
            None => {
                ResponseDecoderNext::Done(self.encoded)
            },
            Some(chunk) => {
                let mut this = self;
                let ghost todo = this.todo();
                let ghost walk = this.iter.walk();
                let item = this.next0(chunk, read);
                let ghost rest = this.iter.remaining();
                this.current = this.iter.next();
                assert(todo.skip(1) =~= rest);
                assert(this.todo() =~= rest);
                ResponseDecoderNext::More((this, item))
            },
        }
    }

    /// Returns the underlying reader at once.
    pub fn finish(self) -> (res: R)
        ensures
            res == self.reader(),
    {
        self.encoded
    }

    /// The tree.
    pub fn tree(&self) -> (res: BaoTree)
        ensures
            res == self.spec_tree(),
    {
        self.iter.tree()
    }

    /// The hash of the blob that is being decoded.
    pub fn hash(&self) -> (res: &Digest)
        ensures
            *res == self.blob_hash(),
    {
        &self.hash
    }

    /// Decodes a step from what was read for it.
    fn next0(&mut self, chunk: BaoChunk, read: Result<Vec<u8>, IoError>) -> (res: Result<
        BaoContentItem,
        DecodeError,
    >)
        requires
            step_fits(old(self).iter.walk(), chunk),
            old(self).iter.walk().size == old(self).iter.spec_tree().size,
        ensures
            final(self).iter == old(self).iter,
            final(self).current == old(self).current,
            final(self).hash == old(self).hash,
            final(self).encoded == old(self).encoded,
            (final(self).stack@, item_view(res)) == decode_step::<H>(
                chunk,
                old(self).stack@,
                read_view(read),
            ),
            res matches Ok(BaoContentItem::Leaf(leaf)) ==> leaf.offset + leaf.data@.len()
                <= old(self).iter.spec_tree().size,
            res matches Ok(BaoContentItem::Leaf(leaf)) ==> (chunk matches BaoChunk::Leaf {
                start_chunk,
                size,
                ..
            } && leaf.offset == 1024 * start_chunk.0 && leaf.data@.len() == size && (
            read matches Ok(bytes) && leaf.data@ == bytes@)),
            res matches Ok(BaoContentItem::Parent(parent)) ==> (chunk matches BaoChunk::Parent {
                node,
                ..
            } && parent.node == node && (read matches Ok(bytes) && parent.pair.0@ + parent.pair.1@
                == bytes@)),
    {
        match chunk {
            BaoChunk::Parent { is_root, right, left, node } => {
                let buf = match read {
                    Ok(buf) => buf,
                    Err(e) => {
                        return Err(DecodeError::maybe_parent_not_found(e, node));
                    },
                };
                if buf.len() != 64 {
                    return Err(DecodeError::maybe_parent_not_found(IoError::UnexpectedEof, node));
                }
                let pair = read_parent(buf.as_slice());
                assert(pair.0@ + pair.1@ =~= buf@);
                let parent_hash = self.stack.pop();
                let actual = H::hash_inner(&pair.0, &pair.1, is_root);
                // the children go on in reverse order, so that they come off in the right one
                if right {
                    self.stack.push(pair.1);
                }
                if left {
                    self.stack.push(pair.0);
                }
                // the check comes after the children are on the stack, so that decoding could go on
                let matched = match parent_hash {
                    Some(expected) => expected.same(&actual),
                    None => false,
                };
                if !matched {
                    return Err(DecodeError::ParentHashMismatch(node));
                }
                Ok(BaoContentItem::Parent(Parent { node, pair }))
            },
            BaoChunk::Leaf { size, is_root, start_chunk, .. } => {
                let data = match read {
                    Ok(data) => data,
                    Err(e) => {
                        return Err(DecodeError::maybe_leaf_not_found(e, start_chunk));
                    },
                };
                if data.len() as u64 != size {
                    return Err(
                        DecodeError::maybe_leaf_not_found(IoError::UnexpectedEof, start_chunk),
                    );
                }
                let leaf_hash = self.stack.pop();
                let actual = H::hash_chunk(start_chunk.0, data.as_slice(), is_root);
                let matched = match leaf_hash {
                    Some(expected) => expected.same(&actual),
                    None => false,
                };
                if !matched {
                    return Err(DecodeError::LeafHashMismatch(start_chunk));
                }
                proof {
                    let s = start_chunk.0 as int;
                    let m = tree_chunks(size as int);
                    lemma_leaf_count(self.iter.walk().size, s, m);
                }
                Ok(BaoContentItem::Leaf(Leaf { offset: start_chunk.to_bytes(), data }))
            },
        }
    }
}

/// What is read for a step from the rest of a response.
pub open spec fn read_step(step: BaoChunk, encoded: Seq<u8>) -> Result<Seq<u8>, IoError> {
    if step_bytes(step) <= encoded.len() {
        Ok(encoded.take(step_bytes(step)))
    } else {
        Err(IoError::UnexpectedEof)
    }
}

/// Decoding the rest of a response, with the steps `todo` left and the expected hashes on `stack`,
/// into a target and an outboard: both after it, and the first failure.
pub open spec fn decode_run<O: Outboard + OutboardMut>(
    todo: Seq<BaoChunk>,
    stack: Seq<Digest>,
    encoded: Seq<u8>,
    target: Seq<u8>,
    st: <O as View>::V,
) -> (Seq<u8>, <O as View>::V, Result<(), DecodeError>)
    decreases todo.len(),
{
    if todo.len() == 0 {
        (target, st, Ok(()))
    } else {
        let step = todo[0];
        let (after, item) = decode_step::<<O as Outboard>::Hasher>(
            step,
            stack,
            read_step(step, encoded),
        );
        match item {
            Err(e) => (target, st, Err(e)),
            Ok(Content::Parent { node, pair }) => {
                let (st1, res) = O::saved(st, node, pair);
                match res {
                    Err(e) => (target, st1, Err(DecodeError::Io(e))),
                    Ok(_) => decode_run::<O>(
                        todo.skip(1),
                        after,
                        encoded.skip(step_bytes(step)),
                        target,
                        st1,
                    ),
                }
            },
            Ok(Content::Leaf { offset, data }) => decode_run::<O>(
                todo.skip(1),
                after,
                encoded.skip(step_bytes(step)),
                write_over(target, offset as int, data),
                st,
            ),
        }
    }
}

/// Decodes a response into a target while updating an outboard.
pub fn decode_ranges<O: Outboard + OutboardMut>(
    encoded: &[u8],
    ranges: &ChunkRanges,
    target: &mut Vec<u8>,
    outboard: &mut O,
) -> (res: Result<(), DecodeError>)
    requires
        O::tree_of(old(outboard)@).wf(),
        O::tree_of(old(outboard)@).size <= usize::MAX,
        O::can_save(old(outboard)@),
    ensures
        (final(target)@, final(outboard)@, res) == decode_run::<O>(
            Walk::response(O::tree_of(old(outboard)@), ranges@).all_steps(),
            seq![O::root_of(old(outboard)@)],
            encoded@,
            old(target)@,
            old(outboard)@,
        ),
        O::can_save(final(outboard)@),
{
    let tree = outboard.tree();
    let mut reading = ResponseDecoder::<(), <O as Outboard>::Hasher>::new(
        outboard.root(),
        ranges,
        tree,
        (),
    );
    let ghost whole = decode_run::<O>(
        reading.todo(),
        reading.expected(),
        encoded@,
        target@,
        outboard@,
    );
    let mut pos: usize = 0;
    assert(encoded@.skip(0) =~= encoded@);
    loop
        invariant
            reading.wf(),
            reading.spec_tree() == tree,
            tree.size <= usize::MAX,
            O::can_save(outboard@),
            pos <= encoded@.len(),
            decode_run::<O>(
                reading.todo(),
                reading.expected(),
                encoded@.skip(pos as int),
                target@,
                outboard@,
            ) == whole,
            whole == decode_run::<O>(
                Walk::response(O::tree_of(old(outboard)@), ranges@).all_steps(),
                seq![O::root_of(old(outboard)@)],
                encoded@,
                old(target)@,
                old(outboard)@,
            ),
        decreases reading.todo().len(),
    {
        let size: u64 = match reading.want() {
            Some(size) => size,
            None => 0,
        };
        let left: u64 = (encoded.len() - pos) as u64;
        let read: Result<Vec<u8>, IoError> = if size <= left {
            let buf = slice_subrange(encoded, pos, pos + size as usize);
            pos = pos + size as usize;
            Ok(slice_to_vec(buf))
        } else {
            Err(IoError::UnexpectedEof)
        };
        let ghost todo = reading.todo();
        proof {
            if todo.len() > 0 && size <= left {
                let rest = encoded@.skip(pos - size);
                assert(rest.take(size as int) =~= encoded@.subrange(pos - size, pos as int));
                assert(rest.skip(size as int) =~= encoded@.skip(pos as int));
            }
        }
        let item = match reading.next(read) {
            ResponseDecoderNext::Done(_reader) => {
                return Ok(());
            },
            ResponseDecoderNext::More((next, item)) => {
                reading = next;
                match item {
                    Ok(item) => item,
                    Err(e) => {
                        return Err(e);
                    },
                }
            },
        };
        match item {
            BaoContentItem::Parent(Parent { node, pair }) => {
                match outboard.save(node, &pair) {
                    Ok(_) => {},
                    Err(e) => {
                        return Err(DecodeError::Io(e));
                    },
                }
            },
            BaoContentItem::Leaf(Leaf { offset, data }) => {
                write_at(target, offset, data.as_slice());
            },
        }
    }
}

} // verus!
