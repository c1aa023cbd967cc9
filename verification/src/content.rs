//! The items of a response, and reads and writes of byte sequences.
use crate::error::IoError;
use crate::hash::Digest;
use crate::tree::TreeNode;
use vstd::prelude::*;
use vstd::slice::slice_subrange;

verus! {

/// Data of a blob.
#[derive(Debug)]
pub struct Leaf {
    /// Where the data starts in the blob.
    pub offset: u64,
    /// The data.
    pub data: Vec<u8>,
}

/// The hash pair of a node.
#[derive(Clone, Copy, Debug)]
pub struct Parent {
    /// The node.
    pub node: TreeNode,
    /// The hashes of its two children.
    pub pair: (Digest, Digest),
}

/// An item of a response.
#[derive(Debug)]
pub enum BaoContentItem {
    /// The hash pair of a node.
    Parent(Parent),
    /// Data of the blob.
    Leaf(Leaf),
}

/// An item of a response, as mathematics.
pub enum Content {
    Parent { node: TreeNode, pair: (Digest, Digest) },
    Leaf { offset: u64, data: Seq<u8> },
}

impl View for BaoContentItem {
    type V = Content;

    open spec fn view(&self) -> Content {
        match *self {
            BaoContentItem::Parent(p) => Content::Parent { node: p.node, pair: p.pair },
            BaoContentItem::Leaf(l) => Content::Leaf { offset: l.offset, data: l.data@ },
        }
    }
}

/// The `size` bytes of `data` from `start` on, if they are there.
pub open spec fn bytes_at(data: Seq<u8>, start: int, size: int) -> Result<Seq<u8>, IoError> {
    if start + size <= data.len() {
        Ok(data.subrange(start, start + size))
    } else {
        Err(IoError::UnexpectedEof)
    }
}

/// `target` with `data` written over it from `offset` on. A gap before `offset` is filled with
/// zeros.
pub open spec fn write_over(target: Seq<u8>, offset: int, data: Seq<u8>) -> Seq<u8> {
    Seq::new(
        if target.len() >= offset + data.len() {
            target.len()
        } else {
            (offset + data.len()) as nat
        },
        |i: int|
            if offset <= i < offset + data.len() {
                data[i - offset]
            } else if i < target.len() {
                target[i]
            } else {
                0u8
            },
    )
}

/// Reads exactly `size` bytes from `start` on.
pub fn read_exact_at(data: &[u8], start: u64, size: u64) -> (res: Result<&[u8], IoError>)
    ensures
        match res {
            Ok(bytes) => bytes_at(data@, start as int, size as int) == Ok::<Seq<u8>, IoError>(
                bytes@,
            ),
            Err(e) => bytes_at(data@, start as int, size as int) == Err::<Seq<u8>, IoError>(e),
        },
        start + size <= data@.len() ==> (res matches Ok(bytes) && bytes@ == data@.subrange(
            start as int,
            start + size,
        )),
        start + size > data@.len() ==> (res matches Err(e) && e == IoError::UnexpectedEof),
{
    let len: u64 = data.len() as u64;
    if start > len || size > len - start {
        return Err(IoError::UnexpectedEof);
    }
    Ok(slice_subrange(data, start as usize, (start + size) as usize))
}

/// Writes `data` over `target` from `offset` on.
pub fn write_at(target: &mut Vec<u8>, offset: u64, data: &[u8])
    requires
        offset + data@.len() <= usize::MAX,
    ensures
        final(target)@ == write_over(old(target)@, offset as int, data@),
        final(target)@.len() == old(target)@.len() || final(target)@.len() == offset + data@.len(),
        final(target)@.len() >= old(target)@.len(),
        final(target)@.len() >= offset + data@.len(),
        forall|i: int| 0 <= i < data@.len() ==> final(target)@[offset + i] == #[trigger] data@[i],
        forall|i: int|
            0 <= i < old(target)@.len() && !(offset <= i < offset + data@.len())
                ==> #[trigger] final(target)@[i] == old(target)@[i],
        forall|i: int| old(target)@.len() <= i < offset ==> #[trigger] final(target)@[i] == 0,
{
    let start: usize = offset as usize;
    let end: usize = start + data.len();
    let ghost before = target@;
    while target.len() < end
        invariant
            before.len() <= target@.len(),
            target@.len() <= end || target@.len() == before.len(),
            forall|i: int| 0 <= i < before.len() ==> target@[i] == before[i],
            forall|i: int| before.len() <= i < target@.len() ==> target@[i] == 0,
        decreases end - target@.len(),
    {
        target.push(0);
    }
    let ghost grown = target@;
    let mut i: usize = 0;
    while i < data.len()
        invariant
            i <= data@.len(),
            end == start + data@.len(),
            end <= target@.len(),
            target@.len() == grown.len(),
            forall|j: int| 0 <= j < i ==> target@[start + j] == data@[j],
            forall|j: int|
                0 <= j < grown.len() && !(start <= j < start + i) ==> target@[j] == grown[j],
        decreases data@.len() - i,
    {
        target[start + i] = data[i];
        i = i + 1;
    }
    let ghost want = write_over(before, offset as int, data@);
    assert(start == offset);
    assert(target@ =~= want) by {
        assert(target@.len() == want.len());
        assert forall|j: int| 0 <= j < want.len() && !(start <= j < end) implies target@[j]
            == want[j] by {
            assert(target@[j] == grown[j]);
        }
        assert forall|j: int| start <= j < end implies target@[j] == data@[j - start] by {
            assert(target@[start + (j - start)] == data@[j - start]);
        }
    }
}

} // verus!
