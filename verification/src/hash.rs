//! Hashes, pairs of hashes, and hashers.
use crate::error::IoError;
use crate::geometry::{lemma_split_point, split_point, tree_chunks};
use vstd::array::spec_array_update;
use vstd::prelude::*;

verus! {

/// A hash of 32 bytes.
#[derive(Clone, Copy, Debug, PartialEq, Eq)]
pub struct Digest(pub [u8; 32]);

impl View for Digest {
    type V = Seq<u8>;

    open spec fn view(&self) -> Seq<u8> {
        self.0@
    }
}

/// The hash with these bytes.
pub open spec fn hash_of(bytes: Seq<u8>) -> Digest {
    choose|h: Digest| h@ == bytes
}

/// The two hashes that follow each other in 64 bytes.
pub open spec fn pair_of(bytes: Seq<u8>) -> (Digest, Digest) {
    (hash_of(bytes.subrange(0, 32)), hash_of(bytes.subrange(32, 64)))
}

/// The bytes of a pair of hashes.
pub open spec fn pair_bytes(l: Digest, r: Digest) -> Seq<u8> {
    l@ + r@
}

/// The hash of 32 zero bytes.
pub open spec fn zero_hash() -> Digest {
    hash_of(Seq::new(32, |i: int| 0u8))
}

/// A hash is determined by its bytes.
pub proof fn lemma_hash_of(h: Digest)
    ensures
        hash_of(h@) == h,
{
    let other = hash_of(h@);
    assert(other@ == h@);
    assert(other.0 =~= h.0) by {
        assert forall|i: int| 0 <= i < 32 implies other.0[i] == h.0[i] by {
            assert(other@[i] == h@[i]);
        }
    }
}

/// An array that agrees with `bytes` on its first `k` bytes.
proof fn lemma_array_of(bytes: Seq<u8>, k: int) -> (a: [u8; 32])
    requires
        bytes.len() == 32,
        0 <= k <= 32,
    ensures
        forall|i: int| 0 <= i < k ==> a@[i] == bytes[i],
    decreases k,
{
    if k == 0 {
        arbitrary()
    } else {
        let b = lemma_array_of(bytes, k - 1);
        let a = spec_array_update(b, k - 1, bytes[k - 1]);
        assert(a@ == b@.update(k - 1, bytes[k - 1]));
        a
    }
}

/// Any 32 bytes are the bytes of a hash.
pub proof fn lemma_hash_bytes(bytes: Seq<u8>)
    requires
        bytes.len() == 32,
    ensures
        hash_of(bytes)@ == bytes,
{
    let h = Digest(lemma_array_of(bytes, 32));
    assert(h@ =~= bytes);
}

/// Reading a pair from the bytes of a pair gives the pair back.
pub proof fn lemma_pair_of(l: Digest, r: Digest)
    ensures
        pair_of(pair_bytes(l, r)) == (l, r),
        pair_bytes(l, r).len() == 64,
{
    assert(pair_bytes(l, r).subrange(0, 32) =~= l@);
    assert(pair_bytes(l, r).subrange(32, 64) =~= r@);
    lemma_hash_of(l);
    lemma_hash_of(r);
}

impl Digest {
    /// True if the two hashes have the same bytes.
    pub fn same(&self, other: &Digest) -> (res: bool)
        ensures
            res == (*self == *other),
    {
        let mut i: usize = 0;
        while i < 32
            invariant
                i <= 32,
                forall|j: int| 0 <= j < i ==> self.0[j] == other.0[j],
            decreases 32 - i,
        {
            if self.0[i] != other.0[i] {
                return false;
            }
            i = i + 1;
        }
        assert(self.0 =~= other.0);
        true
    }

    /// The hash of 32 zero bytes.
    pub fn zero() -> (res: Digest)
        ensures
            res == zero_hash(),
            forall|i: int| 0 <= i < 32 ==> res@[i] == 0,
    {
        let mut bytes: [u8; 32] = [0u8; 32];
        let mut i: usize = 0;
        while i < 32
            invariant
                i <= 32,
                forall|j: int| 0 <= j < i ==> bytes@[j] == 0u8,
            decreases 32 - i,
        {
            bytes[i] = 0;
            i = i + 1;
        }
        let res = Digest(bytes);
        proof {
            assert(res@ =~= Seq::new(32, |i: int| 0u8));
            lemma_hash_of(res);
        }
        res
    }
}

/// The hash in the 32 bytes of `buf` from `start` on.
fn read_hash(buf: &[u8], start: usize) -> (res: Digest)
    requires
        start + 32 <= buf@.len(),
    ensures
        res == hash_of(buf@.subrange(start as int, start + 32)),
        res@ == buf@.subrange(start as int, start + 32),
{
    let mut bytes: [u8; 32] = [0u8; 32];
    let mut i: usize = 0;
    while i < 32
        invariant
            i <= 32,
            start + 32 <= buf.len(),
            forall|j: int| 0 <= j < i ==> bytes@[j] == buf@[start + j],
        decreases 32 - i,
    {
        bytes[i] = buf[start + i];
        i = i + 1;
    }
    let res = Digest(bytes);
    proof {
        assert(res@ =~= buf@.subrange(start as int, start + 32));
        lemma_hash_of(res);
    }
    res
}

/// Reads the hash pair of a parent from the first 64 bytes of a buffer.
pub fn read_parent(buf: &[u8]) -> (res: (Digest, Digest))
    requires
        buf@.len() >= 64,
    ensures
        res == pair_of(buf@),
        res.0@ == buf@.subrange(0, 32),
        res.1@ == buf@.subrange(32, 64),
{
    (read_hash(buf, 0), read_hash(buf, 32))
}

/// Reads a hash pair from a buffer of 64 bytes.
pub fn parse_hash_pair(buf: &[u8]) -> (res: Result<(Digest, Digest), IoError>)
    ensures
        res == (if buf@.len() == 64 {
            Ok::<(Digest, Digest), IoError>(pair_of(buf@))
        } else {
            Err(IoError::UnexpectedEof)
        }),
        buf@.len() == 64 ==> (res matches Ok(pair) && pair.0@ + pair.1@ == buf@),
{
    if buf.len() != 64 {
        return Err(IoError::UnexpectedEof);
    }
    let pair = read_parent(buf);
    assert(pair.0@ + pair.1@ =~= buf@);
    Ok(pair)
}

/// The 64 bytes of a hash pair.
pub fn combine_hash_pair(l: &Digest, r: &Digest) -> (res: [u8; 64])
    ensures
        res@ == pair_bytes(*l, *r),
        res@ == l@ + r@,
{
    let mut buf: [u8; 64] = [0u8; 64];
    let mut i: usize = 0;
    while i < 32
        invariant
            i <= 32,
            forall|j: int| 0 <= j < i ==> buf@[j] == l@[j] && buf@[32 + j] == r@[j],
        decreases 32 - i,
    {
        buf[i] = l.0[i];
        buf[32 + i] = r.0[i];
        i = i + 1;
    }
    assert(buf@ =~= pair_bytes(*l, *r));
    buf
}

/// A hash function for chunks and for pairs of hashes.
pub trait Hasher {
    /// Number of bytes that a leaf of the hash function's own tree holds.
    const CHUNK_SIZE: usize;

    /// The hash of the data from the chunk `start_chunk` on.
    spec fn chunk_hash(start_chunk: u64, data: Seq<u8>, is_root: bool) -> Digest;

    /// The hash of a pair of hashes.
    spec fn inner_hash(left: Digest, right: Digest, is_root: bool) -> Digest;

    /// Hashes the data from the chunk `start_chunk` on.
    fn hash_chunk(start_chunk: u64, data: &[u8], is_root: bool) -> (res: Digest)
        ensures
            res == Self::chunk_hash(start_chunk, data@, is_root),
    ;

    /// Hashes a pair of hashes.
    fn hash_inner(left_child: &Digest, right_child: &Digest, is_root: bool) -> (res: Digest)
        ensures
            res == Self::inner_hash(*left_child, *right_child, is_root),
    ;
}

/// Number of chunks in the tree over `bytes`.
pub open spec fn chunk_count(bytes: Seq<u8>) -> int {
    tree_chunks(bytes.len() as int)
}

/// The bytes of the left child of the tree over `bytes`, which has at least two chunks.
pub open spec fn left_half(bytes: Seq<u8>) -> Seq<u8> {
    bytes.take(1024 * split_point(chunk_count(bytes)))
}

/// The bytes of the right child of the tree over `bytes`, which has at least two chunks.
pub open spec fn right_half(bytes: Seq<u8>) -> Seq<u8> {
    bytes.skip(1024 * split_point(chunk_count(bytes)))
}

/// The two halves make up the whole, and have the chunks of the two children.
pub proof fn lemma_halves(bytes: Seq<u8>)
    requires
        chunk_count(bytes) >= 2,
    ensures
        left_half(bytes) + right_half(bytes) == bytes,
        left_half(bytes).len() == 1024 * split_point(chunk_count(bytes)),
        0 < left_half(bytes).len() < bytes.len(),
        0 < right_half(bytes).len() < bytes.len(),
        chunk_count(left_half(bytes)) == split_point(chunk_count(bytes)),
        chunk_count(right_half(bytes)) == chunk_count(bytes) - split_point(chunk_count(bytes)),
{
    lemma_split_point(chunk_count(bytes));
    assert(left_half(bytes) + right_half(bytes) =~= bytes);
}

/// The hash of the tree over `bytes` with groups of `g` chunks as its leaves. The first chunk has
/// the number `s`.
pub open spec fn tree_hash<H: Hasher>(bytes: Seq<u8>, g: int, s: int, is_root: bool) -> Digest
    decreases bytes.len(),
{
    let m = chunk_count(bytes);
    if m <= g || m <= 1 {
        H::chunk_hash(s as u64, bytes, is_root)
    } else {
        proof {
            lemma_halves(bytes);
        }
        H::inner_hash(
            tree_hash::<H>(left_half(bytes), g, s, false),
            tree_hash::<H>(right_half(bytes), g, s + split_point(m), false),
            is_root,
        )
    }
}

/// The hash pair of the root of the tree over `bytes`.
pub open spec fn root_pair<H: Hasher>(bytes: Seq<u8>, g: int, s: int) -> (Digest, Digest) {
    (
        tree_hash::<H>(left_half(bytes), g, s, false),
        tree_hash::<H>(right_half(bytes), g, s + split_point(chunk_count(bytes)), false),
    )
}

/// The hasher hashes a group of chunks as the tree over its chunks, wherever the tree over `bytes`
/// has a subtree of at most `g` chunks. With one chunk to a group this holds of every hasher.
pub open spec fn hashes_groups_as_trees<H: Hasher>(bytes: Seq<u8>, g: int, s: int) -> bool
    decreases bytes.len(),
{
    let m = chunk_count(bytes);
    if m <= 1 {
        true
    } else {
        proof {
            lemma_halves(bytes);
        }
        let p = split_point(m);
        &&& m <= g ==> forall|is_root: bool| #[trigger]
            H::chunk_hash(s as u64, bytes, is_root) == H::inner_hash(
                H::chunk_hash(s as u64, left_half(bytes), false),
                H::chunk_hash((s + p) as u64, right_half(bytes), false),
                is_root,
            )
        &&& hashes_groups_as_trees::<H>(left_half(bytes), g, s)
        &&& hashes_groups_as_trees::<H>(right_half(bytes), g, s + p)
    }
}

/// Where the hasher hashes groups as trees, the hash of a tree does not depend on its groups.
pub proof fn lemma_group_free<H: Hasher>(bytes: Seq<u8>, g: int, s: int, is_root: bool)
    requires
        hashes_groups_as_trees::<H>(bytes, g, s),
    ensures
        tree_hash::<H>(bytes, g, s, is_root) == tree_hash::<H>(bytes, 1, s, is_root),
        chunk_count(bytes) <= g ==> H::chunk_hash(s as u64, bytes, is_root) == tree_hash::<H>(
            bytes,
            1,
            s,
            is_root,
        ),
    decreases bytes.len(),
{
    let m = chunk_count(bytes);
    if m > 1 {
        lemma_halves(bytes);
        lemma_group_free::<H>(left_half(bytes), g, s, false);
        lemma_group_free::<H>(right_half(bytes), g, s + split_point(m), false);
    }
}

} // verus!
