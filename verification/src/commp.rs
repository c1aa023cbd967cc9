//! Piece commitments: SHA-256 cut to 254 bits, over data that is padded to a power of two and
//! spread out so that every 32 bytes hold 254 bits of it.
use crate::create::{outboard_post_order, pairs_bytes, tree_pairs};
use crate::hash::{
    combine_hash_pair, hash_of, lemma_hash_of, pair_bytes, tree_hash, Digest, Hasher,
};
use crate::padding::{base2_padded, lemma_next_power, next_power, padded_size, zeros, SliceSource};
use crate::tree::{BaoTree, BlockSize};
use fr32::Fr32Reader;
use sha2::Sha256;
use vstd::bytes::{spec_u64_to_le_bytes, u64_to_le_bytes};
use vstd::prelude::*;
use vstd::slice::slice_to_vec;
use vstd::string::StringExecFns;

verus! {

/// The SHA-256 digest of `data`.
pub uninterp spec fn sha256(data: Seq<u8>) -> Seq<u8>;

/// `sha2::Sha256::digest`: the digest of `data`, which depends on `data` alone.
#[verifier::external_body]
fn sha256_digest(data: &[u8]) -> (res: [u8; 32])
    ensures
        res@ == sha256(data@),
{
    <Sha256 as sha2::Digest>::digest(data).into()
}

/// 32 bytes with the two highest bits of the last one set to zero.
pub open spec fn low_254_bits(bytes: Seq<u8>) -> Seq<u8> {
    bytes.update(31, bytes[31] & 0b0011_1111)
}

/// Sets the two highest bits of the last byte of a digest to zero.
pub fn truncate_digest(digest: [u8; 32]) -> (res: Digest)
    ensures
        res@ == low_254_bits(digest@),
        res@[31] < 64,
        forall|i: int| 0 <= i < 31 ==> res@[i] == digest@[i],
        res@[31] == digest@[31] % 64,
{
    let mut bytes = digest;
    let last: u8 = bytes[31];
    assert(last & 0b0011_1111 == last % 64) by (bit_vector);
    assert(last & 0b0011_1111 < 64) by (bit_vector);
    bytes[31] = last & 0b0011_1111;
    Digest(bytes)
}

/// The hasher for piece commitments.
#[derive(Clone, Copy, Debug, Default, PartialEq)]
pub struct CommpHasher;

impl Hasher for CommpHasher {
    const CHUNK_SIZE: usize = 64;

    open spec fn chunk_hash(start_chunk: u64, data: Seq<u8>, is_root: bool) -> Digest {
        hash_of(low_254_bits(sha256(data)))
    }

    open spec fn inner_hash(left: Digest, right: Digest, is_root: bool) -> Digest {
        hash_of(low_254_bits(sha256(pair_bytes(left, right))))
    }

    fn hash_chunk(_start_chunk: u64, data: &[u8], _is_root: bool) -> (res: Digest)
        ensures
            res@ == low_254_bits(sha256(data@)),
            res@[31] < 64,
            forall|i: int| 0 <= i < 31 ==> res@[i] == sha256(data@)[i],
            res@[31] == sha256(data@)[31] % 64,
    {
        let res = truncate_digest(sha256_digest(data));
        proof {
            lemma_hash_of(res);
        }
        res
    }

    fn hash_inner(left_child: &Digest, right_child: &Digest, _is_root: bool) -> (res: Digest)
        ensures
            res@ == low_254_bits(sha256(pair_bytes(*left_child, *right_child))),
            res@[31] < 64,
            forall|i: int| 0 <= i < 31 ==> res@[i] == sha256(left_child@ + right_child@)[i],
            res@[31] == sha256(left_child@ + right_child@)[31] % 64,
    {
        let data = combine_hash_pair(left_child, right_child);
        let res = truncate_digest(sha256_digest(data.as_slice()));
        proof {
            lemma_hash_of(res);
        }
        res
    }
}

/// Bit `i` of `data`, from the lowest bit of the first byte on. After the end the bits are zero.
pub open spec fn bit_at(data: Seq<u8>, i: int) -> bool {
    &&& 0 <= i < 8 * data.len()
    &&& (data[i / 8] >> ((i % 8) as u8)) & 1 == 1
}

/// Bit `i` of spread out data: of each 256 bits the first 254 are bits of `data`, and two are zero.
pub open spec fn fr32_bit(data: Seq<u8>, i: int) -> bool {
    i % 256 < 254 && bit_at(data, 254 * (i / 256) + i % 256)
}

/// One or zero.
pub open spec fn bit_value(b: bool) -> int {
    if b {
        1
    } else {
        0
    }
}

/// Byte `k` of spread out data.
pub open spec fn fr32_byte(data: Seq<u8>, k: int) -> u8 {
    (bit_value(fr32_bit(data, 8 * k)) + 2 * bit_value(fr32_bit(data, 8 * k + 1)) + 4 * bit_value(
        fr32_bit(data, 8 * k + 2),
    ) + 8 * bit_value(fr32_bit(data, 8 * k + 3)) + 16 * bit_value(fr32_bit(data, 8 * k + 4)) + 32
        * bit_value(fr32_bit(data, 8 * k + 5)) + 64 * bit_value(fr32_bit(data, 8 * k + 6)) + 128
        * bit_value(fr32_bit(data, 8 * k + 7))) as u8
}

/// Number of bytes that `n` bytes take when they are spread out: 32 for each 254 bits.
pub open spec fn fr32_len(n: int) -> int {
    32 * ((8 * n + 253) / 254)
}

/// The first `len` bytes of spread out data, or all of them.
pub open spec fn fr32_prefix(data: Seq<u8>, len: int) -> Seq<u8> {
    Seq::new(
        if len <= fr32_len(data.len() as int) {
            len as nat
        } else {
            fr32_len(data.len() as int) as nat
        },
        |k: int| fr32_byte(data, k),
    )
}

/// A single `read` of `fr32::Fr32Reader` over `data`, into a buffer of `len` bytes: it fills the
/// buffer with the first bytes of the spread out data, and stops short only at their end. The
/// reader takes blocks of bytes for numbers in the byte order of the machine, so this is said of
/// machines that have the lowest byte first.
#[verifier::external_body]
fn fr32_read(data: &[u8], len: usize) -> (res: Vec<u8>)
    ensures
        res@ == fr32_prefix(data@, len as int),
{
    let mut out = vec![0u8; len];
    let n = std::io::Read::read(&mut Fr32Reader::new(data), &mut out).unwrap();
    out.truncate(n);
    out
}

/// The name of the file for the outboard of a file, where no other is given.
pub fn outboard_name(name: &str) -> (res: String)
    ensures
        res@ == name@ + ".obao"@,
{
    let res = name.to_owned();
    res.concat(".obao")
}

/// Computes the outboard of the piece that holds `data`: the data is padded to a power of two and
/// spread out, and as many bytes of that as the padded data has are hashed. Returns the root hash,
/// and the hash pairs in post order followed by the padded size.
pub fn piece_outboard(data: &[u8], block_size: BlockSize) -> (res: (Digest, Vec<u8>))
    requires
        block_size.wf(),
        data@.len() < 0x8000_0000_0000_0000,
        next_power(data@.len() as int) <= usize::MAX,
    ensures
        ({
            let size = next_power(data@.len() as int);
            let padded = data@ + zeros(size - data@.len());
            let spread = fr32_prefix(padded, size);
            &&& spread.len() == size
            &&& res.0 == tree_hash::<CommpHasher>(spread, block_size.group(), 0, true)
            &&& res.1@ == pairs_bytes(tree_pairs::<CommpHasher>(spread, block_size.group(), 0))
                + spec_u64_to_le_bytes(size as u64)
        }),
{
    let source_size: u64 = data.len() as u64;
    let size = padded_size(source_size);
    let mut reader = base2_padded(SliceSource::new(slice_to_vec(data)), source_size);
    let padded = match reader.read_to_end() {
        Ok(padded) => padded,
        Err(_) => {
            assert(false);
            Vec::new()
        },
    };
    let spread = fr32_read(padded.as_slice(), size as usize);
    let tree = BaoTree::new(size, block_size);
    let mut out: Vec<u8> = Vec::new();
    proof {
        lemma_next_power(source_size as int);
        assert(spread@.take(size as int) =~= spread@);
    }
    let hash = match outboard_post_order::<CommpHasher>(spread.as_slice(), tree, &mut out) {
        Ok(hash) => hash,
        Err(_) => {
            assert(false);
            Digest::zero()
        },
    };
    let ghost pairs = out@;
    let tail = u64_to_le_bytes(size);
    out.extend_from_slice(tail.as_slice());
    assert(out@ =~= pairs + spec_u64_to_le_bytes(size));
    assert(pairs =~= pairs_bytes(
        tree_pairs::<CommpHasher>(spread@, block_size.group(), 0),
    ));
    (hash, out)
}

} // verus!
