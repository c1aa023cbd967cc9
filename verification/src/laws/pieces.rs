//! Piece commitments, byte by byte and bit by bit.
use crate::commp::{bit_value, fr32_bit, fr32_byte, fr32_prefix, low_254_bits, sha256, CommpHasher};
use crate::error::IoError;
use crate::hash::{lemma_hash_bytes, Digest, Hasher};
use crate::padding::{
    least, lemma_next_power, next_power, zeroed, zeros, Base2PadReader, Base2PadState, ByteSource,
    ReadWithTrailingZeros, SliceSource, TrailingZerosState, ZeroPaddingReader, ZeroPaddingState,
};
use vstd::arithmetic::power2::is_pow2;
use vstd::prelude::*;

verus! {

/// Cutting 32 bytes to 254 bits keeps the first 31 bytes, and of the last one all but the two
/// highest bits.
pub proof fn law_low_254_bits(bytes: Seq<u8>, i: int)
    requires
        bytes.len() == 32,
    ensures
        low_254_bits(bytes).len() == 32,
        0 <= i < 31 ==> low_254_bits(bytes)[i] == bytes[i],
        low_254_bits(bytes)[31] == bytes[31] % 64,
{
    let last = bytes[31];
    assert(last & 0b0011_1111 == last % 64) by (bit_vector);
}

/// The hash of data for piece commitments is its SHA-256 digest without the two highest bits of the
/// last byte. The hash of two hashes is that of their bytes, the left one first. Neither depends on
/// the place in the blob, nor on whether it is the root.
pub proof fn law_commp_hashes(
    data: Seq<u8>,
    l: Digest,
    r: Digest,
    start_chunk: u64,
    is_root: bool,
    i: int,
)
    requires
        sha256(data).len() == 32,
        sha256(l@ + r@).len() == 32,
        0 <= i < 31,
    ensures
        CommpHasher::chunk_hash(start_chunk, data, is_root)@[i] == sha256(data)[i],
        CommpHasher::chunk_hash(start_chunk, data, is_root)@[31] == sha256(data)[31] % 64,
        CommpHasher::inner_hash(l, r, is_root)@[i] == sha256(l@ + r@)[i],
        CommpHasher::inner_hash(l, r, is_root)@[31] == sha256(l@ + r@)[31] % 64,
{
    law_low_254_bits(sha256(data), i);
    law_low_254_bits(sha256(l@ + r@), i);
    lemma_hash_bytes(low_254_bits(sha256(data)));
    lemma_hash_bytes(low_254_bits(sha256(l@ + r@)));
}

/// A bit of a byte, as a number.
proof fn lemma_bit(byte: u8, k: u8)
    ensures
        (byte >> k) & 1 == 0 || (byte >> k) & 1 == 1,
{
    let y = byte >> k;
    assert(y & 1 == 0 || y & 1 == 1) by (bit_vector);
}

/// The bits of a byte that is put together from bits.
proof fn lemma_byte_bits(
    v: u8,
    b0: u8,
    b1: u8,
    b2: u8,
    b3: u8,
    b4: u8,
    b5: u8,
    b6: u8,
    b7: u8,
)
    requires
        b0 <= 1,
        b1 <= 1,
        b2 <= 1,
        b3 <= 1,
        b4 <= 1,
        b5 <= 1,
        b6 <= 1,
        b7 <= 1,
        v == b0 + 2 * b1 + 4 * b2 + 8 * b3 + 16 * b4 + 32 * b5 + 64 * b6 + 128 * b7,
    ensures
        (v >> 0) & 1 == b0,
        (v >> 1) & 1 == b1,
        (v >> 2) & 1 == b2,
        (v >> 3) & 1 == b3,
        (v >> 4) & 1 == b4,
        (v >> 5) & 1 == b5,
        (v >> 6) & 1 == b6,
        (v >> 7) & 1 == b7,
{
    assert((v >> 0) & 1 == b0 && (v >> 1) & 1 == b1 && (v >> 2) & 1 == b2 && (v >> 3) & 1 == b3 && (v
        >> 4) & 1 == b4 && (v >> 5) & 1 == b5 && (v >> 6) & 1 == b6 && (v >> 7) & 1 == b7)
        by (bit_vector)
        requires
            b0 <= 1,
            b1 <= 1,
            b2 <= 1,
            b3 <= 1,
            b4 <= 1,
            b5 <= 1,
            b6 <= 1,
            b7 <= 1,
            v == b0 + 2 * b1 + 4 * b2 + 8 * b3 + 16 * b4 + 32 * b5 + 64 * b6 + 128 * b7,
    ;
}

/// Spread out data takes 32 bytes for each 254 bits, the last of them perhaps in part. Bit `j` of its
/// byte `k` is, where it is one of the first 254 of its 256, the next bit of the data, from the
/// lowest bit of the first byte on; it is zero where it is one of the last two, and behind the end
/// of the data.
pub proof fn law_spread(data: Seq<u8>, len: int, k: int, j: int)
    requires
        0 <= len,
    ensures
        ({
            let out = fr32_prefix(data, len);
            let all = 32 * ((8 * data.len() as int + 253) / 254);
            let i = 8 * k + j;
            let q = 254 * (i / 256) + i % 256;
            &&& out.len() == (if len <= all {
                len
            } else {
                all
            })
            &&& 0 <= k < out.len() && 0 <= j < 8 ==> (out[k] >> (j as u8)) & 1 == (if i % 256 < 254
                && q < 8 * data.len() {
                (data[q / 8] >> ((q % 8) as u8)) & 1
            } else {
                0
            })
        }),
{
    let out = fr32_prefix(data, len);
    let i = 8 * k + j;
    let q = 254 * (i / 256) + i % 256;
    if 0 <= k < out.len() && 0 <= j < 8 {
        let v = fr32_byte(data, k);
        assert(out[k] == v);
        let bits = Seq::new(8, |t: int| bit_value(fr32_bit(data, 8 * k + t)) as u8);
        lemma_byte_bits(
            v,
            bits[0],
            bits[1],
            bits[2],
            bits[3],
            bits[4],
            bits[5],
            bits[6],
            bits[7],
        );
        assert((v >> (j as u8)) & 1 == bits[j]);
        if 0 <= q < 8 * data.len() {
            lemma_bit(data[q / 8], (q % 8) as u8);
        }
    }
}

/// The padded size is the one power of two that is larger than the size, and at most twice as large
/// unless the size is zero.
pub proof fn law_next_power(size: int)
    requires
        0 <= size,
    ensures
        size < next_power(size),
        is_pow2(next_power(size)),
        size > 0 ==> next_power(size) <= 2 * size,
        next_power(0) == 1,
{
    lemma_next_power(size);
    lemma_next_power(0);
}

/// A run of zeros has as many bytes as asked for, all of them zero. A buffer of which the first `n`
/// bytes are set to zero keeps the others.
pub proof fn law_zeros(n: int, buf: Seq<u8>, i: int)
    requires
        0 <= n,
    ensures
        zeros(n).len() == n,
        0 <= i < n ==> zeros(n)[i] == 0,
        n <= buf.len() ==> zeroed(buf, n as nat).len() == buf.len(),
        n <= buf.len() && 0 <= i < buf.len() ==> zeroed(buf, n as nat)[i] == (if i < n {
            0u8
        } else {
            buf[i]
        }),
        least(n as nat, buf.len()) <= n,
        least(n as nat, buf.len()) <= buf.len(),
        least(n as nat, buf.len()) == n || least(n as nat, buf.len()) == buf.len(),
{
}

/// A read from bytes in memory fills the buffer as far as there are bytes, takes those off, leaves
/// the rest of the buffer as it is, and returns their number.
pub proof fn law_slice_read(st: Seq<u8>, buf: Seq<u8>, i: int)
    ensures
        SliceSource::rest_of(st) == st,
        SliceSource::reliable_in(st),
        ({
            let (after, left, res) = SliceSource::read_from(st, buf);
            &&& left.len() == buf.len()
            &&& buf.len() <= st.len() ==> left == st.take(buf.len() as int) && after == st.skip(
                buf.len() as int,
            ) && res == Ok::<nat, IoError>(buf.len())
            &&& buf.len() > st.len() ==> left == st + buf.skip(st.len() as int) && after.len() == 0
                && res == Ok::<nat, IoError>(st.len())
        }),
{
    let (after, left, res) = SliceSource::read_from(st, buf);
    if buf.len() <= st.len() {
        assert(left =~= st.take(buf.len() as int));
    } else {
        assert(left =~= st + buf.skip(st.len() as int));
    }
}

/// A read from a reader that appends a number of zeros, after its underlying reader has ended: as
/// many zeros as are left and as the buffer takes. The rest of the buffer stays as it is.
pub proof fn law_zero_padding_pads<R: ByteSource>(
    st: ZeroPaddingState<R::V>,
    buf: Seq<u8>,
    i: int,
)
    requires
        st.eof_reached,
    ensures
        ({
            let (after, left, res) = ZeroPaddingReader::<R>::read_from(st, buf);
            let n = if st.zeros_left <= buf.len() {
                st.zeros_left
            } else {
                buf.len()
            };
            &&& after.inner == st.inner
            &&& after.eof_reached
            &&& after.zeros_left == st.zeros_left - n
            &&& res == Ok::<nat, IoError>(n)
            &&& left.len() == buf.len()
            &&& 0 <= i < buf.len() ==> left[i] == (if i < n {
                0u8
            } else {
                buf[i]
            })
        }),
{
}

/// A read from a reader that appends a number of zeros, while its underlying reader has not ended: it
/// is one of the underlying reader, unless that gives no bytes for a buffer that is not empty. Then
/// it goes on to the zeros at once.
pub proof fn law_zero_padding_reads<R: ByteSource>(st: ZeroPaddingState<R::V>, buf: Seq<u8>)
    requires
        !st.eof_reached,
    ensures
        ({
            let (after, left, res) = ZeroPaddingReader::<R>::read_from(st, buf);
            let (inner, bytes, count) = R::read_from(st.inner, buf);
            &&& after.inner == inner
            &&& count == Ok::<nat, IoError>(0) && buf.len() > 0 ==> (after, left, res)
                == ZeroPaddingReader::<R>::read_from(
                ZeroPaddingState { inner, zeros_left: st.zeros_left, eof_reached: true },
                bytes,
            )
            &&& !(count == Ok::<nat, IoError>(0) && buf.len() > 0) ==> left == bytes && res == count
                && after.zeros_left == st.zeros_left && !after.eof_reached
        }),
{
}

/// What a reader that appends a number of zeros still delivers: what its underlying reader does,
/// until that has ended, and the zeros that are left. It does not fail of itself.
pub proof fn law_zero_padding_rest<R: ByteSource>(st: ZeroPaddingState<R::V>)
    ensures
        ZeroPaddingReader::<R>::rest_of(st) == (if st.eof_reached {
            Seq::<u8>::empty()
        } else {
            R::rest_of(st.inner)
        }) + Seq::new(st.zeros_left, |i: int| 0u8),
        ZeroPaddingReader::<R>::reliable_in(st) <==> st.eof_reached || R::reliable_in(st.inner),
{
    let tail = Seq::new(st.zeros_left, |i: int| 0u8);
    assert(ZeroPaddingReader::<R>::rest_of(st) =~= (if st.eof_reached {
        Seq::<u8>::empty()
    } else {
        R::rest_of(st.inner)
    }) + tail);
}

/// A read from a reader with trailing zeros: it is one of the underlying reader, unless zeros were
/// appended already or that gives no bytes. Then it gives as many zeros as are left and as the buffer
/// takes, and leaves the rest of the buffer as it is.
pub proof fn law_trailing_zeros_reads<R: ByteSource>(
    st: TrailingZerosState<R::V>,
    buf: Seq<u8>,
    i: int,
)
    requires
        st.zeros_appended <= st.zeros_to_append,
    ensures
        ({
            let (after, left, res) = ReadWithTrailingZeros::<R>::read_from(st, buf);
            let (inner, bytes, count) = R::read_from(st.inner, buf);
            let more = st.zeros_to_append - st.zeros_appended;
            let n = if more <= bytes.len() {
                more
            } else {
                bytes.len() as int
            };
            let k = if more <= buf.len() {
                more
            } else {
                buf.len() as int
            };
            &&& after.zeros_to_append == st.zeros_to_append
            &&& st.zeros_appended == 0 ==> after.inner == inner
            &&& st.zeros_appended == 0 && count != Ok::<nat, IoError>(0) ==> left == bytes && res
                == count && after.zeros_appended == 0
            &&& st.zeros_appended == 0 && count == Ok::<nat, IoError>(0) ==> {
                &&& res == Ok::<nat, IoError>(n as nat)
                &&& after.zeros_appended == n
                &&& left.len() == bytes.len()
                &&& 0 <= i < left.len() ==> left[i] == (if i < n {
                    0u8
                } else {
                    bytes[i]
                })
            }
            &&& st.zeros_appended > 0 ==> {
                &&& after.inner == st.inner
                &&& res == Ok::<nat, IoError>(k as nat)
                &&& after.zeros_appended == st.zeros_appended + k
                &&& left.len() == buf.len()
                &&& 0 <= i < left.len() ==> left[i] == (if i < k {
                    0u8
                } else {
                    buf[i]
                })
            }
        }),
{
}

/// What a reader with trailing zeros still delivers: what its underlying reader does, unless zeros
/// were appended already, and the zeros that are left.
pub proof fn law_trailing_zeros_rest<R: ByteSource>(st: TrailingZerosState<R::V>)
    requires
        st.zeros_appended <= st.zeros_to_append,
    ensures
        ReadWithTrailingZeros::<R>::rest_of(st) == (if st.zeros_appended > 0 {
            Seq::<u8>::empty()
        } else {
            R::rest_of(st.inner)
        }) + Seq::new((st.zeros_to_append - st.zeros_appended) as nat, |i: int| 0u8),
        ReadWithTrailingZeros::<R>::reliable_in(st) <==> st.zeros_appended > 0 || R::reliable_in(
            st.inner,
        ),
{
    let tail = Seq::new((st.zeros_to_append - st.zeros_appended) as nat, |i: int| 0u8);
    assert(ReadWithTrailingZeros::<R>::rest_of(st) =~= (if st.zeros_appended > 0 {
        Seq::<u8>::empty()
    } else {
        R::rest_of(st.inner)
    }) + tail);
}

/// A read from a reader that pads to a size: before the data should have been read it is one of the
/// underlying reader. From then on it sets the whole buffer to zero, and gives as many of those bytes
/// as are missing up to the padded size. The position moves by what is given.
pub proof fn law_base2_reads<R: ByteSource>(st: Base2PadState<R::V>, buf: Seq<u8>, i: int)
    requires
        st.pos <= st.padsize,
    ensures
        ({
            let (after, left, res) = Base2PadReader::<R>::read_from(st, buf);
            let (inner, bytes, count) = R::read_from(st.inp, buf);
            let more = st.padsize - st.pos;
            &&& after.size == st.size && after.padsize == st.padsize
            &&& st.pos < st.size ==> {
                &&& after.inp == inner
                &&& left == bytes
                &&& res == count
                &&& count matches Ok(n) ==> after.pos == st.pos + n
                &&& count is Err ==> after.pos == st.pos
            }
            &&& st.pos >= st.size ==> {
                &&& after.inp == st.inp
                &&& left.len() == buf.len()
                &&& 0 <= i < buf.len() ==> left[i] == 0
                &&& more <= buf.len() ==> res == Ok::<nat, IoError>(more as nat) && after.pos
                    == st.padsize
                &&& more > buf.len() ==> res == Ok::<nat, IoError>(buf.len()) && after.pos == st.pos
                    + buf.len()
            }
        }),
{
}

/// What a reader that pads to a size still delivers, where the data has the size that is said: the
/// rest of the data, and zeros up to the padded size.
pub proof fn law_base2_rest<R: ByteSource>(st: Base2PadState<R::V>)
    requires
        Base2PadReader::<R>::sized(st),
    ensures
        Base2PadReader::<R>::stream(st).len() == st.padsize - st.pos,
        st.pos < st.size ==> Base2PadReader::<R>::stream(st) == R::rest_of(st.inp) + Seq::new(
            (st.padsize - st.size) as nat,
            |i: int| 0u8,
        ),
        st.pos >= st.size ==> Base2PadReader::<R>::stream(st) == Seq::new(
            (st.padsize - st.pos) as nat,
            |i: int| 0u8,
        ),
{
}

} // verus!
