//! Padding data with zeros.
use crate::error::IoError;
use vstd::arithmetic::power2::{
    is_pow2, lemma2_to64, lemma2_to64_rest, lemma_pow2_strictly_increases, lemma_pow2_unfold, pow2,
};
use vstd::bits::lemma_u64_shl_is_mul;
use vstd::prelude::*;
use vstd::std_specs::bits::{axiom_u64_leading_zeros, u64_leading_zeros};

verus! {

/// The smallest power of two above `size`.
pub open spec fn next_power(size: int) -> int
    decreases size,
{
    if size <= 0 {
        1
    } else {
        2 * next_power(size / 2)
    }
}

/// `next_power(size)` is the one power of two above `size` that is at most twice as large.
pub proof fn lemma_next_power(size: int)
    requires
        0 <= size,
    ensures
        size < next_power(size),
        is_pow2(next_power(size)),
        size > 0 ==> next_power(size) <= 2 * size,
        size == 0 ==> next_power(size) == 1,
    decreases size,
{
    reveal(is_pow2);
    if size > 0 {
        lemma_next_power(size / 2);
    }
}

/// The leading zeros of a number tell the smallest power of two above it.
proof fn lemma_leading_zeros(size: u64)
    ensures
        0 <= u64_leading_zeros(size) <= 64,
        pow2((64 - u64_leading_zeros(size)) as nat) == next_power(size as int),
    decreases size,
{
    reveal(u64_leading_zeros);
    axiom_u64_leading_zeros(size);
    if size == 0 {
        lemma2_to64();
    } else {
        lemma_leading_zeros(size / 2);
        axiom_u64_leading_zeros(size / 2);
        lemma_pow2_unfold((64 - u64_leading_zeros(size)) as nat);
    }
}

/// The size of a piece: the smallest power of two above `size`, or twice that.
pub fn piece_size(size: u64, next: bool) -> (res: u64)
    requires
        size < 0x8000_0000_0000_0000,
        next ==> size < 0x4000_0000_0000_0000,
    ensures
        res == next_power(size as int) * (if next {
            2int
        } else {
            1int
        }),
        is_pow2(res as int),
        res > size,
        next ==> size == 0 && res == 2 || 2 * size < res <= 4 * size,
        !next ==> size == 0 && res == 1 || size < res <= 2 * size,
{
    let bits: u32 = 64 - size.leading_zeros() + if next {
        1
    } else {
        0
    };
    proof {
        lemma_leading_zeros(size);
        lemma_next_power(size as int);
        lemma2_to64_rest();
        let k = (64 - u64_leading_zeros(size)) as nat;
        lemma_pow2_unfold(k + 1);
        if bits >= 64 {
            if bits > 64 {
                lemma_pow2_strictly_increases(64, bits as nat);
            }
            assert(pow2(64) <= pow2(bits as nat));
            assert(false);
        }
        assert(pow2(bits as nat) <= 0x8000_0000_0000_0000) by {
            if bits < 63 {
                lemma_pow2_strictly_increases(bits as nat, 63);
            }
        }
        lemma_u64_shl_is_mul(1, bits as u64);
        reveal(is_pow2);
    }
    1u64 << (bits as u64)
}

/// The size of a blob of `size` bytes when it is padded to a power of two.
pub fn padded_size(size: u64) -> (res: u64)
    requires
        size < 0x8000_0000_0000_0000,
    ensures
        res == next_power(size as int),
        res > size,
        is_pow2(res as int),
        size > 0 ==> res <= 2 * size,
        size == 0 ==> res == 1,
{
    proof {
        lemma_next_power(size as int);
    }
    let bound = piece_size(size, false);
    if size <= bound {
        bound
    } else {
        assert(false);
        piece_size(size, true)
    }
}

/// `n` zero bytes.
pub open spec fn zeros(n: int) -> Seq<u8> {
    Seq::new(n as nat, |i: int| 0u8)
}

/// The smaller of two numbers.
pub open spec fn least(a: nat, b: nat) -> nat {
    if a <= b {
        a
    } else {
        b
    }
}

/// A buffer with its first `n` bytes set to zero.
pub open spec fn zeroed(buf: Seq<u8>, n: nat) -> Seq<u8> {
    zeros(n as int) + buf.skip(n as int)
}

/// What a read returned, as mathematics.
pub open spec fn counted(res: Result<usize, IoError>) -> Result<nat, IoError> {
    match res {
        Ok(n) => Ok(n as nat),
        Err(e) => Err(e),
    }
}

/// A read into `buf` took `n` bytes off the stream `rest`: it left the stream `after` and the
/// buffer `left`. Zero bytes mean that there are no more, or that the buffer is empty.
pub open spec fn delivers(
    rest: Seq<u8>,
    buf: Seq<u8>,
    after: Seq<u8>,
    left: Seq<u8>,
    n: nat,
) -> bool {
    &&& n <= rest.len()
    &&& n <= buf.len()
    &&& left.len() == buf.len()
    &&& left.take(n as int) == rest.take(n as int)
    &&& after == rest.skip(n as int)
    &&& n == 0 <==> buf.len() == 0 || rest.len() == 0
}

/// A source of bytes. What it does is a function of its view.
pub trait ByteSource: View + Sized {
    /// The bytes that are still to come in this state.
    spec fn rest_of(st: Self::V) -> Seq<u8>;

    /// No read fails from this state on.
    spec fn reliable_in(st: Self::V) -> bool;

    /// What a read into a buffer does in this state: the state and the buffer after it, and the
    /// number of bytes or the failure.
    spec fn read_from(st: Self::V, buf: Seq<u8>) -> (Self::V, Seq<u8>, Result<nat, IoError>);

    /// A read takes bytes off those that are still to come. One that fails takes none.
    proof fn lemma_read(st: Self::V, buf: Seq<u8>)
        ensures
            Self::read_from(st, buf).1.len() == buf.len(),
            Self::reliable_in(st) ==> Self::read_from(st, buf).2 is Ok && Self::reliable_in(
                Self::read_from(st, buf).0,
            ),
            match Self::read_from(st, buf).2 {
                Ok(n) => delivers(
                    Self::rest_of(st),
                    buf,
                    Self::rest_of(Self::read_from(st, buf).0),
                    Self::read_from(st, buf).1,
                    n,
                ),
                Err(_) => Self::rest_of(Self::read_from(st, buf).0) == Self::rest_of(st),
            },
    ;

    /// Reads some bytes into a buffer and returns their number. Zero bytes mean that there are no
    /// more, or that the buffer is empty.
    fn read(&mut self, buf: &mut [u8]) -> (res: Result<usize, IoError>)
        ensures
            (final(self)@, final(buf)@, counted(res)) == Self::read_from(old(self)@, old(buf)@),
    ;
}

/// A source of bytes in memory.
#[derive(Debug)]
pub struct SliceSource {
    data: Vec<u8>,
    pos: usize,
}

impl View for SliceSource {
    type V = Seq<u8>;

    /// The bytes that are still to come.
    closed spec fn view(&self) -> Seq<u8> {
        self.data@.skip(self.pos as int)
    }
}

impl SliceSource {
    /// The position lies in the data.
    #[verifier::type_invariant]
    spec fn inv(self) -> bool {
        self.pos <= self.data@.len()
    }

    /// Creates a source of the given bytes.
    pub fn new(data: Vec<u8>) -> (res: SliceSource)
        ensures
            res@ == data@,
    {
        let res = SliceSource { data, pos: 0 };
        assert(res@ =~= data@);
        res
    }
}

impl ByteSource for SliceSource {
    open spec fn rest_of(st: Seq<u8>) -> Seq<u8> {
        st
    }

    open spec fn reliable_in(st: Seq<u8>) -> bool {
        true
    }

    /// A read fills the buffer as far as there are bytes, and leaves the rest of it as it is.
    open spec fn read_from(st: Seq<u8>, buf: Seq<u8>) -> (
        Seq<u8>,
        Seq<u8>,
        Result<nat, IoError>,
    ) {
        let n = least(st.len(), buf.len());
        (st.skip(n as int), st.take(n as int) + buf.skip(n as int), Ok(n))
    }

    proof fn lemma_read(st: Seq<u8>, buf: Seq<u8>) {
        let n = least(st.len(), buf.len());
        assert((st.take(n as int) + buf.skip(n as int)).take(n as int) =~= st.take(n as int));
    }

    fn read(&mut self, buf: &mut [u8]) -> (res: Result<usize, IoError>) {
        proof {
            use_type_invariant(&*self);
        }
        let left = self.data.len() - self.pos;
        let n: usize = smaller(left, buf.len());
        let ghost rest = self@;
        let ghost before = buf@;
        let mut i: usize = 0;
        while i < n
            invariant
                i <= n <= buf@.len(),
                buf@.len() == before.len(),
                self.pos + n <= self.data.len(),
                rest == self.data@.skip(self.pos as int),
                forall|j: int| 0 <= j < i ==> buf@[j] == rest[j],
                forall|j: int| i <= j < before.len() ==> buf@[j] == before[j],
            decreases n - i,
        {
            buf[i] = self.data[self.pos + i];
            i = i + 1;
        }
        let pos = self.pos + n;
        self.pos = pos;
        proof {
            assert(self@ =~= rest.skip(n as int));
            assert(buf@ =~= rest.take(n as int) + before.skip(n as int));
        }
        Ok(n)
    }
}

/// Sets the first `n` bytes of a buffer to zero.
fn fill_zeros(buf: &mut [u8], n: usize)
    requires
        n <= old(buf)@.len(),
    ensures
        final(buf)@ == zeroed(old(buf)@, n as nat),
{
    let ghost before = buf@;
    let mut i: usize = 0;
    while i < n
        invariant
            i <= n <= buf@.len(),
            buf@.len() == before.len(),
            forall|j: int| 0 <= j < i ==> buf@[j] == 0u8,
            forall|j: int| i <= j < before.len() ==> buf@[j] == before[j],
        decreases n - i,
    {
        buf[i] = 0;
        i = i + 1;
    }
    assert(buf@ =~= zeroed(before, n as nat));
}

/// The smaller of two numbers.
fn smaller(a: usize, b: usize) -> (res: usize)
    ensures
        res == (if a <= b {
            a
        } else {
            b
        }),
{
    if a <= b {
        a
    } else {
        b
    }
}

/// The state of a `ZeroPaddingReader`.
pub struct ZeroPaddingState<S> {
    /// The underlying reader.
    pub inner: S,
    /// Number of zeros that are still to come.
    pub zeros_left: nat,
    /// The end of the data was met.
    pub eof_reached: bool,
}

/// A reader that appends zeros to the end of the data from the underlying reader.
#[derive(Debug)]
pub struct ZeroPaddingReader<R> {
    inner: R,
    zeros_left: usize,
    eof_reached: bool,
}

impl<R: ByteSource> View for ZeroPaddingReader<R> {
    type V = ZeroPaddingState<R::V>;

    closed spec fn view(&self) -> ZeroPaddingState<R::V> {
        ZeroPaddingState {
            inner: self.inner@,
            zeros_left: self.zeros_left as nat,
            eof_reached: self.eof_reached,
        }
    }
}

impl<R: ByteSource> ZeroPaddingReader<R> {
    /// Creates a reader with the given underlying reader and number of zeros to append.
    pub fn new(reader: R, zeros: usize) -> (res: Self)
        ensures
            res@ == (ZeroPaddingState {
                inner: reader@,
                zeros_left: zeros as nat,
                eof_reached: false,
            }),
    {
        ZeroPaddingReader { inner: reader, zeros_left: zeros, eof_reached: false }
    }

    /// What delivering zeros into a buffer does.
    pub open spec fn pad(st: ZeroPaddingState<R::V>, buf: Seq<u8>) -> (
        ZeroPaddingState<R::V>,
        Seq<u8>,
        Result<nat, IoError>,
    ) {
        let n = least(st.zeros_left, buf.len());
        (
            ZeroPaddingState {
                inner: st.inner,
                zeros_left: (st.zeros_left - n) as nat,
                eof_reached: true,
            },
            zeroed(buf, n),
            Ok(n),
        )
    }
}

impl<R: ByteSource> ByteSource for ZeroPaddingReader<R> {
    /// The rest of the data, and the zeros.
    open spec fn rest_of(st: ZeroPaddingState<R::V>) -> Seq<u8> {
        if st.eof_reached {
            zeros(st.zeros_left as int)
        } else {
            R::rest_of(st.inner) + zeros(st.zeros_left as int)
        }
    }

    open spec fn reliable_in(st: ZeroPaddingState<R::V>) -> bool {
        st.eof_reached || R::reliable_in(st.inner)
    }

    /// A read goes to the underlying reader until that has no more. From then on the reader
    /// delivers zeros, as many as the buffer takes, and leaves the rest of the buffer as it is.
    open spec fn read_from(st: ZeroPaddingState<R::V>, buf: Seq<u8>) -> (
        ZeroPaddingState<R::V>,
        Seq<u8>,
        Result<nat, IoError>,
    ) {
        if st.eof_reached {
            Self::pad(st, buf)
        } else {
            let (inner, left, res) = R::read_from(st.inner, buf);
            let next = ZeroPaddingState { inner, zeros_left: st.zeros_left, eof_reached: false };
            if res == Ok::<nat, IoError>(0) && buf.len() > 0 {
                Self::pad(next, left)
            } else {
                (next, left, res)
            }
        }
    }

    proof fn lemma_read(st: ZeroPaddingState<R::V>, buf: Seq<u8>) {
        R::lemma_read(st.inner, buf);
        let rest = Self::rest_of(st);
        let (next, left, res) = Self::read_from(st, buf);
        if st.eof_reached || (R::read_from(st.inner, buf).2 == Ok::<nat, IoError>(0) && buf.len()
            > 0) {
            let n = least(st.zeros_left, buf.len());
            assert(rest =~= zeros(st.zeros_left as int));
            assert(left.take(n as int) =~= rest.take(n as int));
            assert(Self::rest_of(next) =~= rest.skip(n as int));
        } else {
            match res {
                Ok(n) => {
                    let data = R::rest_of(st.inner);
                    assert(rest.take(n as int) =~= data.take(n as int));
                    assert(Self::rest_of(next) =~= rest.skip(n as int));
                },
                Err(_) => {},
            }
        }
    }

    fn read(&mut self, buf: &mut [u8]) -> (res: Result<usize, IoError>) {
        if self.eof_reached {
            // fill the buffer with zeros
            let len = smaller(buf.len(), self.zeros_left);
            fill_zeros(buf, len);
            self.zeros_left = self.zeros_left - len;
            Ok(len)
        } else {
            // read from the underlying reader
            let n = match self.inner.read(buf) {
                Ok(n) => n,
                Err(e) => {
                    return Err(e);
                },
            };
            proof {
                R::lemma_read(old(self)@.inner, old(buf)@);
            }
            // no bytes for an empty buffer do not tell the end of the data
            if n == 0 && buf.len() > 0 {
                self.eof_reached = true;
                let zeros_len = smaller(buf.len(), self.zeros_left);
                fill_zeros(buf, zeros_len);
                self.zeros_left = self.zeros_left - zeros_len;
                Ok(zeros_len)
            } else {
                Ok(n)
            }
        }
    }
}

/// The state of a `ReadWithTrailingZeros`.
pub struct TrailingZerosState<S> {
    /// The underlying reader.
    pub inner: S,
    /// Number of zeros to append.
    pub zeros_to_append: nat,
    /// Number of zeros that were appended.
    pub zeros_appended: nat,
}

/// A reader that wraps another reader and appends a given number of zero bytes at the end.
#[derive(Debug)]
pub struct ReadWithTrailingZeros<R> {
    inner: R,
    zeros_to_append: usize,
    zeros_appended: usize,
}

impl<R: ByteSource> View for ReadWithTrailingZeros<R> {
    type V = TrailingZerosState<R::V>;

    closed spec fn view(&self) -> TrailingZerosState<R::V> {
        TrailingZerosState {
            inner: self.inner@,
            zeros_to_append: self.zeros_to_append as nat,
            zeros_appended: self.zeros_appended as nat,
        }
    }
}

impl<R: ByteSource> ReadWithTrailingZeros<R> {
    /// Creates a reader from an existing one and the number of trailing zeros.
    pub fn new(inner: R, zeros_to_append: usize) -> (res: Self)
        ensures
            res@ == (TrailingZerosState {
                inner: inner@,
                zeros_to_append: zeros_to_append as nat,
                zeros_appended: 0,
            }),
    {
        ReadWithTrailingZeros { inner, zeros_to_append, zeros_appended: 0 }
    }

    /// Number of zeros that are still to come.
    pub open spec fn zeros_left(st: TrailingZerosState<R::V>) -> nat {
        if st.zeros_appended <= st.zeros_to_append {
            (st.zeros_to_append - st.zeros_appended) as nat
        } else {
            0
        }
    }

    /// What delivering zeros into a buffer does.
    pub open spec fn pad(st: TrailingZerosState<R::V>, buf: Seq<u8>) -> (
        TrailingZerosState<R::V>,
        Seq<u8>,
        Result<nat, IoError>,
    ) {
        let n = least(Self::zeros_left(st), buf.len());
        (
            TrailingZerosState {
                inner: st.inner,
                zeros_to_append: st.zeros_to_append,
                zeros_appended: st.zeros_appended + n,
            },
            zeroed(buf, n),
            Ok(n),
        )
    }
}

impl<R: ByteSource> ByteSource for ReadWithTrailingZeros<R> {
    /// The rest of the data, unless zeros were appended already, and the rest of the zeros.
    open spec fn rest_of(st: TrailingZerosState<R::V>) -> Seq<u8> {
        if st.zeros_appended == 0 {
            R::rest_of(st.inner) + zeros(st.zeros_to_append as int)
        } else {
            zeros(Self::zeros_left(st) as int)
        }
    }

    open spec fn reliable_in(st: TrailingZerosState<R::V>) -> bool {
        st.zeros_appended > 0 || R::reliable_in(st.inner)
    }

    /// A read goes to the underlying reader until zeros were appended. Where that has no more, the
    /// reader delivers zeros, as many as the buffer takes, and leaves the rest of the buffer as it
    /// is.
    open spec fn read_from(st: TrailingZerosState<R::V>, buf: Seq<u8>) -> (
        TrailingZerosState<R::V>,
        Seq<u8>,
        Result<nat, IoError>,
    ) {
        if st.zeros_appended > 0 {
            Self::pad(st, buf)
        } else {
            let (inner, left, res) = R::read_from(st.inner, buf);
            let next = TrailingZerosState {
                inner,
                zeros_to_append: st.zeros_to_append,
                zeros_appended: 0,
            };
            if res == Ok::<nat, IoError>(0) {
                Self::pad(next, left)
            } else {
                (next, left, res)
            }
        }
    }

    proof fn lemma_read(st: TrailingZerosState<R::V>, buf: Seq<u8>) {
        R::lemma_read(st.inner, buf);
        let rest = Self::rest_of(st);
        let (next, left, res) = Self::read_from(st, buf);
        if st.zeros_appended > 0 || (R::read_from(st.inner, buf).2 == Ok::<nat, IoError>(0)
            && buf.len() > 0) {
            let n = least(Self::zeros_left(st), buf.len());
            assert(rest =~= zeros(Self::zeros_left(st) as int));
            assert(left.take(n as int) =~= rest.take(n as int));
            assert(Self::rest_of(next) =~= rest.skip(n as int));
        } else {
            match res {
                Ok(n) => {
                    let data = R::rest_of(st.inner);
                    assert(left.take(n as int) =~= R::read_from(st.inner, buf).1.take(n as int));
                    assert(rest.take(n as int) =~= data.take(n as int));
                    assert(Self::rest_of(next) =~= rest.skip(n as int));
                },
                Err(_) => {},
            }
        }
    }

    fn read(&mut self, buf: &mut [u8]) -> (res: Result<usize, IoError>) {
        // there may be data left in the underlying reader
        if self.zeros_appended == 0 {
            let n = match self.inner.read(buf) {
                Ok(n) => n,
                Err(e) => {
                    return Err(e);
                },
            };
            proof {
                R::lemma_read(old(self)@.inner, old(buf)@);
            }
            if n != 0 {
                return Ok(n);
            }
        }
        // append zeros
        if self.zeros_appended < self.zeros_to_append {
            let remaining = self.zeros_to_append - self.zeros_appended;
            let to_write = smaller(remaining, buf.len());
            fill_zeros(buf, to_write);
            self.zeros_appended = self.zeros_appended + to_write;
            return Ok(to_write);
        }
        assert(zeroed(buf@, 0) =~= buf@);
        Ok(0)
    }
}

/// The state of a `Base2PadReader`.
pub struct Base2PadState<S> {
    /// The underlying reader.
    pub inp: S,
    /// Number of bytes of data.
    pub size: nat,
    /// Number of bytes with the padding.
    pub padsize: nat,
    /// Number of bytes that were read.
    pub pos: nat,
}

/// A reader that pads the data of another reader with zeros up to the padded size.
#[derive(Debug)]
pub struct Base2PadReader<R> {
    size: usize,
    padsize: usize,
    pos: usize,
    inp: R,
}

impl<R: ByteSource> View for Base2PadReader<R> {
    type V = Base2PadState<R::V>;

    closed spec fn view(&self) -> Base2PadState<R::V> {
        Base2PadState {
            inp: self.inp@,
            size: self.size as nat,
            padsize: self.padsize as nat,
            pos: self.pos as nat,
        }
    }
}

impl<R: ByteSource> Base2PadReader<R> {
    /// The underlying reader has as much data left as is said.
    pub open spec fn sized(st: Base2PadState<R::V>) -> bool {
        &&& st.size <= st.padsize
        &&& st.pos <= st.padsize
        &&& st.pos < st.size ==> R::rest_of(st.inp).len() == st.size - st.pos
    }

    /// The bytes that are still to come, where the data has the size that is said.
    pub open spec fn stream(st: Base2PadState<R::V>) -> Seq<u8> {
        if st.pos < st.size {
            R::rest_of(st.inp) + zeros(st.padsize - st.size)
        } else {
            zeros(st.padsize - st.pos)
        }
    }

    /// Where the data does not have the size that is said, a read can get the position out of its
    /// bounds.
    pub open spec fn can_read(st: Base2PadState<R::V>, buf: Seq<u8>) -> bool {
        Self::sized(st) || if st.pos < st.size {
            R::read_from(st.inp, buf).2 matches Ok(n) ==> st.pos + n <= usize::MAX
        } else {
            st.pos <= st.padsize
        }
    }

    /// What a read into a buffer does: it goes to the underlying reader until the data should be
    /// there. From then on the reader sets the whole buffer to zero and delivers as many bytes as
    /// are missing.
    pub open spec fn read_from(st: Base2PadState<R::V>, buf: Seq<u8>) -> (
        Base2PadState<R::V>,
        Seq<u8>,
        Result<nat, IoError>,
    ) {
        let (inp, left, res) = if st.pos < st.size {
            R::read_from(st.inp, buf)
        } else {
            let n = least((st.padsize - st.pos) as nat, buf.len());
            (st.inp, zeros(buf.len() as int), Ok(n))
        };
        let pos = match res {
            Ok(n) => st.pos + n,
            Err(_) => st.pos,
        };
        (Base2PadState { inp, size: st.size, padsize: st.padsize, pos }, left, res)
    }

    /// Where the data has the size that is said, a read takes bytes off the stream.
    pub proof fn lemma_read(st: Base2PadState<R::V>, buf: Seq<u8>)
        requires
            Self::sized(st),
        ensures
            Self::sized(Self::read_from(st, buf).0),
            Self::read_from(st, buf).1.len() == buf.len(),
            R::reliable_in(st.inp) ==> Self::read_from(st, buf).2 is Ok && R::reliable_in(
                Self::read_from(st, buf).0.inp,
            ),
            match Self::read_from(st, buf).2 {
                Ok(n) => delivers(
                    Self::stream(st),
                    buf,
                    Self::stream(Self::read_from(st, buf).0),
                    Self::read_from(st, buf).1,
                    n,
                ),
                Err(_) => Self::stream(Self::read_from(st, buf).0) == Self::stream(st),
            },
    {
        R::lemma_read(st.inp, buf);
        let stream = Self::stream(st);
        let (next, left, res) = Self::read_from(st, buf);
        match res {
            Ok(n) => {
                if st.pos < st.size {
                    let data = R::rest_of(st.inp);
                    assert(stream.take(n as int) =~= data.take(n as int));
                } else {
                    assert(left.take(n as int) =~= stream.take(n as int));
                }
                assert(Self::stream(next) =~= stream.skip(n as int));
            },
            Err(_) => {},
        }
    }

    /// Reads some bytes into a buffer and returns their number. Zero bytes mean that there are no
    /// more, or that the buffer is empty. Data that ends before its size is not padded.
    pub fn read(&mut self, buf: &mut [u8]) -> (res: Result<usize, IoError>)
        requires
            Self::can_read(old(self)@, old(buf)@),
        ensures
            (final(self)@, final(buf)@, counted(res)) == Self::read_from(old(self)@, old(buf)@),
            Self::sized(old(self)@) ==> Self::sized(final(self)@),
            Self::sized(old(self)@) ==> (res matches Ok(n) ==> delivers(
                Self::stream(old(self)@),
                old(buf)@,
                Self::stream(final(self)@),
                final(buf)@,
                n as nat,
            )),
    {
        proof {
            if Self::sized(self@) {
                Self::lemma_read(self@, buf@);
            }
        }
        let cs: usize = if self.pos >= self.size {
            let len = buf.len();
            fill_zeros(buf, len);
            assert(buf@ =~= zeros(len as int));
            smaller(self.padsize - self.pos, len)
        } else {
            match self.inp.read(buf) {
                Ok(n) => n,
                Err(e) => {
                    return Err(e);
                },
            }
        };
        self.pos = self.pos + cs;
        Ok(cs)
    }

    /// Reads all the bytes that are still to come.
    pub fn read_to_end(&mut self) -> (res: Result<Vec<u8>, IoError>)
        requires
            Self::sized(old(self)@),
        ensures
            res matches Ok(bytes) ==> bytes@ == Self::stream(old(self)@) && Self::stream(
                final(self)@,
            ).len() == 0,
            R::reliable_in(old(self)@.inp) ==> res is Ok,
            Self::sized(final(self)@),
    {
        let ghost whole = Self::stream(self@);
        let mut bytes: Vec<u8> = Vec::new();
        let mut buf: [u8; 1024] = [0u8; 1024];
        assert(bytes@ + whole =~= whole);
        loop
            invariant
                Self::sized(self@),
                R::reliable_in(old(self)@.inp) ==> R::reliable_in(self@.inp),
                bytes@ + Self::stream(self@) == whole,
                whole == Self::stream(old(self)@),
            decreases Self::stream(self@).len(),
        {
            let ghost rest = Self::stream(self@);
            let ghost before = bytes@;
            proof {
                Self::lemma_read(self@, buf@);
            }
            match self.read(&mut buf) {
                Err(e) => {
                    return Err(e);
                },
                Ok(n) => {
                    if n == 0 {
                        assert(rest.skip(0) =~= rest);
                        assert(bytes@ =~= whole);
                        return Ok(bytes);
                    }
                    let mut i: usize = 0;
                    while i < n
                        invariant
                            i <= n <= 1024,
                            n <= rest.len(),
                            buf@.take(n as int) == rest.take(n as int),
                            bytes@ == before + rest.take(i as int),
                        decreases n - i,
                    {
                        bytes.push(buf[i]);
                        i = i + 1;
                        proof {
                            assert(buf@.take(n as int)[i - 1] == rest.take(n as int)[i - 1]);
                            assert(bytes@ =~= before + rest.take(i as int));
                        }
                    }
                    assert(before + rest =~= bytes@ + rest.skip(n as int));
                },
            }
        }
    }
}

/// Pads the data of a reader, of which there are `size` bytes, with zeros up to its padded size.
pub fn base2_padded<R: ByteSource>(inp: R, size: u64) -> (res: Base2PadReader<R>)
    requires
        size < 0x8000_0000_0000_0000,
        next_power(size as int) <= usize::MAX,
    ensures
        res@ == (Base2PadState {
            inp: inp@,
            size: size as nat,
            padsize: next_power(size as int) as nat,
            pos: 0,
        }),
        R::rest_of(inp@).len() == size ==> Base2PadReader::<R>::sized(res@)
            && Base2PadReader::<R>::stream(res@) == R::rest_of(inp@) + zeros(
            next_power(size as int) - size,
        ),
{
    let padded = padded_size(size);
    let res = Base2PadReader { size: size as usize, padsize: padded as usize, pos: 0, inp };
    proof {
        if R::rest_of(inp@).len() == size {
            assert(Base2PadReader::<R>::stream(res@) =~= R::rest_of(inp@) + zeros(
                next_power(size as int) - size,
            ));
        }
    }
    res
}

} // verus!
