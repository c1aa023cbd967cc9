//! What padded readers deliver over all reads.
use crate::error::IoError;
use crate::padding::{
    delivers, lemma_next_power, next_power, zeroed, zeros, Base2PadReader, Base2PadState,
    ByteSource, ReadWithTrailingZeros, SliceSource, TrailingZerosState, ZeroPaddingReader,
    ZeroPaddingState,
};
use vstd::prelude::*;

verus! {

/// What a read into a buffer does in a state: the state and the buffer after it, and the number of
/// bytes or the failure.
pub type ReadFn<S> = spec_fn(S, Seq<u8>) -> (S, Seq<u8>, Result<nat, IoError>);

/// Reads into one buffer after the other: the bytes that they deliver in all, and the state after
/// them. A read that fails delivers none.
pub open spec fn reads<S>(read: ReadFn<S>, st: S, bufs: Seq<Seq<u8>>) -> (Seq<u8>, S)
    decreases bufs.len(),
{
    if bufs.len() == 0 {
        (Seq::empty(), st)
    } else {
        let (next, left, res) = read(st, bufs[0]);
        let (out, last) = reads(read, next, bufs.skip(1));
        match res {
            Ok(n) => (left.take(n as int) + out, last),
            Err(_) => (out, last),
        }
    }
}

/// The buffers that reads leave, and what they return.
pub open spec fn outcomes<S>(read: ReadFn<S>, st: S, bufs: Seq<Seq<u8>>) -> Seq<
    (Seq<u8>, Result<nat, IoError>),
>
    decreases bufs.len(),
{
    if bufs.len() == 0 {
        Seq::empty()
    } else {
        let (next, left, res) = read(st, bufs[0]);
        seq![(left, res)] + outcomes(read, next, bufs.skip(1))
    }
}

/// A read takes bytes off the stream, or fails and takes none, and keeps the invariant.
spec fn follows_stream<S>(
    read: ReadFn<S>,
    stream: spec_fn(S) -> Seq<u8>,
    inv: spec_fn(S) -> bool,
) -> bool {
    forall|st: S, buf: Seq<u8>|
        inv(st) ==> {
            let (next, left, res) = #[trigger] read(st, buf);
            &&& inv(next)
            &&& match res {
                Ok(n) => delivers(stream(st), buf, stream(next), left, n),
                Err(_) => stream(next) == stream(st),
            }
        }
}

proof fn lemma_reads<S>(
    read: ReadFn<S>,
    stream: spec_fn(S) -> Seq<u8>,
    inv: spec_fn(S) -> bool,
    st: S,
    bufs: Seq<Seq<u8>>,
)
    requires
        follows_stream(read, stream, inv),
        inv(st),
    ensures
        inv(reads(read, st, bufs).1),
        reads(read, st, bufs).0 + stream(reads(read, st, bufs).1) == stream(st),
    decreases bufs.len(),
{
    if bufs.len() == 0 {
        assert(Seq::<u8>::empty() + stream(st) =~= stream(st));
    } else {
        let (next, left, res) = read(st, bufs[0]);
        lemma_reads(read, stream, inv, next, bufs.skip(1));
        let (out, last) = reads(read, next, bufs.skip(1));
        if res is Ok {
            let n = res->Ok_0 as int;
            assert(left.take(n) + out + stream(last) =~= left.take(n) + (out + stream(last)));
            assert(stream(st) =~= stream(st).take(n) + stream(st).skip(n));
        }
    }
}

/// The reads of a source.
pub open spec fn source_reads<R: ByteSource>() -> ReadFn<R::V> {
    |st: R::V, buf: Seq<u8>| R::read_from(st, buf)
}

proof fn lemma_source_follows<R: ByteSource>()
    ensures
        follows_stream(
            source_reads::<R>(),
            |st: R::V| R::rest_of(st),
            |st: R::V| true,
        ),
{
    let read = source_reads::<R>();
    assert forall|st: R::V, buf: Seq<u8>| true implies {
        let (next, left, res) = #[trigger] read(st, buf);
        match res {
            Ok(n) => delivers(R::rest_of(st), buf, R::rest_of(next), left, n),
            Err(_) => R::rest_of(next) == R::rest_of(st),
        }
    } by {
        R::lemma_read(st, buf);
    }
}

/// Whatever the buffers are, empty ones too, and whatever fails in between, a source delivers its
/// bytes in order, none twice and none left out.
pub proof fn law_reads_deliver<R: ByteSource>(st: R::V, bufs: Seq<Seq<u8>>)
    ensures
        ({
            let (out, last) = reads(source_reads::<R>(), st, bufs);
            out + R::rest_of(last) == R::rest_of(st)
        }),
{
    lemma_source_follows::<R>();
    lemma_reads(source_reads::<R>(), |st: R::V| R::rest_of(st), |st: R::V| true, st, bufs);
}

/// Where a read into a buffer that is not empty gives no bytes, the source has delivered all of its
/// bytes, and no later read gives any.
pub proof fn law_reads_reach_the_end<R: ByteSource>(
    st: R::V,
    bufs: Seq<Seq<u8>>,
    buf: Seq<u8>,
    later: Seq<Seq<u8>>,
    another: Seq<u8>,
)
    requires
        buf.len() > 0,
        R::read_from(reads(source_reads::<R>(), st, bufs).1, buf).2 == Ok::<nat, IoError>(0),
    ensures
        reads(source_reads::<R>(), st, bufs).0 == R::rest_of(st),
        ({
            let last = reads(source_reads::<R>(), st, bufs).1;
            let end = R::read_from(last, buf).0;
            let (more, after) = reads(source_reads::<R>(), end, later);
            &&& more == Seq::<u8>::empty()
            &&& R::read_from(after, another).2 is Ok ==> R::read_from(after, another).2 == Ok::<
                nat,
                IoError,
            >(0)
        }),
{
    law_reads_deliver::<R>(st, bufs);
    let (out, last) = reads(source_reads::<R>(), st, bufs);
    R::lemma_read(last, buf);
    assert(out + R::rest_of(last) =~= out);
    let end = R::read_from(last, buf).0;
    law_reads_deliver::<R>(end, later);
    let (more, after) = reads(source_reads::<R>(), end, later);
    assert(more.len() + R::rest_of(after).len() == (more + R::rest_of(after)).len());
    assert(more =~= Seq::empty());
    R::lemma_read(after, another);
}

/// Over all reads a `ZeroPaddingReader` delivers the data and then the zeros, and a read into a
/// buffer that is not empty gives no bytes only behind the last zero.
pub proof fn law_zero_padding_delivers<R: ByteSource>(
    inner: R::V,
    count: nat,
    bufs: Seq<Seq<u8>>,
    buf: Seq<u8>,
)
    requires
        buf.len() > 0,
    ensures
        ({
            let st = ZeroPaddingState { inner, zeros_left: count, eof_reached: false };
            let whole = R::rest_of(inner) + zeros(count as int);
            let (out, last) = reads(source_reads::<ZeroPaddingReader<R>>(), st, bufs);
            &&& out == whole.take(out.len() as int)
            &&& ZeroPaddingReader::<R>::read_from(last, buf).2 == Ok::<nat, IoError>(0) ==> out
                == whole
        }),
{
    let st = ZeroPaddingState { inner, zeros_left: count, eof_reached: false };
    law_reads_deliver::<ZeroPaddingReader<R>>(st, bufs);
    let (out, last) = reads(source_reads::<ZeroPaddingReader<R>>(), st, bufs);
    let whole = R::rest_of(inner) + zeros(count as int);
    assert(out =~= whole.take(out.len() as int));
    if ZeroPaddingReader::<R>::read_from(last, buf).2 == Ok::<nat, IoError>(0) {
        law_reads_reach_the_end::<ZeroPaddingReader<R>>(st, bufs, buf, Seq::empty(), buf);
    }
}

/// Over all reads a `ReadWithTrailingZeros` delivers the data and then the zeros, and a read into a
/// buffer that is not empty gives no bytes only behind the last zero.
pub proof fn law_trailing_zeros_delivers<R: ByteSource>(
    inner: R::V,
    count: nat,
    bufs: Seq<Seq<u8>>,
    buf: Seq<u8>,
)
    requires
        buf.len() > 0,
    ensures
        ({
            let st = TrailingZerosState { inner, zeros_to_append: count, zeros_appended: 0 };
            let whole = R::rest_of(inner) + zeros(count as int);
            let (out, last) = reads(source_reads::<ReadWithTrailingZeros<R>>(), st, bufs);
            &&& out == whole.take(out.len() as int)
            &&& ReadWithTrailingZeros::<R>::read_from(last, buf).2 == Ok::<nat, IoError>(0) ==> out
                == whole
        }),
{
    let st = TrailingZerosState { inner, zeros_to_append: count, zeros_appended: 0 };
    law_reads_deliver::<ReadWithTrailingZeros<R>>(st, bufs);
    let (out, last) = reads(source_reads::<ReadWithTrailingZeros<R>>(), st, bufs);
    let whole = R::rest_of(inner) + zeros(count as int);
    assert(out =~= whole.take(out.len() as int));
    if ReadWithTrailingZeros::<R>::read_from(last, buf).2 == Ok::<nat, IoError>(0) {
        law_reads_reach_the_end::<ReadWithTrailingZeros<R>>(st, bufs, buf, Seq::empty(), buf);
    }
}

/// Behind its end the source gives no bytes, and leaves the buffer as it is.
pub open spec fn ends_for_good<R: ByteSource>() -> bool {
    forall|st: R::V, buf: Seq<u8>, another: Seq<u8>|
        buf.len() > 0 && (#[trigger] R::read_from(st, buf)).2 == Ok::<nat, IoError>(0) ==> {
            let (_, left, res) = #[trigger] R::read_from(R::read_from(st, buf).0, another);
            left == another && res == Ok::<nat, IoError>(0)
        }
}

/// A source of bytes in memory has an end for good.
pub proof fn law_slices_end_for_good()
    ensures
        ends_for_good::<SliceSource>(),
{
    assert forall|st: Seq<u8>, buf: Seq<u8>, another: Seq<u8>|
        buf.len() > 0 && (#[trigger] SliceSource::read_from(st, buf)).2 == Ok::<nat, IoError>(
            0,
        ) implies {
        let (_, left, res) = #[trigger] SliceSource::read_from(
            SliceSource::read_from(st, buf).0,
            another,
        );
        left == another && res == Ok::<nat, IoError>(0)
    } by {
        assert(st.skip(0) =~= st);
        assert(st.take(0) + another.skip(0) =~= another);
    }
}

/// The state is one behind the end of the source.
spec fn at_end<R: ByteSource>(st: R::V) -> bool {
    exists|before: R::V, buf: Seq<u8>|
        buf.len() > 0 && (#[trigger] R::read_from(before, buf)).2 == Ok::<nat, IoError>(0)
            && R::read_from(before, buf).0 == st
}

/// The two readers have the same to deliver.
spec fn alike<R: ByteSource>(
    a: ZeroPaddingState<R::V>,
    b: TrailingZerosState<R::V>,
) -> bool {
    &&& a.zeros_left == ReadWithTrailingZeros::<R>::zeros_left(b)
    &&& if a.eof_reached {
        b.zeros_appended > 0 || (a.zeros_left == 0 && at_end::<R>(b.inner))
    } else {
        b.zeros_appended == 0 && a.inner == b.inner
    }
}

proof fn lemma_alike<R: ByteSource>(
    a: ZeroPaddingState<R::V>,
    b: TrailingZerosState<R::V>,
    buf: Seq<u8>,
)
    requires
        ends_for_good::<R>(),
        alike::<R>(a, b),
        buf.len() > 0,
    ensures
        ({
            let (a1, la, ra) = ZeroPaddingReader::<R>::read_from(a, buf);
            let (b1, lb, rb) = ReadWithTrailingZeros::<R>::read_from(b, buf);
            &&& la == lb
            &&& ra == rb
            &&& alike::<R>(a1, b1)
        }),
{
    R::lemma_read(b.inner, buf);
    assert(zeroed(buf, 0) =~= buf);
    if a.eof_reached && b.zeros_appended == 0 {
        let (before, old_buf) = choose|before: R::V, old_buf: Seq<u8>|
            old_buf.len() > 0 && (#[trigger] R::read_from(before, old_buf)).2 == Ok::<nat, IoError>(
                0,
            ) && R::read_from(before, old_buf).0 == b.inner;
        let (inner, left, res) = R::read_from(R::read_from(before, old_buf).0, buf);
        assert(left == buf && res == Ok::<nat, IoError>(0));
        assert(R::read_from(b.inner, buf).0 == inner);
        assert(at_end::<R>(inner));
    } else if !a.eof_reached && R::read_from(b.inner, buf).2 == Ok::<nat, IoError>(0) {
        assert(at_end::<R>(R::read_from(b.inner, buf).0));
    }
}

/// Over the same data, the two readers that append zeros give the same results and leave the same
/// buffers, read by read and failures included, for buffers that are not empty.
pub proof fn law_zero_readers_agree<R: ByteSource>(inner: R::V, count: nat, bufs: Seq<Seq<u8>>)
    requires
        ends_for_good::<R>(),
        forall|i: int| 0 <= i < bufs.len() ==> (#[trigger] bufs[i]).len() > 0,
    ensures
        outcomes(
            source_reads::<ZeroPaddingReader<R>>(),
            ZeroPaddingState { inner, zeros_left: count, eof_reached: false },
            bufs,
        ) == outcomes(
            source_reads::<ReadWithTrailingZeros<R>>(),
            TrailingZerosState { inner, zeros_to_append: count, zeros_appended: 0 },
            bufs,
        ),
{
    lemma_agree::<R>(
        ZeroPaddingState { inner, zeros_left: count, eof_reached: false },
        TrailingZerosState { inner, zeros_to_append: count, zeros_appended: 0 },
        bufs,
    );
}

proof fn lemma_agree<R: ByteSource>(
    a: ZeroPaddingState<R::V>,
    b: TrailingZerosState<R::V>,
    bufs: Seq<Seq<u8>>,
)
    requires
        ends_for_good::<R>(),
        alike::<R>(a, b),
        forall|i: int| 0 <= i < bufs.len() ==> (#[trigger] bufs[i]).len() > 0,
    ensures
        outcomes(source_reads::<ZeroPaddingReader<R>>(), a, bufs) == outcomes(
            source_reads::<ReadWithTrailingZeros<R>>(),
            b,
            bufs,
        ),
    decreases bufs.len(),
{
    if bufs.len() > 0 {
        lemma_alike::<R>(a, b, bufs[0]);
        let a1 = ZeroPaddingReader::<R>::read_from(a, bufs[0]).0;
        let b1 = ReadWithTrailingZeros::<R>::read_from(b, bufs[0]).0;
        let rest = bufs.skip(1);
        assert(forall|i: int| 0 <= i < rest.len() ==> rest[i] == bufs[i + 1]);
        lemma_agree::<R>(a1, b1, rest);
    }
}

/// The reads of a `Base2PadReader`.
pub open spec fn base2_reads<R: ByteSource>() -> ReadFn<Base2PadState<R::V>> {
    |st: Base2PadState<R::V>, buf: Seq<u8>| Base2PadReader::<R>::read_from(st, buf)
}

/// Over all reads, whatever the buffers are, padding the `n` bytes of a reader delivers them and
/// then zeros, up to the padded size. The position never passes the padded size, so that a read is
/// always possible. A read into a buffer that is not empty gives no bytes only at the end, and once
/// the data is delivered the reader is left as it is.
pub proof fn law_base2_delivers<R: ByteSource>(
    inp: R::V,
    n: nat,
    bufs: Seq<Seq<u8>>,
    buf: Seq<u8>,
)
    requires
        R::rest_of(inp).len() == n,
        buf.len() > 0,
    ensures
        ({
            let padded = next_power(n as int) as nat;
            let st = Base2PadState { inp, size: n, padsize: padded, pos: 0 };
            let whole = R::rest_of(inp) + zeros(padded - n);
            let (out, last) = reads(base2_reads::<R>(), st, bufs);
            let (next, _, res) = Base2PadReader::<R>::read_from(last, buf);
            &&& whole.len() == padded
            &&& out == whole.take(out.len() as int)
            &&& last.pos == out.len()
            &&& last.pos <= last.padsize == padded
            &&& Base2PadReader::<R>::can_read(last, buf)
            &&& R::reliable_in(inp) ==> res is Ok
            &&& res is Ok ==> (res == Ok::<nat, IoError>(0) <==> out == whole)
            &&& out.len() >= n ==> next.inp == last.inp && res is Ok
        }),
{
    lemma_next_power(n as int);
    let padded = next_power(n as int) as nat;
    let st = Base2PadState { inp, size: n, padsize: padded, pos: 0 };
    let whole = R::rest_of(inp) + zeros(padded - n);
    assert(Base2PadReader::<R>::stream(st) =~= whole);
    let read = base2_reads::<R>();
    let stream = |st: Base2PadState<R::V>| Base2PadReader::<R>::stream(st);
    let good = R::reliable_in(inp);
    let inv = |a: Base2PadState<R::V>|
        Base2PadReader::<R>::sized(a) && a.size == n && a.padsize == padded && (good
            ==> R::reliable_in(a.inp));
    assert forall|a: Base2PadState<R::V>, b: Seq<u8>| inv(a) implies {
        let (next, left, res) = #[trigger] read(a, b);
        &&& inv(next)
        &&& match res {
            Ok(k) => delivers(stream(a), b, stream(next), left, k),
            Err(_) => stream(next) == stream(a),
        }
    } by {
        Base2PadReader::<R>::lemma_read(a, b);
    }
    lemma_reads(read, stream, inv, st, bufs);
    let (out, last) = reads(read, st, bufs);
    assert((out + stream(last)).len() == out.len() + stream(last).len());
    assert(out =~= whole.take(out.len() as int));
    Base2PadReader::<R>::lemma_read(last, buf);
    if out.len() == whole.len() {
        assert(out =~= whole);
    }
}

} // verus!
