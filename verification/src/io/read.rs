use std::borrow::Cow;

use vstd::prelude::*;

use crate::error::{unexpected_eof, SeaboredDeError};

verus! {

pub type ReadResult<T> = Result<T, SeaboredDeError>;

/// The value of a byte sequence read as a big-endian unsigned integer.
pub open spec fn be_value(s: Seq<u8>) -> nat
    decreases s.len(),
{
    if s.len() == 0 {
        0
    } else {
        be_value(s.drop_last()) * 256 + s.last() as nat
    }
}

/// A source of bytes for CBOR decoding.
///
/// A reader that is an exact stream (`exact_stream`) is described by the
/// bytes it has not yet handed out (`remaining`): every operation hands out
/// a prefix of them and succeeds exactly when enough of them remain; else it
/// fails with `IoKind(UnexpectedEof)` and leaves the stream as it was. Readers over
/// outside I/O sources, whose contents the library cannot see, are no exact
/// streams, and their operations promise nothing here.
pub trait Read<'data> {
    /// Whether this reader is an exact stream, so that the contracts of its
    /// operations bind it.
    open spec fn exact_stream() -> bool {
        false
    }

    /// For an exact stream, the bytes not yet consumed. A reader that is no
    /// exact stream keeps this empty default, which describes nothing of it.
    open spec fn remaining(&self) -> Seq<u8> {
        Seq::empty()
    }

    /// Peek a single byte over the data stream, without advancing it.
    /// This is mostly used for looking ahead at the CBOR Initial Byte
    /// and taking decisions over it
    fn peek_byte(&mut self) -> (r: ReadResult<u8>)
        ensures
            Self::exact_stream() ==> {
                &&& (*final(self)).remaining() == (*old(self)).remaining()
                &&& if (*old(self)).remaining().len() > 0 {
                    r == Ok::<u8, SeaboredDeError>((*old(self)).remaining()[0])
                } else {
                    r matches Err(SeaboredDeError::IoKind(std::io::ErrorKind::UnexpectedEof))
                }
            },
    ;

    /// Manually advances the data stream by `n` bytes. Usually used in tandem with [`Self::peek_byte`]
    fn advance(&mut self, n: usize) -> (r: ReadResult<()>)
        ensures
            Self::exact_stream() ==> if n <= (*old(self)).remaining().len() {
                &&& r is Ok
                &&& (*final(self)).remaining() == (*old(self)).remaining().skip(n as int)
            } else {
                &&& r matches Err(SeaboredDeError::IoKind(std::io::ErrorKind::UnexpectedEof))
                &&& (*final(self)).remaining() == (*old(self)).remaining()
            },
    ;

    /// Read a single byte from the data stream
    fn read_byte(&mut self) -> (r: ReadResult<u8>)
        ensures
            Self::exact_stream() ==> if (*old(self)).remaining().len() > 0 {
                &&& r == Ok::<u8, SeaboredDeError>((*old(self)).remaining()[0])
                &&& (*final(self)).remaining() == (*old(self)).remaining().drop_first()
            } else {
                &&& r matches Err(SeaboredDeError::IoKind(std::io::ErrorKind::UnexpectedEof))
                &&& (*final(self)).remaining() == (*old(self)).remaining()
            },
    ;

    /// Read a byte slice from the data stream of length `len`
    /// Errors out if `n` is bigger than the remaining data stream
    fn read_slice<'a>(&'a mut self, len: usize) -> (r: ReadResult<Cow<'data, [u8]>>)
        ensures
            r matches Ok(bytes) ==> bytes@.len() == len,
            Self::exact_stream() ==> if len <= (*old(self)).remaining().len() {
                &&& r matches Ok(bytes) && bytes@ == (*old(self)).remaining().take(len as int)
                &&& (*final(self)).remaining() == (*old(self)).remaining().skip(len as int)
            } else {
                &&& r matches Err(SeaboredDeError::IoKind(std::io::ErrorKind::UnexpectedEof))
                &&& (*final(self)).remaining() == (*old(self)).remaining()
            },
    ;

    /// Read a byte array from the data stream of len `N`
    /// Basically behaves the same as [`Self::read_slice`] but with a sized slice
    fn read_array<const N: usize>(&mut self) -> (r: ReadResult<Cow<'data, [u8; N]>>)
        ensures
            r matches Ok(bytes) ==> bytes@.len() == N,
            Self::exact_stream() ==> if N <= (*old(self)).remaining().len() {
                &&& r matches Ok(bytes) && bytes@ == (*old(self)).remaining().take(N as int)
                &&& (*final(self)).remaining() == (*old(self)).remaining().skip(N as int)
            } else {
                &&& r matches Err(SeaboredDeError::IoKind(std::io::ErrorKind::UnexpectedEof))
                &&& (*final(self)).remaining() == (*old(self)).remaining()
            },
    ;

    /// Provided implementation that hopefully erases the internal Cow for performance
    fn read_be_u16(&mut self) -> (r: ReadResult<u16>)
        ensures
            Self::exact_stream() ==> if 2 <= (*old(self)).remaining().len() {
                &&& r matches Ok(v) && v as nat == be_value((*old(self)).remaining().take(2))
                &&& (*final(self)).remaining() == (*old(self)).remaining().skip(2)
            } else {
                &&& r matches Err(SeaboredDeError::IoKind(std::io::ErrorKind::UnexpectedEof))
                &&& (*final(self)).remaining() == (*old(self)).remaining()
            },
    {
        match self.read_array::<2>() {
            Ok(arr) => {
                let v = be_u64_from_array(cow_array(&arr));
                proof {
                    lemma_be_value_bound(arr@);
                    assert(pow256(2) == 0x10000) by {
                        reveal_with_fuel(pow256, 3);
                    }
                }
                Ok(v as u16)
            },
            Err(e) => Err(e),
        }
    }

    /// Provided implementation that hopefully erases the internal Cow for performance
    fn read_be_u32(&mut self) -> (r: ReadResult<u32>)
        ensures
            Self::exact_stream() ==> if 4 <= (*old(self)).remaining().len() {
                &&& r matches Ok(v) && v as nat == be_value((*old(self)).remaining().take(4))
                &&& (*final(self)).remaining() == (*old(self)).remaining().skip(4)
            } else {
                &&& r matches Err(SeaboredDeError::IoKind(std::io::ErrorKind::UnexpectedEof))
                &&& (*final(self)).remaining() == (*old(self)).remaining()
            },
    {
        match self.read_array::<4>() {
            Ok(arr) => {
                let v = be_u64_from_array(cow_array(&arr));
                proof {
                    lemma_be_value_bound(arr@);
                    assert(pow256(4) == 0x100000000) by {
                        reveal_with_fuel(pow256, 5);
                    }
                }
                Ok(v as u32)
            },
            Err(e) => Err(e),
        }
    }

    /// Provided implementation that hopefully erases the internal Cow for performance
    fn read_be_u64(&mut self) -> (r: ReadResult<u64>)
        ensures
            Self::exact_stream() ==> if 8 <= (*old(self)).remaining().len() {
                &&& r matches Ok(v) && v as nat == be_value((*old(self)).remaining().take(8))
                &&& (*final(self)).remaining() == (*old(self)).remaining().skip(8)
            } else {
                &&& r matches Err(SeaboredDeError::IoKind(std::io::ErrorKind::UnexpectedEof))
                &&& (*final(self)).remaining() == (*old(self)).remaining()
            },
    {
        match self.read_array::<8>() {
            Ok(arr) => Ok(be_u64_from_array(cow_array(&arr))),
            Err(e) => Err(e),
        }
    }
}

/// 256 to the power `n`: one more than the largest value `n` bytes hold.
pub open spec fn pow256(n: nat) -> nat
    decreases n,
{
    if n == 0 {
        1
    } else {
        pow256((n - 1) as nat) * 256
    }
}

/// A big-endian value of `s.len()` bytes is below `256` to that power.
pub proof fn lemma_be_value_bound(s: Seq<u8>)
    ensures
        be_value(s) < pow256(s.len()),
    decreases s.len(),
{
    if s.len() > 0 {
        let init = s.drop_last();
        lemma_be_value_bound(init);
        let a = be_value(init);
        let p = pow256(init.len());
        let l = s.last() as nat;
        assert(a * 256 + l < p * 256) by (nonlinear_arith)
            requires
                a < p,
                l < 256,
        ;
    }
}

/// The bytes a copy-on-write array holds, borrowed either way.
fn cow_array<'c, 'data, const N: usize>(c: &'c Cow<'data, [u8; N]>) -> (a: &'c [u8; N])
    ensures
        a@ == c@,
{
    match c {
        Cow::Borrowed(b) => *b,
        Cow::Owned(o) => o,
    }
}

/// The big-endian value of up to eight bytes.
fn be_u64_from_array<const N: usize>(a: &[u8; N]) -> (v: u64)
    requires
        N <= 8,
    ensures
        v as nat == be_value(a@),
{
    let mut v: u64 = 0;
    let mut i: usize = 0;
    while i < N
        invariant
            i <= N <= 8,
            a@.len() == N,
            v as nat == be_value(a@.take(i as int)),
        decreases N - i,
    {
        proof {
            lemma_be_value_bound(a@.take(i as int));
            assert(pow256(i as nat) <= pow256(7)) by {
                lemma_pow256_monotone(i as nat, 7);
            }
            assert(pow256(7) == 0x100000000000000) by {
                reveal_with_fuel(pow256, 8);
            }
            assert(a@.take(i + 1).drop_last() == a@.take(i as int));
        }
        v = v * 256 + a[i] as u64;
        i = i + 1;
    }
    assert(a@.take(N as int) == a@);
    v
}

/// Powers of 256 grow with the exponent.
pub proof fn lemma_pow256_monotone(m: nat, n: nat)
    requires
        m <= n,
    ensures
        pow256(m) <= pow256(n),
    decreases n,
{
    if m < n {
        lemma_pow256_monotone(m, (n - 1) as nat);
    }
}

/// What entering one more nesting level does to a reader at `depth` under
/// `limit`: the new depth when it stays within the limit, else the overflow
/// error that reports the depth it would have reached.
pub open spec fn enter_outcome(depth: usize, limit: usize) -> Result<usize, SeaboredDeError> {
    if depth + 1 <= limit {
        Ok((depth + 1) as usize)
    } else {
        Err(SeaboredDeError::AllowedDepthOverflow { depth: (depth + 1) as usize, limit })
    }
}

/// The outcome of `k` nested entries, one after the other, starting at
/// `depth`: the first failure stops the chain.
pub open spec fn nested_enters(depth: usize, limit: usize, k: nat) -> Result<usize, SeaboredDeError>
    decreases k,
{
    if k == 0 {
        Ok(depth)
    } else {
        match nested_enters(depth, limit, (k - 1) as nat) {
            Ok(d) => enter_outcome(d, limit),
            Err(e) => Err(e),
        }
    }
}

/// Entering one more level from `depth` succeeds exactly when the new depth
/// `depth + 1` stays within `limit`, for every limit (`usize::MAX` too); a
/// success reaches depth `depth + 1`, and a refusal reports that depth and
/// the limit.
pub proof fn lemma_enter_admits_within_limit(depth: usize, limit: usize)
    ensures
        enter_outcome(depth, limit) is Ok <==> depth + 1 <= limit,
        enter_outcome(depth, limit) matches Ok(d) ==> d == depth + 1 && d <= limit,
        depth < usize::MAX && depth + 1 > limit ==> enter_outcome(depth, limit)
            == Err::<usize, SeaboredDeError>(
            SeaboredDeError::AllowedDepthOverflow { depth: (depth + 1) as usize, limit },
        ),
{
}

/// A fresh reader with depth limit `limit` admits exactly `limit` nested
/// levels, for every limit: `k` nested entries all succeed, reaching depth
/// `k`, exactly when `k <= limit`; past the limit the chain fails, with the
/// error that reports depth `limit + 1` whenever that depth is a `usize`.
pub proof fn lemma_nesting_bounded_by_limit(limit: usize, k: nat)
    ensures
        nested_enters(0, limit, k) is Ok <==> k <= limit,
        k <= limit ==> nested_enters(0, limit, k) == Ok::<usize, SeaboredDeError>(k as usize),
        k > limit && limit < usize::MAX ==> nested_enters(0, limit, k)
            == Err::<usize, SeaboredDeError>(
            SeaboredDeError::AllowedDepthOverflow { depth: (limit + 1) as usize, limit },
        ),
    decreases k,
{
    if k > 0 {
        lemma_nesting_bounded_by_limit(limit, (k - 1) as nat);
        if k - 1 <= limit {
            lemma_enter_admits_within_limit((k - 1) as usize, limit);
        }
    }
}

/// A fresh reader with a nonzero limit admits its first level, whatever the
/// limit.
pub proof fn lemma_first_level_admitted(limit: usize)
    requires
        limit >= 1,
    ensures
        enter_outcome(0, limit) == Ok::<usize, SeaboredDeError>(1),
{
    lemma_enter_admits_within_limit(0, limit);
}

#[derive(Debug)]
/// Depth-aware wrapper around a [`Read`] implementation.
/// If you care about billion-laughs attacks, then you should use it.
pub struct DepthAwareReader<'data, R: Read<'data>> {
    reader: R,
    limit: usize,
    depth: usize,
    _marker: std::marker::PhantomData<&'data ()>,
}

impl<'data, R: Read<'data>> DepthAwareReader<'data, R> {
    /// Default depth limit
    pub const DEFAULT_LIMIT: usize = 256;

    /// The wrapped reader.
    pub closed spec fn inner(&self) -> R {
        self.reader
    }

    /// The nesting depth entered so far.
    pub closed spec fn depth(&self) -> usize {
        self.depth
    }

    /// The deepest nesting allowed.
    pub closed spec fn limit(&self) -> usize {
        self.limit
    }

    /// Initializes a DepthAwareReader using [`Self::DEFAULT_LIMIT`] as a depth limit
    pub fn from_reader(reader: R) -> (r: Self)
        ensures
            r.inner() == reader,
            r.limit() == Self::DEFAULT_LIMIT,
            r.limit() == 256,
            r.depth() == 0,
    {
        Self {
            reader,
            limit: Self::DEFAULT_LIMIT,
            depth: 0,
            _marker: std::marker::PhantomData,
        }
    }

    /// Initializes a DepthAwareReader using a custom depth limit
    pub fn from_reader_with_limit(reader: R, limit: usize) -> (r: Self)
        ensures
            r.inner() == reader,
            r.limit() == limit,
            r.depth() == 0,
    {
        Self {
            reader,
            limit,
            depth: 0,
            _marker: std::marker::PhantomData,
        }
    }

    /// Increments the current depth, checks if it didn't exceed the limit and
    /// returns a Guard that exits this depth when dropped
    ///
    /// The guard gives its levels back in its `Drop`; a guard that is never
    /// dropped (one passed to `std::mem::forget`) keeps them.
    pub fn enter(&mut self) -> (r: Result<DepthAwareReaderGuard<'_, 'data, R>, SeaboredDeError>)
        requires
            old(self).depth() < usize::MAX,
        ensures
            r is Ok <==> old(self).depth() + 1 <= old(self).limit(),
            match r {
                Ok(guard) => {
                    &&& guard.reader().depth() == old(self).depth() + 1
                    &&& enter_outcome(old(self).depth(), old(self).limit())
                        == Ok::<usize, SeaboredDeError>(guard.reader().depth())
                    &&& guard.accumulated() == 1
                    &&& guard.reader().limit() == old(self).limit()
                    &&& guard.reader().inner() == old(self).inner()
                    &&& guard.restored_depth() == old(self).depth()
                },
                Err(e) => {
                    &&& e == SeaboredDeError::AllowedDepthOverflow {
                        depth: (old(self).depth() + 1) as usize,
                        limit: old(self).limit(),
                    }
                    &&& enter_outcome(old(self).depth(), old(self).limit())
                        == Err::<usize, SeaboredDeError>(e)
                    &&& final(self).depth() == old(self).depth() + 1
                    &&& final(self).limit() == old(self).limit()
                    &&& final(self).inner() == old(self).inner()
                },
            },
    {
        self.depth += 1;
        if self.depth <= self.limit {
            Ok(DepthAwareReaderGuard::new(self))
        } else {
            Err(SeaboredDeError::AllowedDepthOverflow { depth: self.depth, limit: self.limit })
        }
    }
}

/// Guard that decrements the current depth when dropped
pub struct DepthAwareReaderGuard<'a, 'data, R: Read<'data>> {
    rdr: &'a mut DepthAwareReader<'data, R>,
    accumulated_depth: usize,
}

impl<'a, 'data, R: Read<'data>> DepthAwareReaderGuard<'a, 'data, R> {
    #[verifier::type_invariant]
    closed spec fn wf(&self) -> bool {
        self.accumulated_depth <= self.rdr.depth
    }

    /// The guarded reader, as it stands now.
    pub closed spec fn reader(&self) -> DepthAwareReader<'data, R> {
        *self.rdr
    }

    /// The depth the reader returns to when this guard is dropped.
    pub closed spec fn restored_depth(&self) -> int {
        self.rdr.depth - self.accumulated_depth
    }

    /// How many nesting levels this guard has entered and will exit.
    pub closed spec fn accumulated(&self) -> usize {
        self.accumulated_depth
    }

    fn new(rdr: &'a mut DepthAwareReader<'data, R>) -> (g: Self)
        requires
            1 <= old(rdr).depth,
        ensures
            g.accumulated() == 1,
            g.reader() == *old(rdr),
    {
        Self { rdr, accumulated_depth: 1 }
    }

    /// Enters one more nesting level under this guard. On success the guard
    /// comes back holding that level too; on failure the guard is dropped,
    /// which returns the reader to the depth it had before the guard was made.
    pub fn enter(self) -> (r: Result<Self, SeaboredDeError>)
        requires
            self.reader().depth() < usize::MAX,
        ensures
            r is Ok <==> self.reader().depth() + 1 <= self.reader().limit(),
            match r {
                Ok(guard) => {
                    &&& guard.reader().depth() == self.reader().depth() + 1
                    &&& enter_outcome(self.reader().depth(), self.reader().limit())
                        == Ok::<usize, SeaboredDeError>(guard.reader().depth())
                    &&& guard.accumulated() == self.accumulated() + 1
                    &&& guard.reader().limit() == self.reader().limit()
                    &&& guard.reader().inner() == self.reader().inner()
                    &&& guard.restored_depth() == self.restored_depth()
                },
                Err(e) => {
                    &&& e == SeaboredDeError::AllowedDepthOverflow {
                        depth: (self.reader().depth() + 1) as usize,
                        limit: self.reader().limit(),
                    }
                    &&& enter_outcome(self.reader().depth(), self.reader().limit())
                        == Err::<usize, SeaboredDeError>(e)
                },
            },
    {
        let mut guard = self;
        proof {
            use_type_invariant(&guard);
        }
        guard.rdr.depth += 1;
        guard.accumulated_depth += 1;
        if guard.rdr.depth <= guard.rdr.limit {
            Ok(guard)
        } else {
            Err(SeaboredDeError::AllowedDepthOverflow { depth: guard.rdr.depth, limit: guard.rdr.limit })
        }
    }
}

impl<'a, 'data, R: Read<'data>> Drop for DepthAwareReaderGuard<'a, 'data, R> {
    /// Exits every nesting level this guard entered.
    fn drop(&mut self)
        ensures
            final(self).reader().depth() == old(self).restored_depth(),
            final(self).reader().limit() == old(self).reader().limit(),
            final(self).reader().inner() == old(self).reader().inner(),
        opens_invariants none
        no_unwind
    {
        proof {
            use_type_invariant(&*self);
        }
        let accumulated = self.accumulated_depth;
        self.accumulated_depth = 0;
        self.rdr.depth -= accumulated;
    }
}

// Blanket impls
impl<'data, R: Read<'data> + ?Sized> Read<'data> for &mut R {
    open spec fn exact_stream() -> bool {
        R::exact_stream()
    }

    open spec fn remaining(&self) -> Seq<u8> {
        (**self).remaining()
    }

    fn peek_byte(&mut self) -> (r: ReadResult<u8>) {
        (**self).peek_byte()
    }

    fn advance(&mut self, n: usize) -> (r: ReadResult<()>) {
        (**self).advance(n)
    }

    fn read_byte(&mut self) -> (r: ReadResult<u8>) {
        (**self).read_byte()
    }

    fn read_slice<'a>(&'a mut self, len: usize) -> (r: ReadResult<Cow<'data, [u8]>>) {
        (**self).read_slice(len)
    }

    fn read_array<const N: usize>(&mut self) -> (r: ReadResult<Cow<'data, [u8; N]>>) {
        (**self).read_array()
    }
}

impl<'data, R: Read<'data> + ?Sized> Read<'data> for Box<R> {
    open spec fn exact_stream() -> bool {
        R::exact_stream()
    }

    open spec fn remaining(&self) -> Seq<u8> {
        (**self).remaining()
    }

    fn peek_byte(&mut self) -> (r: ReadResult<u8>) {
        (**self).peek_byte()
    }

    fn advance(&mut self, n: usize) -> (r: ReadResult<()>) {
        (**self).advance(n)
    }

    fn read_byte(&mut self) -> (r: ReadResult<u8>) {
        (**self).read_byte()
    }

    fn read_slice<'a>(&'a mut self, len: usize) -> (r: ReadResult<Cow<'data, [u8]>>) {
        (**self).read_slice(len)
    }

    fn read_array<const N: usize>(&mut self) -> (r: ReadResult<Cow<'data, [u8; N]>>) {
        (**self).read_array()
    }
}

/// Delegate reader impl
impl<'data, R: Read<'data>> Read<'data> for DepthAwareReader<'data, R> {
    open spec fn exact_stream() -> bool {
        R::exact_stream()
    }

    open spec fn remaining(&self) -> Seq<u8> {
        self.inner().remaining()
    }

    fn peek_byte(&mut self) -> (r: ReadResult<u8>)
        ensures
            final(self).depth() == old(self).depth(),
            final(self).limit() == old(self).limit(),
    {
        self.reader.peek_byte()
    }

    fn advance(&mut self, n: usize) -> (r: ReadResult<()>)
        ensures
            final(self).depth() == old(self).depth(),
            final(self).limit() == old(self).limit(),
    {
        self.reader.advance(n)
    }

    fn read_byte(&mut self) -> (r: ReadResult<u8>)
        ensures
            final(self).depth() == old(self).depth(),
            final(self).limit() == old(self).limit(),
    {
        self.reader.read_byte()
    }

    fn read_slice<'a>(&'a mut self, len: usize) -> (r: ReadResult<Cow<'data, [u8]>>)
        ensures
            final(self).depth() == old(self).depth(),
            final(self).limit() == old(self).limit(),
    {
        self.reader.read_slice(len)
    }

    fn read_array<const N: usize>(&mut self) -> (r: ReadResult<Cow<'data, [u8; N]>>)
        ensures
            final(self).depth() == old(self).depth(),
            final(self).limit() == old(self).limit(),
    {
        self.reader.read_array()
    }
}

/// Implementation on base slices. This is what you'd want to use when having something that can hold
/// in-memory or when memory-mapping large-ish files
///
/// ## Attention
/// - Careful, Windows isn't very happy with 4GB memory-maps because 32-bit mmap is so 1980.
impl<'data> Read<'data> for &'data [u8] {
    open spec fn exact_stream() -> bool {
        true
    }

    open spec fn remaining(&self) -> Seq<u8> {
        (*self)@
    }

    fn peek_byte(&mut self) -> (r: ReadResult<u8>) {
        if self.len() == 0 {
            return Err(unexpected_eof());
        }
        Ok(self[0])
    }

    fn advance(&mut self, n: usize) -> (r: ReadResult<()>) {
        if n > self.len() {
            return Err(unexpected_eof());
        }
        let s: &'data [u8] = *self;
        let (_, rest) = s.split_at(n);
        *self = rest;
        Ok(())
    }

    fn read_byte(&mut self) -> (r: ReadResult<u8>) {
        if self.len() == 0 {
            return Err(unexpected_eof());
        }
        let s: &'data [u8] = *self;
        let b = s[0];
        let (_, rest) = s.split_at(1);
        *self = rest;
        Ok(b)
    }

    /// The bytes come back borrowed from the input: nothing is copied.
    fn read_slice<'a>(&'a mut self, len: usize) -> (r: ReadResult<Cow<'data, [u8]>>)
        ensures
            r is Ok ==> r matches Ok(Cow::Borrowed(_)),
    {
        if len > self.len() {
            return Err(unexpected_eof());
        }
        let s: &'data [u8] = *self;
        let (start, end) = s.split_at(len);
        *self = end;
        Ok(Cow::Borrowed(start))
    }

    /// The array comes back borrowed from the input: nothing is copied.
    fn read_array<const N: usize>(&mut self) -> (r: ReadResult<Cow<'data, [u8; N]>>)
        ensures
            r is Ok ==> r matches Ok(Cow::Borrowed(_)),
    {
        let s: &'data [u8] = *self;
        match split_first_chunk::<N>(s) {
            Some((start, end)) => {
                *self = end;
                Ok(Cow::Borrowed(start))
            },
            None => Err(unexpected_eof()),
        }
    }
}

/// Splits off the first `N` bytes of `s` as an array, by
/// `<[u8]>::split_first_chunk`: `None` when fewer than `N` bytes are there,
/// else the first `N` bytes and the rest.
#[verifier::external_body]
fn split_first_chunk<'s, const N: usize>(s: &'s [u8]) -> (r: Option<(&'s [u8; N], &'s [u8])>)
    ensures
        r is Some <==> N <= s@.len(),
        r matches Some((head, tail)) ==> head@ == s@.take(N as int) && tail@ == s@.skip(N as int),
{
    s.split_first_chunk::<N>()
}

/// A read hands out a prefix of the stream and leaves the rest: nothing is
/// lost and nothing is handed out twice.
pub proof fn lemma_read_splits_stream(s: Seq<u8>, n: int)
    requires
        0 <= n <= s.len(),
    ensures
        s.take(n) + s.skip(n) == s,
{
    assert(s.take(n) + s.skip(n) =~= s);
}

/// Reading `a` bytes and then `b` bytes yields the same bytes, and leaves the
/// same stream, as reading `a + b` bytes at once.
pub proof fn lemma_consecutive_reads(s: Seq<u8>, a: int, b: int)
    requires
        0 <= a,
        0 <= b,
        a + b <= s.len(),
    ensures
        s.take(a) + s.skip(a).take(b) == s.take(a + b),
        s.skip(a).skip(b) == s.skip(a + b),
{
    assert(s.take(a) + s.skip(a).take(b) =~= s.take(a + b));
    assert(s.skip(a).skip(b) =~= s.skip(a + b));
}

/// Big-endian values compose: the value of `x` followed by `y` is the value
/// of `x` shifted past the bytes of `y`, plus the value of `y`. So two
/// `read_be_u16` calls give the halves of what one `read_be_u32` gives.
pub proof fn lemma_be_value_concat(x: Seq<u8>, y: Seq<u8>)
    ensures
        be_value(x + y) == be_value(x) * pow256(y.len()) + be_value(y),
    decreases y.len(),
{
    if y.len() == 0 {
        assert(x + y =~= x);
        assert(pow256(0) == 1);
        assert(be_value(x) * pow256(y.len()) == be_value(x));
    } else {
        let y0 = y.drop_last();
        lemma_be_value_concat(x, y0);
        assert((x + y).drop_last() =~= x + y0);
        assert((x + y).last() == y.last());
        let bx = be_value(x);
        let p = pow256(y0.len());
        let by0 = be_value(y0);
        assert((bx * p + by0) * 256 == bx * (p * 256) + by0 * 256) by (nonlinear_arith);
        assert(be_value(x + y) == be_value(x + y0) * 256 + y.last() as nat);
        assert(be_value(y) == by0 * 256 + y.last() as nat);
        assert(pow256(y.len()) == p * 256);
        assert(be_value(x + y) == bx * (p * 256) + (by0 * 256 + y.last() as nat));
    }
}

/// A single byte read as a big-endian value is that byte.
pub proof fn lemma_be_value_of_byte(b: u8)
    ensures
        be_value(seq![b]) == b,
{
    reveal_with_fuel(be_value, 2);
    assert(seq![b].drop_last() =~= Seq::<u8>::empty());
}

/// Reading a big-endian `u16` from the bytes `hi, lo` gives `hi * 256 + lo`.
pub proof fn lemma_be_value_of_two_bytes(s: Seq<u8>)
    requires
        s.len() == 2,
    ensures
        be_value(s) == s[0] * 256 + s[1],
{
    reveal_with_fuel(be_value, 3);
    assert(s.drop_last().drop_last() =~= Seq::<u8>::empty());
}

} // verus!
