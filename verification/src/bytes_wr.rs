//! Readers and writers of content whose length is not known in advance (a byte
//! stream). Content is written without knowing its final length and without
//! loading all of it in memory; the framing tells the reader where the content
//! ends, so that it never mixes with what follows it in the stream.
//!
//! Writing appends to a `Vec<u8>`; reading consumes a `ByteSource`.
use vstd::prelude::*;
use std::marker::PhantomData;
use byteorder::{BigEndian, ByteOrder, LittleEndian, WriteBytesExt};

verus! {


// ---------------------------------------------------------------------------
// little endian encoding of a u64 (as byteorder writes and reads it)

/// The eight bytes of `x`, least significant first.
pub open spec fn le_bytes(x: u64) -> Seq<u8> {
    seq![
        (x & 0xff) as u8,
        ((x >> 8u64) & 0xff) as u8,
        ((x >> 16u64) & 0xff) as u8,
        ((x >> 24u64) & 0xff) as u8,
        ((x >> 32u64) & 0xff) as u8,
        ((x >> 40u64) & 0xff) as u8,
        ((x >> 48u64) & 0xff) as u8,
        ((x >> 56u64) & 0xff) as u8,
    ]
}

/// The u64 whose little endian bytes are the first eight of `s`.
pub open spec fn le_value(s: Seq<u8>) -> u64 {
    (s[0] as u64) | ((s[1] as u64) << 8u64) | ((s[2] as u64) << 16u64) | ((s[3] as u64) << 24u64)
        | ((s[4] as u64) << 32u64) | ((s[5] as u64) << 40u64) | ((s[6] as u64) << 48u64) | ((s[7]
        as u64) << 56u64)
}

/// Reading back the little endian bytes of a u64 gives the u64.
pub proof fn lemma_le_roundtrip(x: u64)
    ensures
        le_value(le_bytes(x)) == x,
        le_bytes(x).len() == 8,
{
    let s = le_bytes(x);
    assert(s[0] == (x & 0xff) as u8);
    assert(s[7] == ((x >> 56u64) & 0xff) as u8);
    let b0 = (x & 0xff) as u8;
    let b1 = ((x >> 8u64) & 0xff) as u8;
    let b2 = ((x >> 16u64) & 0xff) as u8;
    let b3 = ((x >> 24u64) & 0xff) as u8;
    let b4 = ((x >> 32u64) & 0xff) as u8;
    let b5 = ((x >> 40u64) & 0xff) as u8;
    let b6 = ((x >> 48u64) & 0xff) as u8;
    let b7 = ((x >> 56u64) & 0xff) as u8;
    assert((b0 as u64) | ((b1 as u64) << 8u64) | ((b2 as u64) << 16u64) | ((b3 as u64) << 24u64)
        | ((b4 as u64) << 32u64) | ((b5 as u64) << 40u64) | ((b6 as u64) << 48u64) | ((b7 as u64)
        << 56u64) == x) by (bit_vector)
        requires
            b0 == (x & 0xff) as u8,
            b1 == ((x >> 8u64) & 0xff) as u8,
            b2 == ((x >> 16u64) & 0xff) as u8,
            b3 == ((x >> 24u64) & 0xff) as u8,
            b4 == ((x >> 32u64) & 0xff) as u8,
            b5 == ((x >> 40u64) & 0xff) as u8,
            b6 == ((x >> 48u64) & 0xff) as u8,
            b7 == ((x >> 56u64) & 0xff) as u8,
    ;
}

/// The eight bytes of `x`, most significant first.
pub open spec fn be_bytes(x: u64) -> Seq<u8> {
    le_bytes(x).reverse()
}

/// The u64 whose big endian bytes are the first eight of `s`.
pub open spec fn be_value(s: Seq<u8>) -> u64 {
    le_value(s.take(8).reverse())
}

/// Appends `n` to `w` in big endian order.
/// Calls byteorder's `WriteBytesExt::write_u64::<BigEndian>` on the vector;
/// claims that the eight bytes of `n`, most significant first, are appended
/// (writing into a `Vec<u8>` never fails).
#[verifier::external_body]
pub(crate) fn write_u64_be(w: &mut Vec<u8>, n: u64)
    ensures
        final(w)@ == old(w)@ + be_bytes(n),
{
    let _ = w.write_u64::<BigEndian>(n);
}

/// Reads a big endian u64 from eight bytes.
/// Calls byteorder's `<BigEndian as ByteOrder>::read_u64`; claims that the
/// result is the u64 whose most significant byte is `bytes[0]` and least
/// significant byte is `bytes[7]`.
#[verifier::external_body]
fn read_u64_be(bytes: &[u8]) -> (r: u64)
    requires
        bytes@.len() == 8,
    ensures
        r == be_value(bytes@),
{
    BigEndian::read_u64(bytes)
}

/// Appends `n` to `w` in little endian order.
/// Calls byteorder's `WriteBytesExt::write_u64::<LittleEndian>` on the vector;
/// claims that the eight bytes of `n`, least significant first, are appended
/// (writing into a `Vec<u8>` never fails).
#[verifier::external_body]
pub(crate) fn write_u64_le(w: &mut Vec<u8>, n: u64)
    ensures
        final(w)@ == old(w)@ + le_bytes(n),
{
    let _ = w.write_u64::<LittleEndian>(n);
}

/// Reads a little endian u64 from eight bytes.
/// Calls byteorder's `<LittleEndian as ByteOrder>::read_u64`; claims that the
/// result is the u64 whose least significant byte is `bytes[0]` and most
/// significant byte is `bytes[7]`.
#[verifier::external_body]
fn read_u64_le(bytes: &[u8]) -> (r: u64)
    requires
        bytes@.len() == 8,
    ensures
        r == le_value(bytes@),
{
    LittleEndian::read_u64(bytes)
}

// ---------------------------------------------------------------------------
// byte source

/// Bytes to be read, consumed from the front.
pub struct ByteSource {
    data: Vec<u8>,
    pos: usize,
}

impl View for ByteSource {
    type V = Seq<u8>;

    /// The bytes not read yet.
    closed spec fn view(&self) -> Seq<u8> {
        self.data@.skip(self.pos as int)
    }
}

pub open spec fn min_nat(a: int, b: int) -> int {
    if a <= b {
        a
    } else {
        b
    }
}

impl ByteSource {
    #[verifier::type_invariant]
    spec fn inv(self) -> bool {
        self.pos <= self.data@.len()
    }

    /// A source that reads `data` from its start.
    pub fn new(data: Vec<u8>) -> (r: ByteSource)
        ensures
            r@ == data@,
    {
        let r = ByteSource { data, pos: 0 };
        assert(r.data@.skip(0) =~= r.data@);
        r
    }

    /// Adds `more` after the bytes left to read; the bytes already read are
    /// dropped.
    pub fn refill(&mut self, more: &[u8]) -> (n: usize)
        requires
            old(self)@.len() + more@.len() <= usize::MAX,
        ensures
            final(self)@ == old(self)@ + more@,
            n == final(self)@.len(),
    {
        proof {
            use_type_invariant(&*self);
        }
        let ghost left = self@;
        let mut data: Vec<u8> = Vec::new();
        let mut i: usize = self.pos;
        while i < self.data.len()
            invariant
                self.pos <= i <= self.data@.len(),
                left == self.data@.skip(self.pos as int),
                data@ =~= self.data@.subrange(self.pos as int, i as int),
            decreases self.data.len() - i,
        {
            data.push(self.data[i]);
            i = i + 1;
        }
        let mut j: usize = 0;
        while j < more.len()
            invariant
                j <= more@.len(),
                data@ =~= left + more@.take(j as int),
            decreases more.len() - j,
        {
            data.push(more[j]);
            j = j + 1;
        }
        proof {
            assert(more@.take(more@.len() as int) =~= more@);
            assert(data@.skip(0) =~= data@);
        }
        let n = data.len();
        *self = ByteSource { data, pos: 0 };
        n
    }

    /// Number of bytes left to read.
    pub fn remaining(&self) -> (n: usize)
        ensures
            n == self@.len(),
    {
        proof {
            use_type_invariant(self);
        }
        self.data.len() - self.pos
    }

    /// Number of bytes read so far.
    pub fn position(&self) -> (n: usize)
        ensures
            n <= self.data_len(),
            self@.len() == self.data_len() - n,
    {
        proof {
            use_type_invariant(self);
        }
        self.pos
    }

    pub closed spec fn data_len(&self) -> nat {
        self.data@.len()
    }

    /// The next byte, left in the source.
    pub fn peek(&self) -> (r: Option<u8>)
        ensures
            r == if self@.len() > 0 {
                Some(self@[0])
            } else {
                None::<u8>
            },
    {
        proof {
            use_type_invariant(self);
        }
        if self.pos < self.data.len() {
            Some(self.data[self.pos])
        } else {
            None
        }
    }

    /// Drops the next `n` bytes (fewer at the end), returns how many.
    pub fn skip(&mut self, n: usize) -> (k: usize)
        ensures
            k == min_nat(n as int, old(self)@.len() as int),
            final(self)@ == old(self)@.skip(k as int),
    {
        proof {
            use_type_invariant(&*self);
        }
        let left = self.data.len() - self.pos;
        let k = if n < left {
            n
        } else {
            left
        };
        self.pos = self.pos + k;
        proof {
            assert(self.data@.skip(self.pos as int) =~= old(self)@.skip(k as int));
        }
        k
    }

    /// Reads one byte, `None` at the end.
    pub fn read_byte(&mut self) -> (r: Option<u8>)
        ensures
            old(self)@.len() == 0 ==> r is None && final(self)@ == old(self)@,
            old(self)@.len() > 0 ==> r == Some(old(self)@[0]) && final(self)@ == old(self)@.drop_first(),
            final(self).data_len() == old(self).data_len(),
    {
        proof {
            use_type_invariant(&*self);
        }
        if self.pos < self.data.len() {
            let b = self.data[self.pos];
            self.pos = self.pos + 1;
            proof {
                assert(self.data@.skip(self.pos as int) =~= old(self)@.drop_first());
            }
            Some(b)
        } else {
            None
        }
    }

    /// Reads at most `limit` bytes into the front of `buf`, returns how many.
    pub fn read_up_to(&mut self, buf: &mut [u8], limit: usize) -> (n: usize)
        ensures
            n == min_nat(min_nat(limit as int, old(buf)@.len() as int), old(self)@.len() as int),
            final(buf)@.len() == old(buf)@.len(),
            final(buf)@ =~= old(self)@.take(n as int) + old(buf)@.skip(n as int),
            final(self)@ =~= old(self)@.skip(n as int),
            final(self).data_len() == old(self).data_len(),
    {
        proof {
            use_type_invariant(&*self);
        }
        let dlen = self.data.len();
        let avail = dlen - self.pos;
        let mut n = if limit < buf.len() {
            limit
        } else {
            buf.len()
        };
        if avail < n {
            n = avail;
        }
        let ghost src = old(self)@;
        let ghost b0 = buf@;
        let mut i: usize = 0;
        while i < n
            invariant
                0 <= i <= n,
                n <= avail,
                avail == old(self).data@.len() - old(self).pos,
                dlen == self.data@.len(),
                n <= buf@.len(),
                buf@.len() == b0.len(),
                self.data@ == old(self).data@,
                self.pos == old(self).pos + i,
                self.pos + (n - i) <= self.data@.len(),
                src == old(self).data@.skip(old(self).pos as int),
                forall|j: int| 0 <= j < i ==> buf@[j] == src[j],
                forall|j: int| i <= j < buf@.len() ==> buf@[j] == b0[j],
            decreases n - i,
        {
            buf[i] = self.data[self.pos];
            self.pos = self.pos + 1;
            i = i + 1;
        }
        proof {
            assert(self.data@.skip(self.pos as int) =~= src.skip(n as int));
        }
        n
    }

    /// Reads at most `buf.len()` bytes into the front of `buf`, returns how many.
    pub fn read(&mut self, buf: &mut [u8]) -> (n: usize)
        ensures
            n == min_nat(old(buf)@.len() as int, old(self)@.len() as int),
            final(buf)@.len() == old(buf)@.len(),
            final(buf)@ =~= old(self)@.take(n as int) + old(buf)@.skip(n as int),
            final(self)@ =~= old(self)@.skip(n as int),
            final(self).data_len() == old(self).data_len(),
    {
        let l = buf.len();
        self.read_up_to(buf, l)
    }

    /// Reads `n` bytes into a new vector (fewer at the end of the source).
    fn take_bytes(&mut self, n: usize) -> (v: Vec<u8>)
        ensures
            v@.len() == min_nat(n as int, old(self)@.len() as int),
            v@ =~= old(self)@.take(v@.len() as int),
            final(self)@ =~= old(self)@.skip(v@.len() as int),
            final(self).data_len() == old(self).data_len(),
    {
        let mut v: Vec<u8> = Vec::new();
        let ghost src = old(self)@;
        while v.len() < n
            invariant
                v@.len() <= n,
                v@.len() <= src.len(),
                v@ =~= src.take(v@.len() as int),
                self@ =~= src.skip(v@.len() as int),
                self.data_len() == old(self).data_len(),
                src == old(self)@,
            ensures
                v@.len() == min_nat(n as int, src.len() as int),
                v@ =~= src.take(v@.len() as int),
                self@ =~= src.skip(v@.len() as int),
                self.data_len() == old(self).data_len(),
            decreases n - v@.len(),
        {
            match self.read_byte() {
                Some(b) => {
                    proof {
                        assert(src.skip(v@.len() as int)[0] == src[v@.len() as int]);
                        assert(src.skip(v@.len() as int).drop_first() =~= src.skip(v@.len() + 1int));
                    }
                    v.push(b);
                },
                None => {
                    break;
                },
            }
        }
        v
    }
}

/// Writing at `i` leaves what follows `i` as it was.
proof fn lemma_skip_after_update(cur: Seq<u8>, orig: Seq<u8>, i: int, b: u8)
    requires
        0 <= i < cur.len(),
        cur.len() == orig.len(),
        cur.skip(i) =~= orig.skip(i),
    ensures
        cur.update(i, b).skip(i + 1) =~= orig.skip(i + 1),
{
    assert forall|j: int| 0 <= j < orig.len() - (i + 1) implies #[trigger] cur.update(i, b).skip(i + 1)[j]
        == orig.skip(i + 1)[j] by {
        assert(cur.skip(i)[j + 1] == orig.skip(i)[j + 1]);
    }
}

/// Errors of framed reading.
pub enum BwrError {
    /// The stream ended inside an eight bytes window size.
    UnexpectedEof,
    /// The stream ended where a window marker was expected.
    MissingWindowMarker,
    /// The terminal 0 after the last window was not found.
    MissingEndMarker,
    /// A window size cannot be computed (it overflows).
    WindowOverflow,
}

impl BwrError {
    /// A description of the error.
    pub fn message(&self) -> (s: &'static str)
        ensures
            s@ == match self {
                BwrError::UnexpectedEof => "failed to fill whole buffer"@,
                BwrError::MissingWindowMarker => "No bytes after window size, do not know if ended or repeat"@,
                BwrError::MissingEndMarker => "End read does not find expected terminal 0 of widows"@,
                BwrError::WindowOverflow => "Window size overflow"@,
            },
    {
        match self {
            BwrError::UnexpectedEof => "failed to fill whole buffer",
            BwrError::MissingWindowMarker => "No bytes after window size, do not know if ended or repeat",
            BwrError::MissingEndMarker => "End read does not find expected terminal 0 of widows",
            BwrError::WindowOverflow => "Window size overflow",
        }
    }
}

// ---------------------------------------------------------------------------
// the common interface

/// `after` is what is left of `before` once some of its first bytes are read.
pub open spec fn rest_of(after: Seq<u8>, before: Seq<u8>) -> bool {
    after.len() <= before.len() && after == before.skip(before.len() - after.len())
}

/// Nothing read leaves all.
pub broadcast proof fn lemma_rest_of_self(a: Seq<u8>)
    ensures
        #[trigger] rest_of(a, a),
{
    assert(a.skip(0) =~= a);
}

/// Reading the first `k` bytes leaves the others.
pub broadcast proof fn lemma_rest_of_skip(a: Seq<u8>, k: int)
    requires
        0 <= k <= a.len(),
    ensures
        #[trigger] rest_of(a.skip(k), a),
{
    assert(a.skip(k) =~= a.skip(a.len() - a.skip(k).len()));
}

/// Reading on from what is left keeps what is left a rest of the start.
pub proof fn lemma_rest_of_trans(a: Seq<u8>, b: Seq<u8>, c: Seq<u8>)
    requires
        rest_of(b, a),
        rest_of(c, b),
    ensures
        rest_of(c, a),
{
    assert(c =~= a.skip(a.len() - c.len()));
}

/// The bytes of the header written before content by `b`: none once started.
pub open spec fn header_bytes<B: BytesWR>(b: B) -> Seq<u8> {
    if b.started() {
        Seq::empty()
    } else {
        b.start_bytes()
    }
}

/// The framing `b` once its header is written (as it is once started).
pub open spec fn write_started<B: BytesWR>(b: B) -> B {
    if b.started() {
        b
    } else {
        b.after_start()
    }
}

/// A framing of content in a byte stream, used either for reading or for
/// writing (a value should not do both at the same time).
pub trait BytesWR: Sized {
    /// What `b_read` needs of the state and of the bytes left to read.
    spec fn read_ok(&self, input: Seq<u8>) -> bool;

    /// What `b_write` needs of the state and of the content length.
    spec fn write_ok(&self, len: nat) -> bool;

    /// What `end_read` needs of the state and of the bytes left to read.
    spec fn end_read_ok(&self, input: Seq<u8>) -> bool;

    /// Whether a header was read or written (a frame is in progress).
    spec fn started(&self) -> bool;

    /// Whether writing the header fails.
    spec fn start_write_fails(&self) -> bool;

    /// The bytes of the header.
    spec fn start_bytes(&self) -> Seq<u8>;

    /// The framing once its header is written.
    spec fn after_start(&self) -> Self;

    /// Whether ending the content fails.
    spec fn end_write_fails(&self) -> bool;

    /// The bytes that end the content.
    spec fn end_bytes(&self) -> Seq<u8>;

    /// The framing once the content is ended.
    spec fn after_end(&self) -> Self;

    /// The bytes that writing content `cont` adds, the header being written.
    spec fn content_bytes(&self, cont: Seq<u8>) -> Seq<u8>;

    /// The framing once content `cont` is written, the header being written.
    spec fn after_content(&self, cont: Seq<u8>) -> Self;

    /// One read of at most `room` content bytes from `input` (the header
    /// first if not started): the framing afterwards, the content bytes read
    /// or the error, and how many bytes of `input` are consumed.
    spec fn read_step(&self, input: Seq<u8>, room: nat) -> (Self, Result<Seq<u8>, BwrError>, nat);

    /// Reading the header from `input`: the framing afterwards, the outcome,
    /// and how many bytes of `input` are consumed.
    spec fn start_read_step(&self, input: Seq<u8>) -> (Self, Result<(), BwrError>, nat);

    /// Ending a read on `input`: the framing afterwards, the outcome, and how
    /// many bytes of `input` are consumed.
    spec fn end_read_step(&self, input: Seq<u8>) -> (Self, Result<(), BwrError>, nat);

    /// Whether a header was read or written (a frame is in progress).
    fn has_started(&self) -> (r: bool)
        ensures
            r == self.started(),
    ;

    /// Whether `b_read` can read from `r` (what it needs holds).
    fn can_read(&self, r: &ByteSource) -> (b: bool)
        ensures
            b == self.read_ok(r@),
    ;

    /// Whether `b_write` can write `len` bytes (what it needs holds).
    fn can_write(&self, len: usize) -> (b: bool)
        ensures
            b == self.write_ok(len as nat),
    ;

    /// Whether `end_read` can end reading from `r` (what it needs holds).
    fn can_end_read(&self, r: &ByteSource) -> (b: bool)
        ensures
            b == self.end_read_ok(r@),
    ;

    /// Reads a possible header.
    fn start_read(&mut self, r: &mut ByteSource) -> (res: Result<(), BwrError>)
        ensures
            final(r).data_len() == old(r).data_len(),
            rest_of(final(r)@, old(r)@),
            ({
                let s = old(self).start_read_step(old(r)@);
                &&& *final(self) == s.0
                &&& res == s.1
                &&& s.2 <= old(r)@.len()
                &&& final(r)@ == old(r)@.skip(s.2 as int)
            }),
    ;

    /// Writes a possible header, after what `w` holds.
    fn start_write(&mut self, w: &mut Vec<u8>) -> (res: Result<(), BwrError>)
        ensures
            old(w)@.is_prefix_of(final(w)@),
            res is Err <==> old(self).start_write_fails(),
            res is Ok ==> final(w)@ == old(w)@ + old(self).start_bytes() && *final(self) == old(self).after_start(),
    ;

    /// Reads content into the front of `buf`, returns how many bytes; 0 when the
    /// content has ended (what follows in the stream belongs to others). A
    /// header is read first if not started yet. What is read, consumed and
    /// kept is the framing's read step.
    fn b_read(&mut self, r: &mut ByteSource, buf: &mut [u8]) -> (res: Result<usize, BwrError>)
        requires
            old(self).read_ok(old(r)@),
        ensures
            final(buf)@.len() == old(buf)@.len(),
            res matches Ok(n) ==> n <= old(buf)@.len(),
            rest_of(final(r)@, old(r)@),
            ({
                let s = old(self).read_step(old(r)@, old(buf)@.len());
                &&& *final(self) == s.0
                &&& s.2 <= old(r)@.len()
                &&& final(r)@ == old(r)@.skip(s.2 as int)
                &&& match s.1 {
                    Ok(out) => {
                        &&& out.len() <= old(buf)@.len()
                        &&& out.len() <= s.2
                        &&& res == Ok::<usize, BwrError>(out.len() as usize)
                        &&& final(buf)@ == out + old(buf)@.skip(out.len() as int)
                    },
                    Err(e) => res == Err::<usize, BwrError>(e) && final(buf)@ == old(buf)@,
                }
            }),
    ;

    /// Writes content after what `w` holds, returns how many bytes of it
    /// (all of them): the header if not started, then the content as the
    /// framing encodes it; only the header can fail to be written.
    fn b_write(&mut self, w: &mut Vec<u8>, cont: &[u8]) -> (res: Result<usize, BwrError>)
        requires
            old(self).write_ok(cont@.len()),
        ensures
            old(w)@.is_prefix_of(final(w)@),
            res is Err <==> !old(self).started() && old(self).start_write_fails(),
            res is Ok ==> {
                &&& res == Ok::<usize, BwrError>(cont@.len() as usize)
                &&& old(self).started() ==> {
                    &&& final(w)@ == old(w)@ + old(self).content_bytes(cont@)
                    &&& *final(self) == old(self).after_content(cont@)
                }
                &&& !old(self).started() ==> {
                    &&& final(w)@ == old(w)@ + old(self).start_bytes() + old(self).after_start().content_bytes(
                        cont@,
                    )
                    &&& *final(self) == old(self).after_start().after_content(cont@)
                }
            },
    ;

    /// Ends reading: the content is known to be complete (for instance a value
    /// was decoded); reads what the framing left after it.
    fn end_read(&mut self, r: &mut ByteSource) -> (res: Result<(), BwrError>)
        requires
            old(self).end_read_ok(old(r)@),
        ensures
            rest_of(final(r)@, old(r)@),
            ({
                let s = old(self).end_read_step(old(r)@);
                &&& *final(self) == s.0
                &&& res == s.1
                &&& s.2 <= old(r)@.len()
                &&& final(r)@ == old(r)@.skip(s.2 as int)
            }),
    ;

    /// Ends the content being written, after what `w` holds.
    fn end_write(&mut self, w: &mut Vec<u8>) -> (res: Result<(), BwrError>)
        ensures
            old(w)@.is_prefix_of(final(w)@),
            res is Err <==> old(self).end_write_fails(),
            res is Ok ==> final(w)@ == old(w)@ + old(self).end_bytes() && *final(self) == old(self).after_end(),
    ;
}

/// Reading content with no encoding of its own: the header of `b` if not
/// started, then the bytes of the stream as they are (as many as fit in
/// `buf`).
pub fn plain_b_read<B: BytesWR>(b: &mut B, r: &mut ByteSource, buf: &mut [u8]) -> (res: Result<usize, BwrError>)
    ensures
        final(buf)@.len() == old(buf)@.len(),
        rest_of(final(r)@, old(r)@),
        old(b).started() ==> *final(b) == *old(b) && res is Ok,
        res matches Ok(n) ==> exists|mid: Seq<u8>| {
            &&& (old(b).started() ==> mid == old(r)@)
            &&& rest_of(mid, old(r)@)
            &&& n == min_nat(old(buf)@.len() as int, mid.len() as int)
            &&& final(buf)@ == mid.take(n as int) + old(buf)@.skip(n as int)
            &&& final(r)@ == mid.skip(n as int)
        },
{
    broadcast use {lemma_rest_of_self, lemma_rest_of_skip};
    if !b.has_started() {
        b.start_read(r)?;
    }
    let ghost mid = r@;
    let n = r.read(buf);
    proof {
        lemma_rest_of_trans(old(r)@, mid, r@);
        assert({
            &&& (old(b).started() ==> mid == old(r)@)
            &&& rest_of(mid, old(r)@)
            &&& n == min_nat(old(buf)@.len() as int, mid.len() as int)
            &&& buf@ == mid.take(n as int) + old(buf)@.skip(n as int)
            &&& r@ == mid.skip(n as int)
        });
    }
    Ok(n)
}

/// Writing content with no encoding of its own: the header of `b` if not
/// started, then the content as it is, after what `w` holds.
pub fn plain_b_write<B: BytesWR>(b: &mut B, w: &mut Vec<u8>, cont: &[u8]) -> (res: Result<usize, BwrError>)
    ensures
        old(w)@.is_prefix_of(final(w)@),
        res is Err <==> !old(b).started() && old(b).start_write_fails(),
        res is Ok ==> {
            &&& res == Ok::<usize, BwrError>(cont@.len() as usize)
            &&& final(w)@ == old(w)@ + header_bytes(*old(b)) + cont@
            &&& *final(b) == write_started(*old(b))
        },
{
    if !b.has_started() {
        b.start_write(w)?;
    }
    let ghost w0 = w@;
    let mut i: usize = 0;
    while i < cont.len()
        invariant
            i <= cont@.len(),
            w@ =~= w0 + cont@.take(i as int),
        decreases cont.len() - i,
    {
        w.push(cont[i]);
        i = i + 1;
    }
    assert(old(w)@.is_prefix_of(w@)) by {
        assert(w@.subrange(0, w0.len() as int) =~= w0);
        assert(w@.subrange(0, old(w)@.len() as int) =~= w0.subrange(0, old(w)@.len() as int));
    }
    assert(cont@.take(cont@.len() as int) =~= cont@);
    Ok(cont.len())
}

/// Reading with `b` from `input` in reads of at most `room` bytes until a read
/// gives none: the chunks of content read (none empty), how many bytes of
/// `input` were consumed, and the framing afterwards; `None` when a read is
/// not allowed or fails.
pub open spec fn read_chunks<B: BytesWR>(b: B, input: Seq<u8>, room: nat) -> Option<(Seq<Seq<u8>>, nat, B)>
    decreases input.len(),
{
    if !b.read_ok(input) {
        None
    } else {
        let s = b.read_step(input, room);
        match s.1 {
            Err(_) => None,
            Ok(out) => if out.len() == 0 {
                Some((Seq::empty(), s.2, s.0))
            } else if s.2 == 0 || s.2 > input.len() {
                None
            } else {
                match read_chunks(s.0, input.skip(s.2 as int), room) {
                    Some(t) => Some((seq![out] + t.0, s.2 + t.1, t.2)),
                    None => None,
                }
            },
        }
    }
}

/// The content bytes of the chunks `cs`, one after the other.
pub open spec fn concat_chunks(cs: Seq<Seq<u8>>) -> Seq<u8>
    decreases cs.len(),
{
    if cs.len() == 0 {
        Seq::empty()
    } else {
        concat_chunks(cs.drop_last()) + cs.last()
    }
}

/// Reading a whole frame with `b` from `input` in reads of at most `room`
/// bytes, then ending the read: the chunks of content read and how many bytes
/// of `input` were consumed; `None` when a read or its end fails.
pub open spec fn read_frame<B: BytesWR>(b: B, input: Seq<u8>, room: nat) -> Option<(Seq<Seq<u8>>, nat)> {
    match read_chunks(b, input, room) {
        None => None,
        Some(t) => {
            let rest = input.skip(t.1 as int);
            if !t.2.end_read_ok(rest) {
                None
            } else {
                let e = t.2.end_read_step(rest);
                if e.1 is Err {
                    None
                } else {
                    Some((t.0, t.1 + e.2))
                }
            }
        },
    }
}

/// Writing the chunks `cs` one after the other with `b`: the bytes written and
/// the framing afterwards; `None` when a write is not allowed or fails.
pub open spec fn write_chunks<B: BytesWR>(b: B, cs: Seq<Seq<u8>>) -> Option<(Seq<u8>, B)>
    decreases cs.len(),
{
    if cs.len() == 0 {
        Some((Seq::empty(), b))
    } else {
        match write_chunks(b, cs.drop_last()) {
            None => None,
            Some(t) => {
                let c = cs.last();
                let b1 = t.1;
                if !b1.write_ok(c.len()) || (!b1.started() && b1.start_write_fails()) {
                    None
                } else if b1.started() {
                    Some((t.0 + b1.content_bytes(c), b1.after_content(c)))
                } else {
                    Some((t.0 + b1.start_bytes() + b1.after_start().content_bytes(c), b1.after_start().after_content(c)))
                }
            },
        }
    }
}

/// Writing a whole frame with `b`: its header, the chunks `cs` one after the
/// other, and its end; `None` when a write fails.
pub open spec fn write_frame<B: BytesWR>(b: B, cs: Seq<Seq<u8>>) -> Option<Seq<u8>> {
    if b.start_write_fails() {
        None
    } else {
        match write_chunks(b.after_start(), cs) {
            None => None,
            Some(t) => if t.1.end_write_fails() {
                None
            } else {
                Some(b.start_bytes() + t.0 + t.1.end_bytes())
            },
        }
    }
}

/// Reading the header of a frame with `b` from `input` and ending the read
/// at once, whatever fails: how many bytes of `input` are consumed.
pub open spec fn skipped_frame<B: BytesWR>(b: B, input: Seq<u8>) -> nat {
    let s = b.start_read_step(input);
    let rest = input.skip(s.2 as int);
    if s.0.end_read_ok(rest) {
        s.2 + s.0.end_read_step(rest).2
    } else {
        s.2
    }
}

/// A writer of content framed by `bwr`, into `sink`.
pub struct BWRImplW<BWR: BytesWR> {
    pub bwr: BWR,
    pub sink: Vec<u8>,
}

impl<BWR: BytesWR> BWRImplW<BWR> {
    /// A writer into `w`, framed by `bwr`.
    pub fn new(bwr: BWR, w: Vec<u8>) -> (r: Self)
        ensures
            r.bwr == bwr,
            r.sink == w,
    {
        BWRImplW { bwr, sink: w }
    }

    /// Writes `cont` (after the framing's header if not started yet); only
    /// writing the header can fail.
    pub fn write(&mut self, cont: &[u8]) -> (r: Result<usize, BwrError>)
        requires
            old(self).bwr.write_ok(cont@.len()),
        ensures
            old(self).sink@.is_prefix_of(final(self).sink@),
            r is Err <==> !old(self).bwr.started() && old(self).bwr.start_write_fails(),
            r is Ok ==> {
                &&& r == Ok::<usize, BwrError>(cont@.len() as usize)
                &&& final(self).sink@ == old(self).sink@ + header_bytes(old(self).bwr) + write_started(
                    old(self).bwr,
                ).content_bytes(cont@)
                &&& final(self).bwr == write_started(old(self).bwr).after_content(cont@)
            },
    {
        self.bwr.b_write(&mut self.sink, cont)
    }

    /// Nothing is buffered here: flushing changes nothing (and does not end
    /// the content).
    pub fn flush(&mut self) -> (r: Result<(), BwrError>)
        ensures
            r is Ok,
            *final(self) == *old(self),
    {
        Ok(())
    }

    /// Ends the content.
    pub fn finish(&mut self) -> (r: Result<(), BwrError>)
        ensures
            old(self).sink@.is_prefix_of(final(self).sink@),
            r is Err <==> old(self).bwr.end_write_fails(),
            r is Ok ==> final(self).sink@ == old(self).sink@ + old(self).bwr.end_bytes() && final(self).bwr
                == old(self).bwr.after_end(),
    {
        self.bwr.end_write(&mut self.sink)
    }
}

/// A reader of content framed by `bwr`, from `source`.
pub struct BWRImplR<BWR: BytesWR> {
    pub bwr: BWR,
    pub source: ByteSource,
}

impl<BWR: BytesWR> BWRImplR<BWR> {
    /// A reader of `r`, framed by `bwr`.
    pub fn new(bwr: BWR, r: ByteSource) -> (res: Self)
        ensures
            res.bwr == bwr,
            res.source == r,
    {
        BWRImplR { bwr, source: r }
    }

    /// Reads content into the front of `buf` (after the framing's header if
    /// not started yet); 0 when the content has ended.
    pub fn read(&mut self, buf: &mut [u8]) -> (r: Result<usize, BwrError>)
        requires
            old(self).bwr.read_ok(old(self).source@),
        ensures
            final(buf)@.len() == old(buf)@.len(),
            r matches Ok(n) ==> n <= old(buf)@.len(),
            rest_of(final(self).source@, old(self).source@),
            ({
                let s = old(self).bwr.read_step(old(self).source@, old(buf)@.len());
                &&& final(self).bwr == s.0
                &&& final(self).source@ == old(self).source@.skip(s.2 as int)
                &&& match s.1 {
                    Ok(out) => r == Ok::<usize, BwrError>(out.len() as usize) && final(buf)@ == out + old(
                        buf,
                    )@.skip(out.len() as int),
                    Err(e) => r == Err::<usize, BwrError>(e) && final(buf)@ == old(buf)@,
                }
            }),
    {
        self.bwr.b_read(&mut self.source, buf)
    }

    /// Ends the content: reads what the framing left after it.
    pub fn finish(&mut self) -> (r: Result<(), BwrError>)
        requires
            old(self).bwr.end_read_ok(old(self).source@),
        ensures
            rest_of(final(self).source@, old(self).source@),
            ({
                let s = old(self).bwr.end_read_step(old(self).source@);
                &&& final(self).bwr == s.0
                &&& r == s.1
                &&& final(self).source@ == old(self).source@.skip(s.2 as int)
            }),
    {
        self.bwr.end_read(&mut self.source)
    }
}

/// A read source that never gives a byte.
pub struct VoidRead;

/// A write sink that takes no byte.
pub struct VoidWrite;

impl VoidRead {
    /// Reads nothing.
    pub fn read(&mut self, buf: &mut [u8]) -> (r: Result<usize, BwrError>)
        ensures
            r == Ok::<usize, BwrError>(0),
            final(buf)@ == old(buf)@,
    {
        Ok(0)
    }
}

impl VoidWrite {
    /// Writes nothing.
    pub fn write(&mut self, cont: &[u8]) -> (r: Result<usize, BwrError>)
        ensures
            r == Ok::<usize, BwrError>(0),
    {
        Ok(0)
    }

    /// Nothing to flush.
    pub fn flush(&mut self) -> (r: Result<(), BwrError>)
        ensures
            r == Ok::<(), BwrError>(()),
    {
        Ok(())
    }
}


// ---------------------------------------------------------------------------
// escaped content with an end marker

/// How a byte of content is written: the escape byte twice, any other once.
pub open spec fn escape_byte(esc: u8, b: u8) -> Seq<u8> {
    if b == esc {
        seq![b, b]
    } else {
        seq![b]
    }
}

/// How content is written: each byte escaped.
pub open spec fn escape_bytes(esc: u8, c: Seq<u8>) -> Seq<u8>
    decreases c.len(),
{
    if c.len() == 0 {
        seq![]
    } else {
        escape_bytes(esc, c.drop_last()) + escape_byte(esc, c.last())
    }
}

/// The end of content: the escape byte followed by a byte that differs from it.
pub open spec fn escape_end_marker(esc: u8) -> Seq<u8> {
    if esc == 0 {
        seq![0u8, 1u8]
    } else {
        seq![esc, 0u8]
    }
}

/// Outcome of reading escaped content.
pub struct EscapeRead {
    /// the content bytes obtained
    pub out: Seq<u8>,
    /// how many stream bytes were consumed
    pub consumed: nat,
    /// whether the last consumed byte is a pending escape byte
    pub escaped: bool,
    /// whether the end marker was found
    pub ended: bool,
}

/// Reading at most `room` content bytes from `input`, starting in escape state
/// `escaped`: an escape byte is dropped and sets the escape state; the escape
/// byte in escape state is content; any other byte is content, except in escape
/// state where it ends the content.
pub open spec fn escape_decode(esc: u8, escaped: bool, input: Seq<u8>, room: nat) -> EscapeRead
    decreases input.len(),
{
    if room == 0 || input.len() == 0 {
        EscapeRead { out: seq![], consumed: 0, escaped: escaped, ended: false }
    } else {
        let b = input[0];
        if b == esc {
            if escaped {
                let r = escape_decode(esc, false, input.drop_first(), (room - 1) as nat);
                EscapeRead {
                    out: seq![b] + r.out,
                    consumed: r.consumed + 1,
                    escaped: r.escaped,
                    ended: r.ended,
                }
            } else {
                let r = escape_decode(esc, true, input.drop_first(), room);
                EscapeRead {
                    out: r.out,
                    consumed: r.consumed + 1,
                    escaped: r.escaped,
                    ended: r.ended,
                }
            }
        } else if escaped {
            EscapeRead { out: seq![], consumed: 1, escaped: true, ended: true }
        } else {
            let r = escape_decode(esc, false, input.drop_first(), (room - 1) as nat);
            EscapeRead {
                out: seq![b] + r.out,
                consumed: r.consumed + 1,
                escaped: r.escaped,
                ended: r.ended,
            }
        }
    }
}

/// One read of at most `room` content bytes from `input` by `st`: nothing once
/// the end marker was read; otherwise the escaped content is decoded.
pub open spec fn escape_read_step(st: EscapeTerm, input: Seq<u8>, room: nat) -> (EscapeTerm, Result<Seq<u8>, BwrError>, nat) {
    if st.ended {
        (st, Ok(Seq::empty()), 0)
    } else {
        let d = escape_decode(st.esc, st.escaped, input, room);
        (EscapeTerm { esc: st.esc, started: true, escaped: d.escaped, ended: d.ended }, Ok(d.out), d.consumed)
    }
}

/// Content followed by an end marker; an escape byte of the content is doubled.
/// Mostly for tests (reads byte per byte).
pub struct EscapeTerm {
    /// the escape byte
    pub esc: u8,
    /// whether reading or writing has started
    pub started: bool,
    /// whether an escape byte was read and not resolved yet
    pub escaped: bool,
    /// whether the end marker has been read
    pub ended: bool,
}

impl EscapeTerm {
    /// A framing with escape byte `t`, nothing started.
    pub fn new(t: u8) -> (r: EscapeTerm)
        ensures
            r == (EscapeTerm { esc: t, started: false, escaped: false, ended: false }),
    {
        EscapeTerm { esc: t, started: false, escaped: false, ended: false }
    }
}

impl BytesWR for EscapeTerm {
    open spec fn read_ok(&self, input: Seq<u8>) -> bool {
        true
    }

    open spec fn write_ok(&self, len: nat) -> bool {
        true
    }

    open spec fn end_read_ok(&self, input: Seq<u8>) -> bool {
        true
    }

    open spec fn started(&self) -> bool {
        self.started
    }

    open spec fn start_write_fails(&self) -> bool {
        false
    }

    open spec fn start_bytes(&self) -> Seq<u8> {
        Seq::empty()
    }

    open spec fn after_start(&self) -> Self {
        EscapeTerm { started: true, ..*self }
    }

    open spec fn end_write_fails(&self) -> bool {
        false
    }

    open spec fn end_bytes(&self) -> Seq<u8> {
        escape_end_marker(self.esc)
    }

    open spec fn after_end(&self) -> Self {
        EscapeTerm { started: false, ..*self }
    }

    open spec fn content_bytes(&self, cont: Seq<u8>) -> Seq<u8> {
        escape_bytes(self.esc, cont)
    }

    open spec fn after_content(&self, cont: Seq<u8>) -> Self {
        *self
    }

    /// Nothing once the end marker was read; otherwise the escaped content
    /// is decoded.
    open spec fn read_step(&self, input: Seq<u8>, room: nat) -> (Self, Result<Seq<u8>, BwrError>, nat) {
        escape_read_step(*self, input, room)
    }

    /// No header: reading starts.
    open spec fn start_read_step(&self, input: Seq<u8>) -> (Self, Result<(), BwrError>, nat) {
        (EscapeTerm { started: true, ..*self }, Ok(()), 0)
    }

    /// The end marker was read with the content: the framing is reset.
    open spec fn end_read_step(&self, input: Seq<u8>) -> (Self, Result<(), BwrError>, nat) {
        (EscapeTerm { started: false, escaped: false, ended: false, ..*self }, Ok(()), 0)
    }

    fn has_started(&self) -> (r: bool)
        ensures
            r == self.started,
    {
        self.started
    }

    fn can_read(&self, r: &ByteSource) -> (b: bool) {
        true
    }

    fn can_write(&self, len: usize) -> (b: bool) {
        true
    }

    fn can_end_read(&self, r: &ByteSource) -> (b: bool) {
        true
    }

    fn start_read(&mut self, r: &mut ByteSource) -> (res: Result<(), BwrError>)
        ensures
            res is Ok,
            *final(self) == (EscapeTerm { started: true, ..*old(self) }),
            final(r)@ == old(r)@,
    {
        broadcast use {lemma_rest_of_self, lemma_rest_of_skip};
        self.started = true;
        Ok(())
    }

    fn start_write(&mut self, w: &mut Vec<u8>) -> (res: Result<(), BwrError>)
        ensures
            res is Ok,
            *final(self) == (EscapeTerm { started: true, ..*old(self) }),
            final(w)@ == old(w)@,
    {
        self.started = true;
        Ok(())
    }

    fn b_read(&mut self, r: &mut ByteSource, buf: &mut [u8]) -> (res: Result<usize, BwrError>)
        ensures
            old(self).ended ==> {
                &&& res == Ok::<usize, BwrError>(0)
                &&& *final(self) == *old(self)
                &&& final(r)@ == old(r)@
                &&& final(buf)@ == old(buf)@
            },
            !old(self).ended ==> {
                let d = escape_decode(old(self).esc, old(self).escaped, old(r)@, old(buf)@.len());
                &&& res == Ok::<usize, BwrError>(d.out.len() as usize)
                &&& d.out.len() <= old(buf)@.len()
                &&& final(buf)@ == d.out + old(buf)@.skip(d.out.len() as int)
                &&& d.consumed <= old(r)@.len()
                &&& final(r)@ == old(r)@.skip(d.consumed as int)
                &&& *final(self) == (EscapeTerm {
                    esc: old(self).esc,
                    started: true,
                    escaped: d.escaped,
                    ended: d.ended,
                })
            },
    {
        broadcast use {lemma_rest_of_self, lemma_rest_of_skip};
        if self.ended {
            return Ok(0);
        }
        if !self.started {
            self.started = true;
        }
        let ghost in0 = r@;
        let ghost b0 = buf@;
        let ghost room = buf@.len();
        let ghost total = escape_decode(self.esc, self.escaped, in0, room);
        proof {
            lemma_escape_decode_out_le(self.esc, self.escaped, in0, room);
        }
        let mut i: usize = 0;
        while i < buf.len()
            invariant
                0 <= i <= buf@.len(),
                buf@.len() == room,
                room == b0.len(),
                b0 == old(buf)@,
                in0 == old(r)@,
                !old(self).ended,
                r@.len() <= in0.len(),
                r@ =~= in0.skip(in0.len() - r@.len()),
                buf@.skip(i as int) =~= b0.skip(i as int),
                !self.ended,
                self.started,
                self.esc == old(self).esc,
                total == escape_decode(old(self).esc, old(self).escaped, in0, room),
                total.out.len() <= total.consumed,
                ({
                    let rest = escape_decode(self.esc, self.escaped, r@, (room - i) as nat);
                    &&& total.out =~= buf@.take(i as int) + rest.out
                    &&& total.consumed == (in0.len() - r@.len()) + rest.consumed
                    &&& total.escaped == rest.escaped
                    &&& total.ended == rest.ended
                }),
            decreases r@.len(),
        {
            let ghost rin = r@;
            let ghost bi = buf@;
            match r.read_byte() {
                None => {
                    proof {
                        assert(buf@ =~= buf@.take(i as int) + b0.skip(i as int));
                    }
                    return Ok(i);
                },
                Some(b) => {
                    proof {
                        assert(rin.drop_first() =~= in0.skip(in0.len() - r@.len()));
                    }
                    if b == self.esc {
                        if self.escaped {
                            buf[i] = b;
                            proof {
                                assert(buf@.take(i + 1) =~= bi.take(i as int) + seq![b]);
                                lemma_skip_after_update(bi, b0, i as int, b);
                                assert(buf@ == bi.update(i as int, b));
                            }
                            i = i + 1;
                            self.escaped = false;
                        } else {
                            self.escaped = true;
                        }
                    } else {
                        if self.escaped {
                            self.ended = true;
                            proof {
                                assert(buf@ =~= buf@.take(i as int) + b0.skip(i as int));
                            }
                            return Ok(i);
                        } else {
                            buf[i] = b;
                            proof {
                                assert(buf@.take(i + 1) =~= bi.take(i as int) + seq![b]);
                                lemma_skip_after_update(bi, b0, i as int, b);
                                assert(buf@ == bi.update(i as int, b));
                            }
                            i = i + 1;
                        }
                    }
                },
            }
        }
        proof {
            assert(buf@ =~= buf@.take(i as int) + b0.skip(i as int));
        }
        Ok(i)
    }

    fn b_write(&mut self, w: &mut Vec<u8>, cont: &[u8]) -> (res: Result<usize, BwrError>)
        ensures
            res == Ok::<usize, BwrError>(cont@.len() as usize),
            final(w)@ == old(w)@ + escape_bytes(old(self).esc, cont@),
            *final(self) == (EscapeTerm { started: true, ..*old(self) }),
    {
        if !self.started {
            self.started = true;
        }
        let mut i: usize = 0;
        while i < cont.len()
            invariant
                0 <= i <= cont@.len(),
                w@ =~= old(w)@ + escape_bytes(self.esc, cont@.take(i as int)),
                *self == (EscapeTerm { started: true, ..*old(self) }),
            decreases cont@.len() - i,
        {
            let b = cont[i];
            if b == self.esc {
                w.push(b);
                w.push(b);
            } else {
                w.push(b);
            }
            proof {
                assert(cont@.take(i + 1).drop_last() =~= cont@.take(i as int));
            }
            i = i + 1;
        }
        proof {
            assert(cont@.take(i as int) =~= cont@);
        }
        Ok(cont.len())
    }

    fn end_read(&mut self, r: &mut ByteSource) -> (res: Result<(), BwrError>)
        ensures
            res is Ok,
            *final(self) == (EscapeTerm { started: false, escaped: false, ended: false, ..*old(self) }),
            final(r)@ == old(r)@,
    {
        broadcast use {lemma_rest_of_self, lemma_rest_of_skip};
        self.started = false;
        self.escaped = false;
        self.ended = false;
        Ok(())
    }

    fn end_write(&mut self, w: &mut Vec<u8>) -> (res: Result<(), BwrError>)
        ensures
            res is Ok,
            *final(self) == (EscapeTerm { started: false, ..*old(self) }),
            final(w)@ == old(w)@ + escape_end_marker(old(self).esc),
    {
        self.started = false;
        if self.esc == 0 {
            w.push(self.esc);
            w.push(1);
        } else {
            w.push(self.esc);
            w.push(0);
        }
        Ok(())
    }
}


/// Escaping a concatenation is the concatenation of the escaped parts.
pub proof fn lemma_escape_bytes_append(esc: u8, a: Seq<u8>, b: Seq<u8>)
    ensures
        escape_bytes(esc, a + b) =~= escape_bytes(esc, a) + escape_bytes(esc, b),
    decreases b.len(),
{
    if b.len() == 0 {
        assert(a + b =~= a);
    } else {
        lemma_escape_bytes_append(esc, a, b.drop_last());
        assert((a + b).drop_last() =~= a + b.drop_last());
        assert((a + b).last() == b.last());
    }
}

/// Content escaped as `b_write` writes it, followed by the end marker that
/// `end_write` writes, is read back whole by one read, from a fresh escape
/// state, with room for more bytes than the content: the read gives the
/// content, consumes exactly the frame, and finds the end (what follows the
/// frame in the stream is left unread).
pub proof fn lemma_escape_roundtrip(esc: u8, c: Seq<u8>, rest: Seq<u8>, room: nat)
    requires
        room > c.len(),
    ensures
        ({
            let d = escape_decode(esc, false, escape_bytes(esc, c) + escape_end_marker(esc) + rest, room);
            &&& d.out == c
            &&& d.consumed == escape_bytes(esc, c).len() + 2
            &&& d.ended
        }),
    decreases c.len(),
{
    let m = escape_end_marker(esc);
    if c.len() == 0 {
        let input = escape_bytes(esc, c) + m + rest;
        assert(escape_bytes(esc, c) =~= Seq::<u8>::empty());
        assert(input[0] == esc);
        assert(input.drop_first()[0] == m[1]);
        assert(m[1] != esc);
        let r1 = escape_decode(esc, true, input.drop_first(), room);
        assert(r1.out =~= Seq::<u8>::empty() && r1.consumed == 1 && r1.ended);
        assert(c =~= Seq::<u8>::empty());
    } else {
        let b = c[0];
        let t = c.drop_first();
        assert(c =~= seq![b] + t);
        lemma_escape_bytes_append(esc, seq![b], t);
        assert(seq![b].drop_last() =~= Seq::<u8>::empty());
        assert(escape_bytes(esc, Seq::<u8>::empty()) =~= Seq::<u8>::empty());
        assert(seq![b].last() == b);
        assert(escape_bytes(esc, seq![b]) =~= escape_byte(esc, b));
        lemma_escape_roundtrip(esc, t, rest, (room - 1) as nat);
        let tail = escape_bytes(esc, t) + m + rest;
        let input = escape_bytes(esc, c) + m + rest;
        assert(input =~= escape_byte(esc, b) + tail);
        let dt = escape_decode(esc, false, tail, (room - 1) as nat);
        let d = escape_decode(esc, false, input, room);
        if b == esc {
            assert(input[0] == esc);
            assert(input.drop_first() =~= seq![esc] + tail);
            assert(input.drop_first()[0] == esc);
            assert(input.drop_first().drop_first() =~= tail);
            let d1 = escape_decode(esc, true, input.drop_first(), room);
            assert(d1.out == seq![esc] + dt.out && d1.consumed == dt.consumed + 1 && d1.ended == dt.ended);
            assert(d.out == d1.out && d.consumed == d1.consumed + 1 && d.ended == d1.ended);
        } else {
            assert(input[0] == b);
            assert(input.drop_first() =~= tail);
            assert(d.out == seq![b] + dt.out && d.consumed == dt.consumed + 1 && d.ended == dt.ended);
        }
        assert(d.out =~= c);
    }
}

/// Decoding at most `room` bytes of escaped content, with room for fewer bytes
/// than the content has, gives the first `room` content bytes, consumes
/// exactly their escaped form, and stops outside of any escape.
pub proof fn lemma_escape_decode_prefix(esc: u8, c: Seq<u8>, tail: Seq<u8>, room: nat)
    requires
        room <= c.len(),
    ensures
        ({
            let d = escape_decode(esc, false, escape_bytes(esc, c) + tail, room);
            &&& d.out == c.take(room as int)
            &&& d.consumed == escape_bytes(esc, c.take(room as int)).len()
            &&& !d.escaped
            &&& !d.ended
        }),
    decreases room,
{
    if room == 0 {
        assert(c.take(0) =~= Seq::<u8>::empty());
        assert(escape_bytes(esc, Seq::<u8>::empty()) =~= Seq::<u8>::empty());
    } else {
        let b = c[0];
        let t = c.drop_first();
        assert(c =~= seq![b] + t);
        lemma_escape_bytes_append(esc, seq![b], t);
        assert(seq![b].drop_last() =~= Seq::<u8>::empty());
        assert(escape_bytes(esc, Seq::<u8>::empty()) =~= Seq::<u8>::empty());
        assert(escape_bytes(esc, seq![b]) =~= escape_byte(esc, b));
        lemma_escape_decode_prefix(esc, t, tail, (room - 1) as nat);
        let tt = escape_bytes(esc, t) + tail;
        let input = escape_bytes(esc, c) + tail;
        assert(input =~= escape_byte(esc, b) + tt);
        let dt = escape_decode(esc, false, tt, (room - 1) as nat);
        let d = escape_decode(esc, false, input, room);
        assert(c.take(room as int) =~= seq![b] + t.take(room - 1));
        lemma_escape_bytes_append(esc, seq![b], t.take(room - 1));
        if b == esc {
            assert(input[0] == esc);
            assert(input.drop_first() =~= seq![esc] + tt);
            assert(input.drop_first()[0] == esc);
            assert(input.drop_first().drop_first() =~= tt);
            let d1 = escape_decode(esc, true, input.drop_first(), room);
            assert(d1.out == seq![esc] + dt.out && d1.consumed == dt.consumed + 1 && d1.ended == dt.ended
                && d1.escaped == dt.escaped);
        } else {
            assert(input[0] == b);
            assert(input.drop_first() =~= tt);
        }
        assert(d.out =~= c.take(room as int));
    }
}

/// Reading with `b` from `input` by successive reads of at most `room` bytes
/// each, until a read gives none (the content has ended), with at most `fuel`
/// reads, each allowed by `read_ok`: the content bytes read, how many bytes of
/// `input` were consumed, and the framing afterwards; `None` when a read is
/// not allowed or fails, or when the reads run out.
pub open spec fn reads_until_end<B: BytesWR>(b: B, input: Seq<u8>, room: nat, fuel: nat) -> Option<(Seq<u8>, nat, B)>
    decreases fuel,
{
    if fuel == 0 || !b.read_ok(input) {
        None
    } else {
        let s = b.read_step(input, room);
        match s.1 {
            Err(_) => None,
            Ok(out) => if out.len() == 0 {
                Some((Seq::empty(), s.2, s.0))
            } else {
                match reads_until_end(s.0, input.skip(s.2 as int), room, (fuel - 1) as nat) {
                    Some(r) => Some((out + r.0, s.2 + r.1, r.2)),
                    None => None,
                }
            },
        }
    }
}

/// The escape framing once the end marker was read.
pub open spec fn escape_ended(esc: u8) -> EscapeTerm {
    EscapeTerm { esc: esc, started: true, escaped: true, ended: true }
}

/// Reading escaped content and its end marker, outside of any escape and
/// before the end, with reads of at most `room > 0` bytes each until one gives
/// none: the reads give the content, consume exactly the frame, and find the
/// end; at most one read more than the content has bytes is needed.
pub proof fn lemma_escape_reads(esc: u8, started: bool, c: Seq<u8>, rest: Seq<u8>, room: nat, fuel: nat)
    requires
        room > 0,
        fuel > c.len(),
    ensures
        reads_until_end(
            EscapeTerm { esc: esc, started: started, escaped: false, ended: false },
            escape_bytes(esc, c) + escape_end_marker(esc) + rest,
            room,
            fuel,
        ) == Some((c, (escape_bytes(esc, c).len() + 2) as nat, escape_ended(esc))),
    decreases c.len(),
{
    let st = EscapeTerm { esc: esc, started: started, escaped: false, ended: false };
    let input = escape_bytes(esc, c) + escape_end_marker(esc) + rest;
    let s = st.read_step(input, room);
    if room > c.len() {
        lemma_escape_roundtrip(esc, c, rest, room);
        let d = escape_decode(esc, false, input, room);
        assert(d.escaped) by {
            reveal_with_fuel(escape_decode, 2);
            lemma_escape_decode_ends_escaped(esc, false, input, room);
        }
        assert(s.0 == escape_ended(esc));
        assert(s.1 == Ok::<Seq<u8>, BwrError>(c));
        assert(s.2 == escape_bytes(esc, c).len() + 2);
        assert(st.read_ok(input));
        if c.len() > 0 {
            let input2 = input.skip(s.2 as int);
            let s2 = escape_ended(esc).read_step(input2, room);
            assert(s2.1 == Ok::<Seq<u8>, BwrError>(Seq::empty()) && s2.2 == 0 && s2.0 == escape_ended(esc));
            assert(reads_until_end(escape_ended(esc), input2, room, (fuel - 1) as nat) == Some(
                (Seq::<u8>::empty(), 0nat, escape_ended(esc)),
            ));
            assert(c + Seq::<u8>::empty() =~= c);
        } else {
            assert(c =~= Seq::<u8>::empty());
        }
    } else {
        let k = room as int;
        lemma_escape_decode_prefix(esc, c, escape_end_marker(esc) + rest, room);
        assert(input =~= escape_bytes(esc, c) + (escape_end_marker(esc) + rest));
        let c1 = c.take(k);
        let c2 = c.skip(k);
        assert(c =~= c1 + c2);
        lemma_escape_bytes_append(esc, c1, c2);
        let st2 = EscapeTerm { esc: esc, started: true, escaped: false, ended: false };
        assert(s.0 == st2);
        assert(input.skip(s.2 as int) =~= escape_bytes(esc, c2) + escape_end_marker(esc) + rest);
        lemma_escape_reads(esc, true, c2, rest, room, (fuel - 1) as nat);
    }
}

/// Decoding never gives more content bytes than it consumes.
proof fn lemma_escape_decode_out_le(esc: u8, escaped: bool, input: Seq<u8>, room: nat)
    ensures
        escape_decode(esc, escaped, input, room).out.len() <= escape_decode(esc, escaped, input, room).consumed,
        escape_decode(esc, escaped, input, room).consumed <= input.len(),
    decreases input.len(),
{
    if room == 0 || input.len() == 0 {
    } else {
        let b = input[0];
        if b == esc {
            if escaped {
                lemma_escape_decode_out_le(esc, false, input.drop_first(), (room - 1) as nat);
            } else {
                lemma_escape_decode_out_le(esc, true, input.drop_first(), room);
            }
        } else if !escaped {
            lemma_escape_decode_out_le(esc, false, input.drop_first(), (room - 1) as nat);
        }
    }
}

/// Decoding that finds the end marker stops in escape state.
proof fn lemma_escape_decode_ends_escaped(esc: u8, escaped: bool, input: Seq<u8>, room: nat)
    ensures
        escape_decode(esc, escaped, input, room).ended ==> escape_decode(esc, escaped, input, room).escaped,
    decreases input.len(),
{
    if room == 0 || input.len() == 0 {
    } else {
        let b = input[0];
        if b == esc {
            if escaped {
                lemma_escape_decode_ends_escaped(esc, false, input.drop_first(), (room - 1) as nat);
            } else {
                lemma_escape_decode_ends_escaped(esc, true, input.drop_first(), room);
            }
        } else if !escaped {
            lemma_escape_decode_ends_escaped(esc, false, input.drop_first(), (room - 1) as nat);
        }
    }
}

/// Content written by a fresh escape framing (`b_write` then `end_write`) is
/// read back by a fresh framing with reads of any `room > 0` bytes each,
/// until a read gives none: the reads give exactly the content and leave the
/// stream right after the frame (what follows is left unread); `end_read`
/// then leaves a fresh framing.
pub proof fn lemma_escape_roundtrip_reads(esc: u8, c: Seq<u8>, rest: Seq<u8>, room: nat, fuel: nat)
    requires
        room > 0,
        fuel > c.len(),
    ensures
        ({
            let fresh = EscapeTerm { esc: esc, started: false, escaped: false, ended: false };
            let frame = fresh.start_bytes() + fresh.after_start().content_bytes(c) + fresh.after_start().after_content(
                c,
            ).end_bytes();
            match reads_until_end(fresh, frame + rest, room, fuel) {
                Some(r) => {
                    &&& r.0 == c
                    &&& r.1 == frame.len()
                    &&& EscapeTerm { started: false, escaped: false, ended: false, ..r.2 } == fresh
                },
                None => false,
            }
        }),
{
    lemma_escape_reads(esc, false, c, rest, room, fuel);
}

/// Two escaped frames one after the other are read one after the other by the
/// same framing: reading until a read gives none gives the first content and
/// stops right after the first frame; ending the read makes the framing fresh
/// again, so that reading on gives the second content and stops right after
/// the second frame.
pub proof fn lemma_escape_two_frames(esc: u8, c1: Seq<u8>, c2: Seq<u8>, rest: Seq<u8>, room: nat, fuel: nat)
    requires
        room > 0,
        fuel > c1.len(),
        fuel > c2.len(),
    ensures
        ({
            let fresh = EscapeTerm { esc: esc, started: false, escaped: false, ended: false };
            let frame1 = escape_bytes(esc, c1) + escape_end_marker(esc);
            let frame2 = escape_bytes(esc, c2) + escape_end_marker(esc);
            match reads_until_end(fresh, frame1 + frame2 + rest, room, fuel) {
                Some(r1) => {
                    let e = r1.2.end_read_step((frame2 + rest));
                    &&& r1.0 == c1
                    &&& r1.1 == frame1.len()
                    &&& e.0 == fresh
                    &&& e.1 is Ok
                    &&& e.2 == 0
                    &&& match reads_until_end(e.0, frame2 + rest, room, fuel) {
                        Some(r2) => r2.0 == c2 && r2.1 == frame2.len(),
                        None => false,
                    }
                },
                None => false,
            }
        }),
{
    let frame1 = escape_bytes(esc, c1) + escape_end_marker(esc);
    let frame2 = escape_bytes(esc, c2) + escape_end_marker(esc);
    assert(frame1 + frame2 + rest =~= escape_bytes(esc, c1) + escape_end_marker(esc) + (frame2 + rest));
    lemma_escape_reads(esc, false, c1, frame2 + rest, room, fuel);
    assert(frame2 + rest =~= escape_bytes(esc, c2) + escape_end_marker(esc) + rest);
    lemma_escape_reads(esc, false, c2, rest, room, fuel);
}

// ---------------------------------------------------------------------------
// content in sized windows

/// Configuration of a sized windows framing.
pub trait SizedWindowsParams {
    /// size of the first window
    const INIT_SIZE: usize;
    /// next window size is the current size times the first and divided by the
    /// second number; without it every window has the first size
    const GROWTH_RATIO: Option<(usize, usize)>;
    /// whether the size of each window is written (so that readers need not
    /// share the same growth)
    const WRITE_SIZE: bool;
}

/// Content cut in windows: after a full window comes a marker byte, 1 when
/// another window follows (then its size if sizes are written), 0 when the
/// content has ended; the last window is padded with zeros.
pub struct SizedWindows<P: SizedWindowsParams> {
    /// current window size; `None` before the start, `Some(0)` once the end
    /// marker has been read
    pub init_size: Option<usize>,
    /// bytes left in the current window
    pub winrem: usize,
    pub _p: PhantomData<P>,
}

/// The size that follows a window of size `cur`.
pub open spec fn next_window<P: SizedWindowsParams>(cur: usize) -> int {
    match P::GROWTH_RATIO {
        Some((n, d)) => (cur as int * n as int) / (d as int),
        None => P::INIT_SIZE as int,
    }
}

/// The window after a full window of size `cur` has size `cur * n / d` with
/// a growth ratio `(n, d)` and the first size without one, whether sizes are
/// written or not; the bytes written between two windows are the marker 1,
/// followed by the size of the next window as a little endian u64 exactly
/// when sizes are written.
pub proof fn lemma_next_window_size<P: SizedWindowsParams>(cur: usize)
    ensures
        P::GROWTH_RATIO matches Some((n, d)) ==> next_window::<P>(cur) == (cur as int * n as int) / (d as int),
        P::GROWTH_RATIO is None ==> next_window::<P>(cur) == P::INIT_SIZE,
        window_marker::<P>(cur)[0] == 1u8,
        P::WRITE_SIZE ==> window_marker::<P>(cur) == seq![1u8] + le_bytes(cur as u64),
        !P::WRITE_SIZE ==> window_marker::<P>(cur) == seq![1u8],
{
    assert(P::WRITE_SIZE ==> window_marker::<P>(cur) =~= seq![1u8] + le_bytes(cur as u64));
    assert(!P::WRITE_SIZE ==> window_marker::<P>(cur) =~= seq![1u8]);
}

/// Writing content longer than what is left of the current window fills the
/// window, writes the marker of a next window of size `cur * n / d` (with a
/// growth ratio `(n, d)`, the first size without one) and goes on in it.
pub proof fn lemma_write_opens_grown_window<P: SizedWindowsParams>(winrem: usize, cur: usize, c: Seq<u8>)
    requires
        c.len() > winrem,
        next_window_ok::<P>(cur),
        0 < next_window::<P>(cur),
    ensures
        ({
            let ns: int = match P::GROWTH_RATIO {
                Some((n, d)) => (cur as int * n as int) / (d as int),
                None => P::INIT_SIZE as int,
            };
            let e = sw_write_bytes::<P>(winrem, cur, c);
            let e2 = sw_write_bytes::<P>(ns as usize, ns as usize, c.skip(winrem as int));
            &&& e.0 == c.take(winrem as int) + seq![1u8] + (if P::WRITE_SIZE {
                le_bytes(ns as u64)
            } else {
                Seq::<u8>::empty()
            }) + e2.0
            &&& e.1 == e2.1
            &&& e.2 == e2.2
        }),
{
    lemma_next_window_bound::<P>(cur);
    lemma_next_window_size::<P>(cur);
    let ns = next_window::<P>(cur);
    let e2 = sw_write_bytes::<P>(ns as usize, ns as usize, c.skip(winrem as int));
    lemma_next_window_size::<P>(ns as usize);
    assert(c.take(winrem as int) + window_marker::<P>(ns as usize) + e2.0 =~= c.take(winrem as int) + seq![1u8] + (
    if P::WRITE_SIZE {
        le_bytes(ns as u64)
    } else {
        Seq::<u8>::empty()
    }) + e2.0);
}

/// The next window size can be computed from `cur` (no division by zero, no
/// overflow).
pub open spec fn next_window_ok<P: SizedWindowsParams>(cur: usize) -> bool {
    match P::GROWTH_RATIO {
        Some((n, d)) => d != 0 && cur * n <= usize::MAX,
        None => true,
    }
}

/// The bytes that give a window size: its little endian u64 if sizes are
/// written, nothing otherwise.
pub open spec fn window_header<P: SizedWindowsParams>(size: usize) -> Seq<u8> {
    if P::WRITE_SIZE {
        le_bytes(size as u64)
    } else {
        seq![]
    }
}

/// The bytes between two windows, the second of size `size`.
pub open spec fn window_marker<P: SizedWindowsParams>(size: usize) -> Seq<u8> {
    seq![1u8] + window_header::<P>(size)
}

/// Writing content of length `len` from offset `tot` on, with `winrem` bytes
/// left in a window of size `cur`, neither overflows nor loops forever (every
/// window that gets opened has a positive size).
pub open spec fn sw_write_ok<P: SizedWindowsParams>(winrem: usize, cur: usize, tot: int, len: int) -> bool
    decreases len - tot, (if winrem == 0 { 1int } else { 0int }),
{
    if tot >= len {
        true
    } else if winrem + tot > usize::MAX {
        false
    } else if winrem + tot >= len {
        true
    } else if !next_window_ok::<P>(cur) {
        false
    } else {
        let ns = next_window::<P>(cur);
        if ns <= 0 {
            false
        } else {
            sw_write_ok::<P>(ns as usize, ns as usize, tot + winrem, len)
        }
    }
}

/// The bytes that write content `c` with `winrem` bytes left in a window of
/// size `cur`, then the bytes left in the last window and its size.
pub open spec fn sw_write_bytes<P: SizedWindowsParams>(winrem: usize, cur: usize, c: Seq<u8>) -> (Seq<u8>, usize, usize)
    decreases c.len(), (if winrem == 0 { 1int } else { 0int }),
{
    if c.len() <= winrem {
        (c, (winrem - c.len()) as usize, cur)
    } else {
        let ns = next_window::<P>(cur);
        if ns <= 0 || ns > usize::MAX {
            (c, 0, cur)
        } else {
            let r = sw_write_bytes::<P>(ns as usize, ns as usize, c.skip(winrem as int));
            (c.take(winrem as int) + window_marker::<P>(ns as usize) + r.0, r.1, r.2)
        }
    }
}

/// A framing state with window size `size` and `winrem` bytes left in it.
pub open spec fn sw_state<P: SizedWindowsParams>(size: Option<usize>, winrem: usize) -> SizedWindows<P> {
    SizedWindows { init_size: size, winrem: winrem, _p: PhantomData }
}

/// Reading the start: the state afterwards, whether it succeeded, and the
/// number of bytes consumed.
pub open spec fn sw_start_read<P: SizedWindowsParams>(st: SizedWindows<P>, input: Seq<u8>) -> (SizedWindows<P>, bool, nat) {
    if P::WRITE_SIZE {
        if input.len() < 8 {
            (st, false, input.len())
        } else {
            let n = le_value(input.take(8)) as usize;
            (sw_state::<P>(Some(n), n), true, 8)
        }
    } else {
        (sw_state::<P>(Some(st.winrem), st.winrem), true, 0)
    }
}

/// Reading content bytes from position `start` of `input`: as many as the
/// window, the room and the input allow.
pub open spec fn sw_read_data<P: SizedWindowsParams>(st: SizedWindows<P>, input: Seq<u8>, start: nat, room: nat) -> (SizedWindows<P>, Result<usize, BwrError>, nat, nat) {
    let n = min_nat(min_nat(st.winrem as int, room as int), input.len() - start);
    (sw_state::<P>(st.init_size, (st.winrem - n) as usize), Ok(n as usize), start + n as nat, start)
}

/// One read of at most `room` bytes from `input`: the state afterwards, the
/// result, the number of bytes consumed, and where in `input` the content
/// bytes that were read start.
#[verifier::opaque]
pub open spec fn sw_read_step<P: SizedWindowsParams>(st: SizedWindows<P>, input: Seq<u8>, room: nat) -> (SizedWindows<P>, Result<usize, BwrError>, nat, nat) {
    let started = if st.init_size is None {
        sw_start_read::<P>(st, input)
    } else {
        (st, true, 0nat)
    };
    let s1 = started.0;
    let c1 = started.2;
    if !started.1 {
        (s1, Err(BwrError::UnexpectedEof), c1, c1)
    } else if s1.init_size == Some(0usize) {
        (s1, Ok(0usize), c1, c1)
    } else if s1.winrem == 0 {
        let in2 = input.skip(c1 as int);
        if in2.len() == 0 {
            (s1, Err(BwrError::MissingWindowMarker), c1, c1)
        } else if in2[0] == 0 {
            (sw_state::<P>(Some(0usize), s1.winrem), Ok(0usize), c1 + 1, c1 + 1)
        } else if P::WRITE_SIZE {
            let in3 = in2.skip(1);
            if in3.len() < 8 {
                (s1, Err(BwrError::UnexpectedEof), c1 + 1 + in3.len(), c1 + 1 + in3.len())
            } else {
                let n = le_value(in3.take(8)) as usize;
                sw_read_data::<P>(sw_state::<P>(Some(n), n), input, c1 + 9, room)
            }
        } else {
            let n = next_window::<P>(s1.init_size.unwrap()) as usize;
            sw_read_data::<P>(sw_state::<P>(Some(n), n), input, c1 + 1, room)
        }
    } else {
        sw_read_data::<P>(s1, input, c1, room)
    }
}

/// Ending a read: the state afterwards, the result, the number of bytes
/// consumed. After the end marker was read there is nothing to do; otherwise
/// the rest of the window is skipped and the terminal 0 must follow.
pub open spec fn sw_end_read<P: SizedWindowsParams>(st: SizedWindows<P>, input: Seq<u8>) -> (SizedWindows<P>, Result<(), BwrError>, nat) {
    if st.init_size == Some(0usize) {
        (sw_state::<P>(None, P::INIT_SIZE), Ok(()), 0)
    } else {
        let in2 = input.skip(st.winrem as int);
        if in2.len() == 0 {
            (sw_state::<P>(st.init_size, 0), Err(BwrError::MissingEndMarker), st.winrem as nat)
        } else if in2[0] != 0 {
            (sw_state::<P>(st.init_size, 0), Err(BwrError::MissingEndMarker), (st.winrem + 1) as nat)
        } else {
            (sw_state::<P>(None, P::INIT_SIZE), Ok(()), (st.winrem + 1) as nat)
        }
    }
}

/// The next window size.
fn next_window_size<P: SizedWindowsParams>(cur: usize) -> (r: usize)
    requires
        next_window_ok::<P>(cur),
    ensures
        r == next_window::<P>(cur),
        P::GROWTH_RATIO matches Some((n, d)) ==> r == (cur as int * n as int) / (d as int),
        P::GROWTH_RATIO is None ==> r == P::INIT_SIZE,
{
    match P::GROWTH_RATIO {
        Some((n, d)) => cur * n / d,
        None => P::INIT_SIZE,
    }
}

/// Whether the size after a window of size `cur` can be computed.
fn next_window_checked<P: SizedWindowsParams>(cur: usize) -> (r: bool)
    ensures
        r == next_window_ok::<P>(cur),
{
    match P::GROWTH_RATIO {
        Some((n, d)) => d != 0 && cur.checked_mul(n).is_some(),
        None => true,
    }
}

/// Reads a window size (eight bytes, little endian).
fn read_size(r: &mut ByteSource) -> (res: Result<usize, BwrError>)
    ensures
        rest_of(final(r)@, old(r)@),
        old(r)@.len() < 8 ==> res == Err::<usize, BwrError>(BwrError::UnexpectedEof) && final(r)@ == Seq::<u8>::empty(),
        old(r)@.len() >= 8 ==> res == Ok::<usize, BwrError>(le_value(old(r)@.take(8)) as usize) && final(r)@ =~= old(r)@.skip(8),
        final(r).data_len() == old(r).data_len(),
{
    let n = read_u64_from(r)?;
    Ok(n as usize)
}

/// Reads a u64 (eight bytes, little endian).
pub(crate) fn read_u64_from(r: &mut ByteSource) -> (res: Result<u64, BwrError>)
    ensures
        rest_of(final(r)@, old(r)@),
        old(r)@.len() < 8 ==> res == Err::<u64, BwrError>(BwrError::UnexpectedEof) && final(r)@ == Seq::<u8>::empty(),
        old(r)@.len() >= 8 ==> res == Ok::<u64, BwrError>(le_value(old(r)@.take(8))) && final(r)@ =~= old(r)@.skip(8),
        final(r).data_len() == old(r).data_len(),
{
    let v = r.take_bytes(8);
    if v.len() < 8 {
        proof {
            assert(old(r)@.skip(old(r)@.len() as int) =~= Seq::<u8>::empty());
            lemma_rest_of_skip(old(r)@, old(r)@.len() as int);
        }
        Err(BwrError::UnexpectedEof)
    } else {
        proof {
            lemma_rest_of_skip(old(r)@, 8);
        }
        let n = read_u64_le(v.as_slice());
        Ok(n)
    }
}

/// Reads a u64 (eight bytes, big endian).
pub(crate) fn read_u64_be_from(r: &mut ByteSource) -> (res: Result<u64, BwrError>)
    ensures
        rest_of(final(r)@, old(r)@),
        old(r)@.len() < 8 ==> res == Err::<u64, BwrError>(BwrError::UnexpectedEof) && final(r)@ == Seq::<u8>::empty(),
        old(r)@.len() >= 8 ==> res == Ok::<u64, BwrError>(be_value(old(r)@.take(8))) && final(r)@ =~= old(r)@.skip(8),
{
    let v = r.take_bytes(8);
    if v.len() < 8 {
        proof {
            assert(old(r)@.skip(old(r)@.len() as int) =~= Seq::<u8>::empty());
            lemma_rest_of_skip(old(r)@, old(r)@.len() as int);
        }
        Err(BwrError::UnexpectedEof)
    } else {
        proof {
            lemma_rest_of_skip(old(r)@, 8);
            assert(v@.take(8) =~= v@);
        }
        let n = read_u64_be(v.as_slice());
        Ok(n)
    }
}

/// Appends the bytes of `cont` from `from` to `to`.
fn push_range(w: &mut Vec<u8>, cont: &[u8], from: usize, to: usize)
    requires
        from <= to <= cont@.len(),
    ensures
        final(w)@ =~= old(w)@ + cont@.subrange(from as int, to as int),
{
    let mut i = from;
    while i < to
        invariant
            from <= i <= to,
            to <= cont@.len(),
            w@ =~= old(w)@ + cont@.subrange(from as int, i as int),
        decreases to - i,
    {
        w.push(cont[i]);
        i = i + 1;
    }
}

impl<P: SizedWindowsParams> SizedWindows<P> {
    /// A framing before its start, with a first window of `P::INIT_SIZE` bytes.
    pub fn new(_p: P) -> (r: Self)
        ensures
            r == sw_state::<P>(None, P::INIT_SIZE),
    {
        SizedWindows { init_size: None, winrem: P::INIT_SIZE, _p: PhantomData }
    }

    /// The size of the current window (of the first one before the start).
    pub open spec fn current_window(&self) -> usize {
        match self.init_size {
            Some(s) => s,
            None => self.winrem,
        }
    }
}

impl<P: SizedWindowsParams> BytesWR for SizedWindows<P> {
    /// A window size is computed only when it can be.
    open spec fn read_ok(&self, input: Seq<u8>) -> bool {
        (self.init_size matches Some(s) && s != 0 && self.winrem == 0 && input.len() > 0 && input[0] != 0
            && !P::WRITE_SIZE) ==> next_window_ok::<P>(self.init_size.unwrap())
    }

    open spec fn write_ok(&self, len: nat) -> bool {
        sw_write_ok::<P>(self.winrem, self.current_window(), 0, len as int)
    }

    /// The rest of the window is there to be skipped.
    open spec fn end_read_ok(&self, input: Seq<u8>) -> bool {
        self.init_size != Some(0usize) ==> input.len() >= self.winrem
    }

    open spec fn started(&self) -> bool {
        self.init_size is Some
    }

    open spec fn start_write_fails(&self) -> bool {
        false
    }

    /// The size of the first window, if sizes are written.
    open spec fn start_bytes(&self) -> Seq<u8> {
        window_header::<P>(self.winrem)
    }

    open spec fn after_start(&self) -> Self {
        sw_state::<P>(Some(self.winrem), self.winrem)
    }

    open spec fn end_write_fails(&self) -> bool {
        false
    }

    /// The padding of the last window, then the terminal 0.
    open spec fn end_bytes(&self) -> Seq<u8> {
        Seq::new(self.winrem as nat, |i: int| 0u8) + seq![0u8]
    }

    open spec fn after_end(&self) -> Self {
        sw_state::<P>(None, P::INIT_SIZE)
    }

    open spec fn content_bytes(&self, cont: Seq<u8>) -> Seq<u8> {
        sw_write_bytes::<P>(self.winrem, self.current_window(), cont).0
    }

    open spec fn after_content(&self, cont: Seq<u8>) -> Self {
        let full = sw_write_bytes::<P>(self.winrem, self.current_window(), cont);
        sw_state::<P>(Some(full.2), full.1)
    }

    open spec fn start_read_step(&self, input: Seq<u8>) -> (Self, Result<(), BwrError>, nat) {
        let s = sw_start_read::<P>(*self, input);
        (s.0, if s.1 {
            Ok(())
        } else {
            Err(BwrError::UnexpectedEof)
        }, s.2)
    }

    open spec fn end_read_step(&self, input: Seq<u8>) -> (Self, Result<(), BwrError>, nat) {
        sw_end_read::<P>(*self, input)
    }

    /// The content bytes are those of the input from where the read step
    /// says they start.
    open spec fn read_step(&self, input: Seq<u8>, room: nat) -> (Self, Result<Seq<u8>, BwrError>, nat) {
        let s = sw_read_step::<P>(*self, input, room);
        (s.0, match s.1 {
            Ok(n) => Ok(input.subrange(s.3 as int, s.3 + n)),
            Err(e) => Err(e),
        }, s.2)
    }

    fn has_started(&self) -> (r: bool)
        ensures
            r == (self.init_size is Some),
    {
        self.init_size.is_some()
    }

    fn can_read(&self, r: &ByteSource) -> (b: bool) {
        match self.init_size {
            Some(s) => {
                if s != 0 && self.winrem == 0 && !P::WRITE_SIZE {
                    match r.peek() {
                        Some(m) => m == 0 || next_window_checked::<P>(s),
                        None => true,
                    }
                } else {
                    true
                }
            },
            None => true,
        }
    }

    fn can_write(&self, len: usize) -> (b: bool) {
        let ghost cur0 = self.current_window();
        let mut winrem = self.winrem;
        let mut cur = match self.init_size {
            Some(s) => s,
            None => self.winrem,
        };
        let mut tot: usize = 0;
        loop
            invariant
                cur0 == self.current_window(),
                sw_write_ok::<P>(winrem, cur, tot as int, len as int) == sw_write_ok::<P>(
                    self.winrem,
                    cur0,
                    0,
                    len as int,
                ),
            decreases len - tot, (if winrem == 0 {
                1int
            } else {
                0int
            }),
        {
            if tot >= len {
                return true;
            }
            if winrem > usize::MAX - tot {
                return false;
            }
            if winrem + tot >= len {
                return true;
            }
            if !next_window_checked::<P>(cur) {
                return false;
            }
            let ns = next_window_size::<P>(cur);
            if ns == 0 {
                return false;
            }
            tot = tot + winrem;
            winrem = ns;
            cur = ns;
        }
    }

    fn can_end_read(&self, r: &ByteSource) -> (b: bool) {
        match self.init_size {
            Some(0) => true,
            _ => r.remaining() >= self.winrem,
        }
    }

    fn start_write(&mut self, w: &mut Vec<u8>) -> (res: Result<(), BwrError>)
        ensures
            res is Ok,
            *final(self) == sw_state::<P>(Some(old(self).winrem), old(self).winrem),
            final(w)@ == old(w)@ + window_header::<P>(old(self).winrem),
    {
        if P::WRITE_SIZE {
            write_u64_le(w, self.winrem as u64);
        }
        self.init_size = Some(self.winrem);
        proof {
            if !P::WRITE_SIZE {
                assert(old(w)@ + window_header::<P>(old(self).winrem) =~= old(w)@);
            }
        }
        Ok(())
    }

    fn start_read(&mut self, r: &mut ByteSource) -> (res: Result<(), BwrError>)
        ensures
            ({
                let s = sw_start_read::<P>(*old(self), old(r)@);
                &&& *final(self) == s.0
                &&& (res is Ok <==> s.1)
                &&& res is Err ==> res == Err::<(), BwrError>(BwrError::UnexpectedEof)
                &&& s.2 <= old(r)@.len()
                &&& final(r)@ =~= old(r)@.skip(s.2 as int)
            }),
            final(r).data_len() == old(r).data_len(),
    {
        broadcast use {lemma_rest_of_self, lemma_rest_of_skip};
        if P::WRITE_SIZE {
            let n = read_size(r)?;
            self.winrem = n;
        }
        self.init_size = Some(self.winrem);
        Ok(())
    }

    #[verifier::rlimit(40)]
    fn b_read(&mut self, r: &mut ByteSource, buf: &mut [u8]) -> (res: Result<usize, BwrError>)
        ensures
            ({
                let s = sw_read_step::<P>(*old(self), old(r)@, old(buf)@.len());
                &&& *final(self) == s.0
                &&& res == s.1
                &&& s.2 <= old(r)@.len()
                &&& final(r)@ =~= old(r)@.skip(s.2 as int)
                &&& (res matches Ok(n) ==> s.2 == s.3 + n && final(buf)@ =~= old(r)@.subrange(
                    s.3 as int,
                    s.3 + n,
                ) + old(buf)@.skip(n as int))
                &&& (res is Err ==> final(buf)@ == old(buf)@)
            }),
    {
        broadcast use {lemma_rest_of_self, lemma_rest_of_skip};
        proof {
            reveal(sw_read_step);
        }
        let ghost in0 = r@;
        if self.init_size.is_none() {
            self.start_read(r)?;
        }
        let ghost c1 = (in0.len() - r@.len()) as nat;
        proof {
            assert(r@ =~= in0.skip(c1 as int));
        }
        match self.init_size {
            Some(0) => {
                return Ok(0);
            },
            _ => {},
        }
        if self.winrem == 0 {
            match r.read_byte() {
                None => {
                    return Err(BwrError::MissingWindowMarker);
                },
                Some(b) => {
                    if b == 0 {
                        self.init_size = Some(0);
                        proof {
                            assert(r@ =~= in0.skip(c1 + 1int));
                        }
                        return Ok(0);
                    } else {
                        let ghost r1 = r@;
                        proof {
                            assert(r1 =~= in0.skip(c1 as int).skip(1));
                        }
                        if P::WRITE_SIZE {
                            let rs = read_size(r);
                            proof {
                                assert(r1 =~= in0.skip(c1 + 1int));
                                lemma_rest_of_skip(in0, c1 + 1int);
                                lemma_rest_of_trans(in0, r1, r@);
                            }
                            let n = rs?;
                            self.winrem = n;
                            proof {
                                assert(r@ =~= in0.skip(c1 + 9int));
                            }
                        } else {
                            let cur = self.init_size.unwrap();
                            self.winrem = next_window_size::<P>(cur);
                            proof {
                                assert(r@ =~= in0.skip(c1 + 1int));
                            }
                        }
                        self.init_size = Some(self.winrem);
                    }
                },
            }
        }
        let ghost rb = r@;
        let l = self.winrem;
        let rr = r.read_up_to(buf, l);
        self.winrem = self.winrem - rr;
        proof {
            let cs = (in0.len() - rb.len()) as nat;
            assert(rb =~= in0.skip(cs as int));
            assert(rb.take(rr as int) =~= in0.subrange(cs as int, cs + rr));
            assert(r@ =~= in0.skip(cs + rr));
        }
        Ok(rr)
    }

    fn b_write(&mut self, w: &mut Vec<u8>, cont: &[u8]) -> (res: Result<usize, BwrError>)
        ensures
            ({
                let hdr = if old(self).init_size is None {
                    window_header::<P>(old(self).winrem)
                } else {
                    Seq::<u8>::empty()
                };
                let full = sw_write_bytes::<P>(old(self).winrem, old(self).current_window(), cont@);
                &&& res == Ok::<usize, BwrError>(cont@.len() as usize)
                &&& final(w)@ =~= old(w)@ + hdr + full.0
                &&& *final(self) == sw_state::<P>(Some(full.2), full.1)
            }),
    {
        if self.init_size.is_none() {
            self.start_write(w)?;
        }
        let ghost w1 = w@;
        let ghost full = sw_write_bytes::<P>(old(self).winrem, old(self).current_window(), cont@);
        let ghost len = cont@.len() as int;
        let mut tot: usize = 0;
        proof {
            assert(cont@.skip(0) =~= cont@);
        }
        while tot < cont.len()
            invariant
                0 <= tot <= len,
                len == cont@.len(),
                self.init_size is Some,
                self._p == old(self)._p,
                sw_write_ok::<P>(self.winrem, self.init_size.unwrap(), tot as int, len),
                full == sw_write_bytes::<P>(old(self).winrem, old(self).current_window(), cont@),
                ({
                    let rest = sw_write_bytes::<P>(self.winrem, self.init_size.unwrap(), cont@.skip(tot as int));
                    &&& w@ + rest.0 =~= w1 + full.0
                    &&& rest.1 == full.1
                    &&& rest.2 == full.2
                }),
            decreases len - tot, (if self.winrem == 0 { 1int } else { 0int }),
        {
            let ghost cur = self.init_size.unwrap();
            let ghost c = cont@.skip(tot as int);
            if self.winrem + tot < cont.len() {
                let end = tot + self.winrem;
                push_range(w, cont, tot, end);
                let ww = self.winrem;
                proof {
                    assert(c.take(ww as int) =~= cont@.subrange(tot as int, end as int));
                    assert(c.skip(ww as int) =~= cont@.skip(end as int));
                }
                tot = tot + ww;
                self.winrem = self.winrem - ww;
                let cur_size = self.init_size.unwrap();
                self.winrem = next_window_size::<P>(cur_size);
                self.init_size = Some(self.winrem);
                w.push(1);
                if P::WRITE_SIZE {
                    write_u64_le(w, self.winrem as u64);
                }
                proof {
                    let ns = self.winrem;
                    assert(window_marker::<P>(ns) =~= seq![1u8] + window_header::<P>(ns));
                    if !P::WRITE_SIZE {
                        assert(window_header::<P>(ns) =~= Seq::<u8>::empty());
                    }
                }
            } else {
                let l = cont.len();
                push_range(w, cont, tot, l);
                let ww = l - tot;
                proof {
                    assert(c =~= cont@.subrange(tot as int, l as int));
                    assert(cont@.skip(l as int) =~= Seq::<u8>::empty());
                }
                tot = tot + ww;
                self.winrem = self.winrem - ww;
            }
        }
        proof {
            assert(cont@.skip(tot as int) =~= Seq::<u8>::empty());
            let hdr = if old(self).init_size is None {
                window_header::<P>(old(self).winrem)
            } else {
                Seq::<u8>::empty()
            };
            assert(w1 =~= old(w)@ + hdr);
        }
        Ok(tot)
    }

    fn end_read(&mut self, r: &mut ByteSource) -> (res: Result<(), BwrError>)
        ensures
            ({
                let s = sw_end_read::<P>(*old(self), old(r)@);
                &&& *final(self) == s.0
                &&& res == s.1
                &&& s.2 <= old(r)@.len()
                &&& final(r)@ =~= old(r)@.skip(s.2 as int)
            }),
    {
        broadcast use {lemma_rest_of_self, lemma_rest_of_skip};
        match self.init_size {
            Some(0) => {
                self.init_size = None;
                self.winrem = P::INIT_SIZE;
                return Ok(());
            },
            _ => {},
        }
        let ghost in0 = r@;
        while self.winrem != 0
            invariant
                r@.len() >= self.winrem,
                r@.len() + (old(self).winrem - self.winrem) == in0.len(),
                self.winrem <= old(self).winrem,
                r@ =~= in0.skip(old(self).winrem - self.winrem),
                in0 == old(r)@,
                self.init_size == old(self).init_size,
                self._p == old(self)._p,
            decreases self.winrem,
        {
            let ghost rin = r@;
            let _ = r.read_byte();
            proof {
                assert(rin.drop_first() =~= in0.skip(old(self).winrem - self.winrem + 1));
            }
            self.winrem = self.winrem - 1;
        }
        let ghost rin = r@;
        match r.read_byte() {
            Some(0) => {
                self.init_size = None;
                self.winrem = P::INIT_SIZE;
                proof {
                    assert(rin.drop_first() =~= in0.skip(old(self).winrem + 1));
                }
                Ok(())
            },
            Some(_) => {
                proof {
                    assert(rin.drop_first() =~= in0.skip(old(self).winrem + 1));
                }
                Err(BwrError::MissingEndMarker)
            },
            None => Err(BwrError::MissingEndMarker),
        }
    }

    fn end_write(&mut self, w: &mut Vec<u8>) -> (res: Result<(), BwrError>)
        ensures
            res is Ok,
            *final(self) == sw_state::<P>(None, P::INIT_SIZE),
            final(w)@ =~= old(w)@ + Seq::new(old(self).winrem as nat, |i: int| 0u8) + seq![0u8],
    {
        while self.winrem != 0
            invariant
                self.winrem <= old(self).winrem,
                w@ =~= old(w)@ + Seq::new((old(self).winrem - self.winrem) as nat, |i: int| 0u8),
                self._p == old(self)._p,
            decreases self.winrem,
        {
            w.push(0);
            self.winrem = self.winrem - 1;
        }
        w.push(0);
        self.init_size = None;
        self.winrem = P::INIT_SIZE;
        Ok(())
    }
}

/// Every window opened while `m` more content bytes are handled, with `winrem`
/// bytes left in a window of size `cur`, has a computable positive size.
pub open spec fn sw_renew_ok<P: SizedWindowsParams>(winrem: usize, cur: usize, m: int) -> bool
    decreases m, (if winrem == 0 { 1int } else { 0int }),
{
    if m <= winrem {
        true
    } else if !next_window_ok::<P>(cur) {
        false
    } else {
        let ns = next_window::<P>(cur);
        if ns <= 0 || ns > usize::MAX {
            false
        } else {
            sw_renew_ok::<P>(ns as usize, ns as usize, m - winrem)
        }
    }
}

proof fn lemma_next_window_bound<P: SizedWindowsParams>(cur: usize)
    requires
        next_window_ok::<P>(cur),
    ensures
        next_window::<P>(cur) <= usize::MAX,
        next_window::<P>(cur) >= 0,
{
    match P::GROWTH_RATIO {
        Some((n, d)) => {
            let a = cur as int * n as int;
            assert(a / (d as int) <= a && a / (d as int) >= 0) by (nonlinear_arith)
                requires
                    d >= 1,
                    a >= 0,
            ;
        },
        None => {},
    }
}

/// A write that neither overflows nor loops has positive windows.
proof fn lemma_write_ok_renew_ok<P: SizedWindowsParams>(winrem: usize, cur: usize, tot: int, len: int)
    requires
        sw_write_ok::<P>(winrem, cur, tot, len),
    ensures
        sw_renew_ok::<P>(winrem, cur, len - tot),
    decreases len - tot, (if winrem == 0 { 1int } else { 0int }),
{
    if tot >= len {
    } else if winrem + tot >= len {
    } else {
        lemma_next_window_bound::<P>(cur);
        let ns = next_window::<P>(cur);
        lemma_write_ok_renew_ok::<P>(ns as usize, ns as usize, tot + winrem, len);
    }
}

/// Having handled `k` bytes of the current window keeps the windows positive.
proof fn lemma_renew_ok_shift<P: SizedWindowsParams>(winrem: usize, cur: usize, m: int, k: int)
    requires
        sw_renew_ok::<P>(winrem, cur, m),
        0 <= k <= winrem,
        k <= m,
    ensures
        sw_renew_ok::<P>((winrem - k) as usize, cur, m - k),
{
}

/// The bytes that write `c` start with the first `k` content bytes, as long as
/// they fit in the current window; the rest writes the rest of the content.
proof fn lemma_write_bytes_split<P: SizedWindowsParams>(winrem: usize, cur: usize, c: Seq<u8>, k: int)
    requires
        0 <= k <= winrem,
        k <= c.len(),
    ensures
        ({
            let e = sw_write_bytes::<P>(winrem, cur, c);
            let e2 = sw_write_bytes::<P>((winrem - k) as usize, cur, c.skip(k));
            &&& e.0 =~= c.take(k) + e2.0
            &&& e.1 == e2.1
            &&& e.2 == e2.2
        }),
{
    let e = sw_write_bytes::<P>(winrem, cur, c);
    let c2 = c.skip(k);
    let w2 = (winrem - k) as usize;
    if c.len() <= winrem {
        assert(c =~= c.take(k) + c2);
    } else {
        let ns = next_window::<P>(cur);
        assert(c2.len() > w2);
        if ns <= 0 || ns > usize::MAX {
            assert(c =~= c.take(k) + c2);
        } else {
            assert(c2.skip(w2 as int) =~= c.skip(winrem as int));
            assert(c.take(winrem as int) =~= c.take(k) + c2.take(w2 as int));
        }
    }
}

/// One read inside a window of `winrem > 0` bytes takes what the window and
/// the room allow.
proof fn lemma_step_in_window<P: SizedWindowsParams>(cur: usize, winrem: usize, input: Seq<u8>, n: nat)
    requires
        cur > 0,
        winrem > 0,
        input.len() >= min_nat(winrem as int, n as int),
    ensures
        ({
            let k = min_nat(winrem as int, n as int);
            sw_read_step::<P>(sw_state::<P>(Some(cur), winrem), input, n) == (
                sw_state::<P>(Some(cur), (winrem - k) as usize),
                Ok::<usize, BwrError>(k as usize),
                k as nat,
                0nat,
            )
        }),
{
    reveal(sw_read_step);
}

/// One read at the end of a full window takes the marker, opens the next
/// window and takes what it and the room allow.
proof fn lemma_step_new_window<P: SizedWindowsParams>(cur: usize, ns: usize, x: Seq<u8>, n: nat)
    requires
        cur > 0,
        ns > 0,
        !P::WRITE_SIZE ==> next_window::<P>(cur) == ns,
        x.len() >= min_nat(ns as int, n as int),
    ensures
        ({
            let k = min_nat(ns as int, n as int);
            let h = window_marker::<P>(ns).len();
            sw_read_step::<P>(sw_state::<P>(Some(cur), 0), window_marker::<P>(ns) + x, n) == (
                sw_state::<P>(Some(ns), (ns - k) as usize),
                Ok::<usize, BwrError>(k as usize),
                (h + k) as nat,
                h as nat,
            )
        }),
{
    reveal(sw_read_step);
    let m = window_marker::<P>(ns);
    let input = m + x;
    assert(input[0] == 1u8);
    if P::WRITE_SIZE {
        let in3 = input.skip(1);
        assert(in3.take(8) =~= le_bytes(ns as u64));
        lemma_le_roundtrip(ns as u64);
        assert(m.len() == 9);
    } else {
        assert(m.len() == 1);
    }
}

/// The first read of a fresh framing takes the first window size, then reads
/// as a started framing would.
proof fn lemma_first_step<P: SizedWindowsParams>(y: Seq<u8>, n: nat)
    requires
        P::INIT_SIZE > 0,
        n > 0,
        y.len() >= min_nat(P::INIT_SIZE as int, n as int),
    ensures
        ({
            let hdr = window_header::<P>(P::INIT_SIZE);
            let k = min_nat(P::INIT_SIZE as int, n as int);
            sw_read_step::<P>(sw_state::<P>(None, P::INIT_SIZE), hdr + y, n) == (
                sw_state::<P>(Some(P::INIT_SIZE), (P::INIT_SIZE - k) as usize),
                Ok::<usize, BwrError>(k as usize),
                (hdr.len() + k) as nat,
                hdr.len(),
            )
        }),
{
    reveal(sw_read_step);
    let hdr = window_header::<P>(P::INIT_SIZE);
    let input = hdr + y;
    if P::WRITE_SIZE {
        assert(input.take(8) =~= le_bytes(P::INIT_SIZE as u64));
        lemma_le_roundtrip(P::INIT_SIZE as u64);
    } else {
        assert(hdr.len() == 0);
    }
}

/// Padding the content with zeros up to the end of its last window writes the
/// same windows, padded, and leaves the last window full.
proof fn lemma_write_bytes_pad<P: SizedWindowsParams>(winrem: usize, cur: usize, c: Seq<u8>)
    ensures
        ({
            let e = sw_write_bytes::<P>(winrem, cur, c);
            let z = Seq::new(e.1 as nat, |i: int| 0u8);
            sw_write_bytes::<P>(winrem, cur, c + z) == (e.0 + z, 0usize, e.2)
        }),
    decreases c.len(), (if winrem == 0 { 1int } else { 0int }),
{
    let e = sw_write_bytes::<P>(winrem, cur, c);
    let z = Seq::new(e.1 as nat, |i: int| 0u8);
    if c.len() <= winrem {
    } else {
        let ns = next_window::<P>(cur);
        if ns <= 0 || ns > usize::MAX {
            assert(c + z =~= c);
        } else {
            let c2 = c.skip(winrem as int);
            lemma_write_bytes_pad::<P>(ns as usize, ns as usize, c2);
            assert((c + z).skip(winrem as int) =~= c2 + z);
            assert((c + z).take(winrem as int) =~= c.take(winrem as int));
        }
    }
}

/// Windows that can be opened for content can be opened for the content
/// padded up to the end of its last window.
proof fn lemma_renew_ok_pad<P: SizedWindowsParams>(winrem: usize, cur: usize, c: Seq<u8>)
    requires
        sw_renew_ok::<P>(winrem, cur, c.len() as int),
    ensures
        sw_renew_ok::<P>(winrem, cur, c.len() + sw_write_bytes::<P>(winrem, cur, c).1),
    decreases c.len(), (if winrem == 0 { 1int } else { 0int }),
{
    if c.len() <= winrem {
    } else {
        let ns = next_window::<P>(cur);
        let c2 = c.skip(winrem as int);
        lemma_renew_ok_pad::<P>(ns as usize, ns as usize, c2);
    }
}

/// One read at the end of a full window that finds the terminal 0 ends the
/// content.
proof fn lemma_step_end_marker<P: SizedWindowsParams>(cur: usize, rest: Seq<u8>, room: nat)
    requires
        cur > 0,
    ensures
        sw_read_step::<P>(sw_state::<P>(Some(cur), 0), seq![0u8] + rest, room) == (
            sw_state::<P>(Some(0usize), 0usize),
            Ok::<usize, BwrError>(0),
            1nat,
            1nat,
        ),
{
    reveal(sw_read_step);
    assert((seq![0u8] + rest).skip(0) =~= seq![0u8] + rest);
}

/// Reading, with the writer's window state, windows that write `c` and fill
/// their last window, followed by the terminal 0, with reads of at most
/// `room > 0` bytes each until one gives none: the reads give `c`, consume the
/// windows and the terminal 0, and leave the framing ended.
#[verifier::rlimit(50)]
proof fn lemma_sw_reads<P: SizedWindowsParams>(cur: usize, winrem: usize, c: Seq<u8>, rest: Seq<u8>, room: nat, fuel: nat)
    requires
        cur > 0,
        room > 0,
        fuel > c.len(),
        sw_renew_ok::<P>(winrem, cur, c.len() as int),
        sw_write_bytes::<P>(winrem, cur, c).1 == 0,
    ensures
        ({
            let e = sw_write_bytes::<P>(winrem, cur, c);
            reads_until_end(sw_state::<P>(Some(cur), winrem), e.0 + seq![0u8] + rest, room, fuel) == Some(
                (c, (e.0.len() + 1) as nat, sw_state::<P>(Some(0usize), 0usize)),
            )
        }),
    decreases c.len(), (if winrem == 0 { 1int } else { 0int }),
{
    let e = sw_write_bytes::<P>(winrem, cur, c);
    let st = sw_state::<P>(Some(cur), winrem);
    let input = e.0 + seq![0u8] + rest;
    let tail = seq![0u8] + rest;
    assert(input =~= e.0 + tail);
    if c.len() == 0 {
        assert(winrem == 0);
        assert(e.0 =~= Seq::<u8>::empty());
        assert(input =~= seq![0u8] + rest);
        lemma_step_end_marker::<P>(cur, rest, room);
        assert(input.subrange(1, 1) =~= Seq::<u8>::empty());
        assert(c =~= Seq::<u8>::empty());
    } else {
        assert(c.len() >= winrem);
        let (wsize, wleft, h): (usize, usize, int) = if winrem > 0 {
            (cur, winrem, 0)
        } else {
            lemma_next_window_bound::<P>(cur);
            let nsu = next_window::<P>(cur) as usize;
            (nsu, nsu, window_marker::<P>(nsu).len() as int)
        };
        let r = sw_write_bytes::<P>(wleft, wsize, c);
        if winrem == 0 {
            assert(c.skip(0) =~= c);
            assert(e.0 =~= window_marker::<P>(wleft) + r.0);
        }
        assert(c.len() >= wleft);
        let k: int = min_nat(wleft as int, room as int);
        lemma_write_bytes_split::<P>(wleft, wsize, c, k);
        let c2 = c.skip(k);
        let e2 = sw_write_bytes::<P>((wleft - k) as usize, wsize, c2);
        if winrem > 0 {
            assert(input =~= c.take(k) + (e2.0 + tail));
            lemma_step_in_window::<P>(cur, winrem, input, room);
        } else {
            assert(input =~= window_marker::<P>(wleft) + (c.take(k) + (e2.0 + tail)));
            lemma_step_new_window::<P>(cur, wleft, c.take(k) + (e2.0 + tail), room);
            assert(input[0] == 1u8);
        }
        let step = sw_read_step::<P>(st, input, room);
        assert(step.0 == sw_state::<P>(Some(wsize), (wleft - k) as usize));
        assert(step.1 == Ok::<usize, BwrError>(k as usize));
        assert(step.2 == h + k && step.3 == h);
        assert(input.skip(h + k) =~= e2.0 + seq![0u8] + rest);
        assert(input.subrange(h, h + k) =~= c.take(k));
        lemma_renew_ok_shift::<P>(wleft, wsize, c.len() as int, k);
        lemma_sw_reads::<P>(wsize, (wleft - k) as usize, c2, rest, room, (fuel - 1) as nat);
        assert(c.take(k) + c2 =~= c);
    }
}

/// Content written by a fresh sized windows framing (`b_write` then
/// `end_write`) is read back by a fresh framing with reads of any `room > 0`
/// bytes each, until a read gives none: the reads give the content followed by
/// the zeros that pad its last window, and leave the stream right after the
/// frame (what follows is left unread); `end_read` then succeeds, consumes
/// nothing more, and leaves a fresh framing.
pub proof fn lemma_sized_windows_roundtrip_reads<P: SizedWindowsParams>(c: Seq<u8>, rest: Seq<u8>, room: nat, fuel: nat)
    requires
        P::INIT_SIZE > 0,
        room > 0,
        sw_write_ok::<P>(P::INIT_SIZE, P::INIT_SIZE, 0, c.len() as int),
        fuel > c.len() + sw_write_bytes::<P>(P::INIT_SIZE, P::INIT_SIZE, c).1,
    ensures
        ({
            let fresh = sw_state::<P>(None, P::INIT_SIZE);
            let frame = fresh.start_bytes() + fresh.after_start().content_bytes(c) + fresh.after_start().after_content(
                c,
            ).end_bytes();
            let pad = Seq::new(sw_write_bytes::<P>(P::INIT_SIZE, P::INIT_SIZE, c).1 as nat, |i: int| 0u8);
            match reads_until_end(fresh, frame + rest, room, fuel) {
                Some(r) => {
                    &&& r.0 == c + pad
                    &&& r.1 == frame.len()
                    &&& sw_end_read::<P>(r.2, rest) == (fresh, Ok::<(), BwrError>(()), 0nat)
                },
                None => false,
            }
        }),
{
    let init = P::INIT_SIZE;
    let fresh = sw_state::<P>(None, init);
    let e = sw_write_bytes::<P>(init, init, c);
    let z = Seq::new(e.1 as nat, |i: int| 0u8);
    let cp = c + z;
    lemma_write_bytes_pad::<P>(init, init, c);
    lemma_write_ok_renew_ok::<P>(init, init, 0, c.len() as int);
    lemma_renew_ok_pad::<P>(init, init, c);
    let ep = sw_write_bytes::<P>(init, init, cp);
    assert(ep.0 == e.0 + z && ep.1 == 0);
    let hdr = window_header::<P>(init);
    let frame = fresh.start_bytes() + fresh.after_start().content_bytes(c) + fresh.after_start().after_content(
        c,
    ).end_bytes();
    assert(frame =~= hdr + ep.0 + seq![0u8]);
    let y = ep.0 + seq![0u8] + rest;
    let input = frame + rest;
    assert(input =~= hdr + y);
    assert(cp.len() >= init);
    let k: int = min_nat(init as int, room as int);
    lemma_write_bytes_split::<P>(init, init, cp, k);
    let c2 = cp.skip(k);
    let e2 = sw_write_bytes::<P>((init - k) as usize, init, c2);
    assert(y =~= cp.take(k) + (e2.0 + seq![0u8] + rest));
    lemma_first_step::<P>(y, room);
    let step = sw_read_step::<P>(fresh, input, room);
    assert(step.0 == sw_state::<P>(Some(init), (init - k) as usize));
    assert(input.skip(hdr.len() + k) =~= e2.0 + seq![0u8] + rest);
    assert(input.subrange(hdr.len() as int, hdr.len() + k) =~= cp.take(k));
    lemma_renew_ok_shift::<P>(init, init, cp.len() as int, k);
    lemma_sw_reads::<P>(init, (init - k) as usize, c2, rest, room, (fuel - 1) as nat);
    assert(cp.take(k) + c2 =~= cp);
    assert(rest.skip(0) =~= rest);
}


/// Concatenating a chunk in front of chunks.
proof fn lemma_concat_chunks_front(c: Seq<u8>, cs: Seq<Seq<u8>>)
    ensures
        concat_chunks(seq![c] + cs) == c + concat_chunks(cs),
    decreases cs.len(),
{
    let l = seq![c] + cs;
    assert(concat_chunks(l) == concat_chunks(l.drop_last()) + l.last());
    if cs.len() == 0 {
        assert(l.drop_last() =~= Seq::<Seq<u8>>::empty());
        assert(l.last() == c);
        assert(concat_chunks(Seq::<Seq<u8>>::empty()) == Seq::<u8>::empty());
        assert(concat_chunks(cs) == Seq::<u8>::empty());
        assert(Seq::<u8>::empty() + c =~= c + Seq::<u8>::empty());
    } else {
        lemma_concat_chunks_front(c, cs.drop_last());
        assert(l.drop_last() =~= seq![c] + cs.drop_last());
        assert(l.last() == cs.last());
        assert(concat_chunks(cs) == concat_chunks(cs.drop_last()) + cs.last());
        assert(c + concat_chunks(cs.drop_last()) + cs.last() =~= c + (concat_chunks(cs.drop_last()) + cs.last()));
    }
}

/// Reading escaped content and its end marker, outside of any escape and
/// before the end, in reads of at most `room > 0` bytes until one gives none,
/// gives chunks of the content, consumes exactly the frame, and finds the
/// end.
proof fn lemma_escape_read_chunks(esc: u8, started: bool, c: Seq<u8>, rest: Seq<u8>, room: nat)
    requires
        room > 0,
    ensures
        ({
            let input = escape_bytes(esc, c) + escape_end_marker(esc) + rest;
            match read_chunks(EscapeTerm { esc: esc, started: started, escaped: false, ended: false }, input, room) {
                Some(t) => {
                    &&& concat_chunks(t.0) == c
                    &&& t.1 == escape_bytes(esc, c).len() + 2
                    &&& t.2 == escape_ended(esc)
                },
                None => false,
            }
        }),
    decreases c.len(),
{
    let st = EscapeTerm { esc: esc, started: started, escaped: false, ended: false };
    let input = escape_bytes(esc, c) + escape_end_marker(esc) + rest;
    let s = st.read_step(input, room);
    lemma_escape_decode_out_le(esc, false, input, room);
    if room > c.len() {
        lemma_escape_roundtrip(esc, c, rest, room);
        let d = escape_decode(esc, false, input, room);
        assert(d.escaped) by {
            lemma_escape_decode_ends_escaped(esc, false, input, room);
        }
        assert(s.0 == escape_ended(esc));
        assert(s.1 == Ok::<Seq<u8>, BwrError>(c));
        if c.len() > 0 {
            let input2 = input.skip(s.2 as int);
            let s2 = escape_ended(esc).read_step(input2, room);
            assert(s2.1 == Ok::<Seq<u8>, BwrError>(Seq::empty()) && s2.2 == 0 && s2.0 == escape_ended(esc));
            assert(read_chunks(escape_ended(esc), input2, room) == Some(
                (Seq::<Seq<u8>>::empty(), 0nat, escape_ended(esc)),
            ));
            lemma_concat_chunks_front(c, Seq::<Seq<u8>>::empty());
            assert(concat_chunks(Seq::<Seq<u8>>::empty()) == Seq::<u8>::empty());
            assert(c + Seq::<u8>::empty() =~= c);
            assert(st.read_ok(input));
            assert(read_chunks(st, input, room) == Some(
                (seq![c] + Seq::<Seq<u8>>::empty(), s.2, escape_ended(esc)),
            ));
        } else {
            assert(c =~= Seq::<u8>::empty());
            assert(read_chunks(st, input, room) == Some((Seq::<Seq<u8>>::empty(), s.2, escape_ended(esc))));
        }
    } else {
        let k = room as int;
        lemma_escape_decode_prefix(esc, c, escape_end_marker(esc) + rest, room);
        assert(input =~= escape_bytes(esc, c) + (escape_end_marker(esc) + rest));
        let c1 = c.take(k);
        let c2 = c.skip(k);
        assert(c =~= c1 + c2);
        lemma_escape_bytes_append(esc, c1, c2);
        let st2 = EscapeTerm { esc: esc, started: true, escaped: false, ended: false };
        assert(s.0 == st2);
        assert(input.skip(s.2 as int) =~= escape_bytes(esc, c2) + escape_end_marker(esc) + rest);
        lemma_escape_read_chunks(esc, true, c2, rest, room);
        let t = read_chunks(st2, input.skip(s.2 as int), room)->Some_0;
        lemma_concat_chunks_front(c1, t.0);
        assert(c1.len() == room);
        assert(s.1 == Ok::<Seq<u8>, BwrError>(c1));
        assert(read_chunks(st, input, room) == Some((seq![c1] + t.0, s.2 + t.1, t.2)));
    }
}

/// Writing chunks with a started escape framing writes their content escaped.
proof fn lemma_escape_write_chunks(st: EscapeTerm, cs: Seq<Seq<u8>>)
    requires
        st.started,
    ensures
        write_chunks(st, cs) == Some((escape_bytes(st.esc, concat_chunks(cs)), st)),
    decreases cs.len(),
{
    if cs.len() == 0 {
        assert(escape_bytes(st.esc, Seq::<u8>::empty()) =~= Seq::<u8>::empty());
    } else {
        lemma_escape_write_chunks(st, cs.drop_last());
        lemma_escape_bytes_append(st.esc, concat_chunks(cs.drop_last()), cs.last());
    }
}

/// A proxy between two escape framings forwards the content: reading a frame
/// of content `c` escaped with `e1` (followed by other bytes), in reads of any
/// `room > 0` bytes, consumes exactly the frame, and writing the chunks read
/// with a fresh framing escaped with `e2` writes the frame of `c` escaped with
/// `e2`.
pub proof fn lemma_escape_proxy_forwards(e1: u8, e2: u8, c: Seq<u8>, rest: Seq<u8>, room: nat)
    requires
        room > 0,
    ensures
        ({
            let rd = EscapeTerm { esc: e1, started: false, escaped: false, ended: false };
            let wr = EscapeTerm { esc: e2, started: false, escaped: false, ended: false };
            let frame1 = escape_bytes(e1, c) + escape_end_marker(e1);
            match read_frame(rd, frame1 + rest, room) {
                Some(t) => {
                    &&& t.1 == frame1.len()
                    &&& write_frame(wr, t.0) == Some(escape_bytes(e2, c) + escape_end_marker(e2))
                },
                None => false,
            }
        }),
{
    let rd = EscapeTerm { esc: e1, started: false, escaped: false, ended: false };
    let wr = EscapeTerm { esc: e2, started: false, escaped: false, ended: false };
    let frame1 = escape_bytes(e1, c) + escape_end_marker(e1);
    lemma_escape_read_chunks(e1, false, c, rest, room);
    assert(frame1 + rest =~= escape_bytes(e1, c) + escape_end_marker(e1) + rest);
    let t = read_chunks(rd, frame1 + rest, room)->Some_0;
    lemma_escape_write_chunks(wr.after_start(), t.0);
    assert(Seq::<u8>::empty() + escape_bytes(e2, c) =~= escape_bytes(e2, c));
}

} // verus!
