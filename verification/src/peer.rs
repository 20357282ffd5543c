//! Peers: their shadowing capability (transformation of what is written to or
//! read from them) and the state of a peer as seen by the local node.
use vstd::prelude::*;
use crate::bytes_wr::{ByteSource, rest_of};

verus! {

/// Errors of shadowing.
pub enum ShadowError {
    /// the shadower could not process the bytes
    Failed,
}

/// Shadowing capability: what is written to a peer is shadowed (for instance
/// encrypted) and what is read is unshadowed.
pub trait Shadow: Sized {
    /// The kind of shadowing to apply (most of the time `()` or `bool`; some
    /// use cases need several schemes).
    type ShadowMode;

    /// What writing the header in `mode` does: the shadower afterwards and
    /// the bytes written, or the error.
    spec fn header_step(&self, mode: Self::ShadowMode) -> Result<(Self, Seq<u8>), ShadowError>;

    /// What shadowing the block `m` in `mode` does: the shadower afterwards,
    /// the bytes written and how many bytes of `m` it took, or the error.
    spec fn iter_step(&self, m: Seq<u8>, mode: Self::ShadowMode) -> Result<(Self, Seq<u8>, usize), ShadowError>;

    /// What ending a message in `mode` does: the shadower afterwards and the
    /// bytes written, or the error.
    spec fn flush_step(&self, mode: Self::ShadowMode) -> Result<(Self, Seq<u8>), ShadowError>;

    /// What reading a header from `input` does: the shadower afterwards, the
    /// mode read and what is left of `input`, or the error.
    spec fn read_header_step(&self, input: Seq<u8>) -> Result<(Self, Self::ShadowMode, Seq<u8>), ShadowError>;

    /// What reading at most `room` unshadowed bytes from `input` in `mode`
    /// does: the shadower afterwards, the bytes given and what is left of
    /// `input`, or the error.
    spec fn read_iter_step(&self, input: Seq<u8>, room: usize, mode: Self::ShadowMode) -> Result<
        (Self, Seq<u8>, Seq<u8>),
        ShadowError,
    >;

    /// Writes the header a scheme needs (for instance the mode and a salt) and
    /// sets the internal state used by `shadow_iter`.
    fn shadow_header(&mut self, w: &mut Vec<u8>, mode: &Self::ShadowMode) -> (r: Result<(), ShadowError>)
        ensures
            match old(self).header_step(*mode) {
                Ok((s, out)) => r is Ok && *final(self) == s && final(w)@ == old(w)@ + out,
                Err(e) => r == Err::<(), ShadowError>(e),
            },
    ;

    /// Shadows a block of a message and writes it.
    fn shadow_iter(&mut self, m: &[u8], w: &mut Vec<u8>, mode: &Self::ShadowMode) -> (r: Result<usize, ShadowError>)
        ensures
            match old(self).iter_step(m@, *mode) {
                Ok((s, out, n)) => r == Ok::<usize, ShadowError>(n) && *final(self) == s && final(w)@ == old(w)@ + out,
                Err(e) => r == Err::<usize, ShadowError>(e),
            },
    ;

    /// Ends a message (empties a possible block cipher buffer); does not flush
    /// the writer.
    fn shadow_flush(&mut self, w: &mut Vec<u8>, mode: &Self::ShadowMode) -> (r: Result<(), ShadowError>)
        ensures
            match old(self).flush_step(*mode) {
                Ok((s, out)) => r is Ok && *final(self) == s && final(w)@ == old(w)@ + out,
                Err(e) => r == Err::<(), ShadowError>(e),
            },
    ;

    /// Reads the header, giving the mode and setting the internal state.
    fn read_shadow_header(&mut self, r: &mut ByteSource) -> (res: Result<Self::ShadowMode, ShadowError>)
        ensures
            match old(self).read_header_step(old(r)@) {
                Ok((s, m, rest)) => {
                    &&& res == Ok::<Self::ShadowMode, ShadowError>(m)
                    &&& *final(self) == s
                    &&& rest_of(rest, old(r)@)
                    &&& final(r)@ == rest
                },
                Err(e) => res == Err::<Self::ShadowMode, ShadowError>(e),
            },
    ;

    /// Reads and unshadows, returns the number of bytes read into `buf`.
    fn read_shadow_iter(&mut self, r: &mut ByteSource, buf: &mut [u8], mode: &Self::ShadowMode) -> (res: Result<
        usize,
        ShadowError,
    >)
        ensures
            match old(self).read_iter_step(old(r)@, old(buf)@.len() as usize, *mode) {
                Ok((s, out, rest)) => {
                    &&& res == Ok::<usize, ShadowError>(out.len() as usize)
                    &&& out.len() <= old(buf)@.len()
                    &&& final(buf)@ == out + old(buf)@.skip(out.len() as int)
                    &&& *final(self) == s
                    &&& rest_of(rest, old(r)@)
                    &&& final(r)@ == rest
                },
                Err(e) => res == Err::<usize, ShadowError>(e),
            },
    ;

    /// Mode of all messages but authentication ones.
    fn default_message_mode() -> Self::ShadowMode;

    /// Mode of authentication messages.
    fn default_auth_mode() -> Self::ShadowMode;

    /// Mode of tunnel headers and short messages.
    fn default_head_mode() -> Self::ShadowMode;

    /// Shadows a block with a symmetric key (mainly for tunnel replies).
    fn shadow_iter_sim(&mut self, k: &[u8], m: &[u8], w: &mut Vec<u8>, mode: &Self::ShadowMode) -> Result<usize, ShadowError>;

    /// Reads and unshadows with a symmetric key.
    fn read_shadow_iter_sim(&mut self, k: &[u8], r: &mut ByteSource, buf: &mut [u8], mode: &Self::ShadowMode) -> Result<usize, ShadowError>;

    /// Ends a symmetric shadowing.
    fn shadow_sim_flush(&mut self, w: &mut Vec<u8>, mode: &Self::ShadowMode) -> Result<(), ShadowError>;

    /// A new symmetric key.
    fn shadow_simkey(&mut self, mode: &Self::ShadowMode) -> Vec<u8>;
}

/// A peer: an address to reach it, and the shadowing of what is exchanged
/// with it.
pub trait Peer {
    type Address;
    type Shadow: Shadow;

    /// The address of the peer.
    fn to_address(&self) -> Self::Address;

    /// A shadower for what is written to the peer (`write`) or read from it.
    fn get_shadower(&self, write: bool) -> Self::Shadow;
}

/// A shadower used for writing.
pub struct ShadowW<S: Shadow>(pub S);

/// A shadower used for reading.
pub struct ShadowR<S: Shadow>(pub S);

/// No shadowing: bytes are written and read as they are.
pub struct NoShadow;

/// Appends `m` to `w`.
fn write_all(w: &mut Vec<u8>, m: &[u8])
    ensures
        final(w)@ == old(w)@ + m@,
{
    let mut i: usize = 0;
    while i < m.len()
        invariant
            0 <= i <= m@.len(),
            w@ =~= old(w)@ + m@.take(i as int),
        decreases m@.len() - i,
    {
        w.push(m[i]);
        i = i + 1;
    }
    proof {
        assert(m@.take(i as int) =~= m@);
    }
}

impl Shadow for NoShadow {
    type ShadowMode = ();

    open spec fn header_step(&self, mode: ()) -> Result<(Self, Seq<u8>), ShadowError> {
        Ok((NoShadow, Seq::empty()))
    }

    open spec fn iter_step(&self, m: Seq<u8>, mode: ()) -> Result<(Self, Seq<u8>, usize), ShadowError> {
        Ok((NoShadow, m, m.len() as usize))
    }

    open spec fn flush_step(&self, mode: ()) -> Result<(Self, Seq<u8>), ShadowError> {
        Ok((NoShadow, Seq::empty()))
    }

    open spec fn read_header_step(&self, input: Seq<u8>) -> Result<(Self, (), Seq<u8>), ShadowError> {
        Ok((NoShadow, (), input))
    }

    /// What is there, as much as there is room for.
    open spec fn read_iter_step(&self, input: Seq<u8>, room: usize, mode: ()) -> Result<(Self, Seq<u8>, Seq<u8>), ShadowError> {
        let n = if room <= input.len() {
            room as int
        } else {
            input.len() as int
        };
        Ok((NoShadow, input.take(n), input.skip(n)))
    }

    fn shadow_header(&mut self, w: &mut Vec<u8>, mode: &()) -> (r: Result<(), ShadowError>)
        ensures
            r is Ok,
            final(w)@ == old(w)@,
    {
        Ok(())
    }

    fn shadow_iter(&mut self, m: &[u8], w: &mut Vec<u8>, mode: &()) -> (r: Result<usize, ShadowError>)
        ensures
            r == Ok::<usize, ShadowError>(m@.len() as usize),
            final(w)@ == old(w)@ + m@,
    {
        write_all(w, m);
        Ok(m.len())
    }

    fn shadow_flush(&mut self, w: &mut Vec<u8>, mode: &()) -> (r: Result<(), ShadowError>)
        ensures
            r is Ok,
            final(w)@ == old(w)@,
    {
        Ok(())
    }

    fn read_shadow_header(&mut self, r: &mut ByteSource) -> (res: Result<(), ShadowError>)
        ensures
            res is Ok,
            final(r)@ == old(r)@,
    {
        proof {
            crate::bytes_wr::lemma_rest_of_self(r@);
        }
        Ok(())
    }

    fn read_shadow_iter(&mut self, r: &mut ByteSource, buf: &mut [u8], mode: &()) -> (res: Result<usize, ShadowError>)
        ensures
            ({
                let n = if old(buf)@.len() <= old(r)@.len() {
                    old(buf)@.len()
                } else {
                    old(r)@.len()
                };
                &&& res == Ok::<usize, ShadowError>(n as usize)
                &&& final(buf)@ == old(r)@.take(n as int) + old(buf)@.skip(n as int)
                &&& final(r)@ == old(r)@.skip(n as int)
            }),
    {
        let ghost r0 = r@;
        let _room = buf.len();
        let n = r.read(buf);
        proof {
            crate::bytes_wr::lemma_rest_of_skip(r0, n as int);
        }
        Ok(n)
    }

    fn default_message_mode() -> (r: ())
    {
        ()
    }

    fn default_auth_mode() -> (r: ())
    {
        ()
    }

    fn default_head_mode() -> (r: ())
    {
        ()
    }

    fn shadow_iter_sim(&mut self, k: &[u8], m: &[u8], w: &mut Vec<u8>, mode: &()) -> (r: Result<usize, ShadowError>)
        ensures
            r == Ok::<usize, ShadowError>(m@.len() as usize),
            final(w)@ == old(w)@ + m@,
    {
        write_all(w, m);
        Ok(m.len())
    }

    fn read_shadow_iter_sim(&mut self, k: &[u8], r: &mut ByteSource, buf: &mut [u8], mode: &()) -> (res: Result<usize, ShadowError>)
        ensures
            ({
                let n = if old(buf)@.len() <= old(r)@.len() {
                    old(buf)@.len()
                } else {
                    old(r)@.len()
                };
                &&& res == Ok::<usize, ShadowError>(n as usize)
                &&& final(buf)@ == old(r)@.take(n as int) + old(buf)@.skip(n as int)
                &&& final(r)@ == old(r)@.skip(n as int)
            }),
    {
        let n = r.read(buf);
        Ok(n)
    }

    fn shadow_sim_flush(&mut self, w: &mut Vec<u8>, mode: &()) -> (r: Result<(), ShadowError>)
        ensures
            r is Ok,
            final(w)@ == old(w)@,
    {
        Ok(())
    }

    fn shadow_simkey(&mut self, mode: &()) -> (r: Vec<u8>)
        ensures
            r@ == Seq::<u8>::empty(),
    {
        Vec::new()
    }
}

/// What reading at most `room` bytes with shadower `s` does, reading the
/// header first when no mode `mode` is known yet: the shadower afterwards,
/// the mode, the bytes given and what is left of `input`, or the error.
pub open spec fn read_once_step<S: Shadow>(s: S, mode: Option<S::ShadowMode>, input: Seq<u8>, room: usize) -> Result<
    (S, S::ShadowMode, Seq<u8>, Seq<u8>),
    ShadowError,
> {
    match mode {
        Some(m) => match s.read_iter_step(input, room, m) {
            Ok((s2, out, rest)) => Ok((s2, m, out, rest)),
            Err(e) => Err(e),
        },
        None => match s.read_header_step(input) {
            Ok((s1, m, rest1)) => match s1.read_iter_step(rest1, room, m) {
                Ok((s2, out, rest)) => Ok((s2, m, out, rest)),
                Err(e) => Err(e),
            },
            Err(e) => Err(e),
        },
    }
}

/// What writing `m` with shadower `s` does, writing the header first when it
/// is not `written` yet: the shadower afterwards, the bytes written and how
/// many bytes of `m` were taken, or the error.
pub open spec fn write_once_step<S: Shadow>(s: S, written: bool, m: Seq<u8>, mode: S::ShadowMode) -> Result<
    (S, Seq<u8>, usize),
    ShadowError,
> {
    if written {
        s.iter_step(m, mode)
    } else {
        match s.header_step(mode) {
            Ok((s1, h)) => match s1.iter_step(m, mode) {
                Ok((s2, out, n)) => Ok((s2, h + out, n)),
                Err(e) => Err(e),
            },
            Err(e) => Err(e),
        }
    }
}

/// Writes of the chunks `cs`, one after the other, by a writer that shadows
/// with `s` in `mode`, its header written already or not (`written`): the
/// shadow afterwards and the bytes written, or the first error. The header is
/// written by the first write when it is not yet.
pub open spec fn write_once_all<S: Shadow>(s: S, written: bool, cs: Seq<Seq<u8>>, mode: S::ShadowMode) -> Result<
    (S, Seq<u8>),
    ShadowError,
>
    decreases cs.len(),
{
    if cs.len() == 0 {
        Ok((s, Seq::empty()))
    } else {
        match write_once_all(s, written, cs.drop_last(), mode) {
            Err(e) => Err(e),
            Ok((s1, b)) => match write_once_step(s1, written || cs.len() > 1, cs.last(), mode) {
                Ok((s2, out, _n)) => Ok((s2, b + out)),
                Err(e) => Err(e),
            },
        }
    }
}

/// The shadow header of `s` in `mode` once, then each chunk of `cs` shadowed.
pub open spec fn header_then_chunks<S: Shadow>(s: S, cs: Seq<Seq<u8>>, mode: S::ShadowMode) -> Result<
    (S, Seq<u8>),
    ShadowError,
> {
    match s.header_step(mode) {
        Err(e) => Err(e),
        Ok((s1, h)) => match write_once_all(s1, true, cs, mode) {
            Ok((s2, b)) => Ok((s2, h + b)),
            Err(e) => Err(e),
        },
    }
}

/// `y` is the writer `x` after a successful write of `c`: the shadow and the
/// sink as the write step makes them, the header written, the mode kept.
pub open spec fn write_done<S: Shadow>(x: ShadowWriteOnce<S>, c: Seq<u8>, y: ShadowWriteOnce<S>) -> bool {
    match write_once_step(x.shadow, x.header_written, c, x.mode) {
        Ok((s, out, _n)) => {
            &&& y.shadow == s
            &&& y.sink@ =~= x.sink@ + out
            &&& y.header_written
            &&& y.mode == x.mode
        },
        Err(_) => false,
    }
}

/// `y` is the writer `x` after a successful flush: the shadow and the sink as
/// the shadow's flush step makes them, the header flag and the mode kept.
pub open spec fn flush_done<S: Shadow>(x: ShadowWriteOnce<S>, y: ShadowWriteOnce<S>) -> bool {
    match x.shadow.flush_step(x.mode) {
        Ok((s, out)) => {
            &&& y.shadow == s
            &&& y.sink@ =~= x.sink@ + out
            &&& y.header_written == x.header_written
            &&& y.mode == x.mode
        },
        Err(_) => false,
    }
}

/// `y` is the writer `x` after a successful call: a write of `c` for
/// `Some(c)`, a flush for `None`.
pub open spec fn call_done<S: Shadow>(x: ShadowWriteOnce<S>, op: Option<Seq<u8>>, y: ShadowWriteOnce<S>) -> bool {
    match op {
        Some(c) => write_done(x, c, y),
        None => flush_done(x, y),
    }
}

/// Some call of `ops` is a write.
pub open spec fn has_write(ops: Seq<Option<Seq<u8>>>) -> bool {
    exists|i: int| 0 <= i < ops.len() && #[trigger] ops[i] is Some
}

/// Calls `ops` one after the other (a write of `c` for `Some(c)`, a flush for
/// `None`) by a writer that shadows with `s` in `mode`, its header written
/// already or not (`written`): the shadow afterwards and the bytes written,
/// or the first error. A write shadows the header first exactly when neither
/// `written` nor a write before it; a flush only runs the shadow's flush.
pub open spec fn calls_all<S: Shadow>(s: S, written: bool, ops: Seq<Option<Seq<u8>>>, mode: S::ShadowMode) -> Result<
    (S, Seq<u8>),
    ShadowError,
>
    decreases ops.len(),
{
    if ops.len() == 0 {
        Ok((s, Seq::empty()))
    } else {
        match calls_all(s, written, ops.drop_last(), mode) {
            Err(e) => Err(e),
            Ok((s1, b)) => match ops.last() {
                Some(c) => match write_once_step(s1, written || has_write(ops.drop_last()), c, mode) {
                    Ok((s2, out, _n)) => Ok((s2, b + out)),
                    Err(e) => Err(e),
                },
                None => match s1.flush_step(mode) {
                    Ok((s2, out)) => Ok((s2, b + out)),
                    Err(e) => Err(e),
                },
            },
        }
    }
}

/// Successive successful calls `ops` of `write` and `flush` by the writers
/// `xs` (each the one before after its call) do what `calls_all` says from the
/// first writer: the sink is the first sink followed by the bytes of the
/// calls, where the header is shadowed once, by the first write, unless it
/// was written already; the header is written after them exactly when it was
/// before or one of them is a write.
pub proof fn lemma_write_flush_calls<S: Shadow>(xs: Seq<ShadowWriteOnce<S>>, ops: Seq<Option<Seq<u8>>>, k: nat)
    requires
        xs.len() == ops.len() + 1,
        k <= ops.len(),
        forall|i: int| 0 <= i < ops.len() ==> #[trigger] call_done(xs[i], ops[i], xs[i + 1]),
    ensures
        calls_all(xs[0].shadow, xs[0].header_written, ops.take(k as int), xs[0].mode) matches Ok((s, b)) && s
            == xs[k as int].shadow && b =~= xs[k as int].sink@.skip(xs[0].sink@.len() as int),
        xs[0].sink@.is_prefix_of(xs[k as int].sink@),
        xs[k as int].header_written == (xs[0].header_written || has_write(ops.take(k as int))),
        xs[k as int].mode == xs[0].mode,
    decreases k,
{
    if k == 0 {
        assert(ops.take(0) =~= Seq::<Option<Seq<u8>>>::empty());
        assert(xs[0].sink@.skip(xs[0].sink@.len() as int) =~= Seq::<u8>::empty());
        assert(xs[0].sink@.subrange(0, xs[0].sink@.len() as int) =~= xs[0].sink@);
        assert(!has_write(ops.take(0)));
    } else {
        lemma_write_flush_calls(xs, ops, (k - 1) as nat);
        let i = k - 1;
        assert(call_done(xs[i], ops[i], xs[i + 1]));
        assert(i + 1 == k);
        let ok = ops.take(k as int);
        assert(ok.drop_last() =~= ops.take(i));
        assert(ok.last() == ops[i]);
        let p = xs[0].sink@.len() as int;
        assert(xs[k as int].sink@.skip(p) =~= xs[i].sink@.skip(p) + xs[k as int].sink@.skip(
            xs[i].sink@.len() as int,
        ));
        assert(xs[k as int].sink@.subrange(0, p) =~= xs[i].sink@.subrange(0, p));
        if has_write(ops.take(i)) {
            let w = choose|w: int| 0 <= w < ops.take(i).len() && #[trigger] ops.take(i)[w] is Some;
            assert(ok[w] is Some);
        }
        if ops[i] is Some {
            assert(ok[i] is Some);
        }
        if has_write(ok) {
            let w = choose|w: int| 0 <= w < ok.len() && #[trigger] ok[w] is Some;
            if w < i {
                assert(ops.take(i)[w] is Some);
            }
        }
    }
}

/// Successive successful writes of the chunks `cs` by the writers `xs` (each
/// the one before after its write) do what the writes of `write_once_all` do
/// from the first writer.
proof fn lemma_writes_all<S: Shadow>(xs: Seq<ShadowWriteOnce<S>>, cs: Seq<Seq<u8>>, k: nat)
    requires
        xs.len() == cs.len() + 1,
        1 <= k <= cs.len(),
        forall|i: int| 0 <= i < cs.len() ==> #[trigger] write_done(xs[i], cs[i], xs[i + 1]),
    ensures
        write_once_all(xs[0].shadow, xs[0].header_written, cs.take(k as int), xs[0].mode) matches Ok((s, b)) && s
            == xs[k as int].shadow && b =~= xs[k as int].sink@.skip(xs[0].sink@.len() as int),
        xs[0].sink@.is_prefix_of(xs[k as int].sink@),
        xs[k as int].header_written,
        xs[k as int].mode == xs[0].mode,
    decreases k,
{
    let ck = cs.take(k as int);
    assert(ck.drop_last() =~= cs.take(k - 1));
    assert(ck.last() == cs[k - 1]);
    let i = k - 1;
    assert(write_done(xs[i], cs[i], xs[i + 1]));
    assert(i + 1 == k);
    if k == 1 {
        assert(cs.take(0) =~= Seq::<Seq<u8>>::empty());
        assert(xs[0].sink@.skip(xs[0].sink@.len() as int) =~= Seq::<u8>::empty());
        let out = xs[1].sink@.skip(xs[0].sink@.len() as int);
        assert(xs[1].sink@.subrange(0, xs[0].sink@.len() as int) =~= xs[0].sink@);
        assert(Seq::<u8>::empty() + out =~= out);
    } else {
        lemma_writes_all(xs, cs, (k - 1) as nat);
        let p = xs[0].sink@.len() as int;
        assert(xs[k as int].sink@.skip(p) =~= xs[k - 1].sink@.skip(p) + xs[k as int].sink@.skip(
            xs[k - 1].sink@.len() as int,
        ));
        assert(xs[k as int].sink@.subrange(0, p) =~= xs[k - 1].sink@.subrange(0, p));
    }
}

/// A writer made with its header not written, then successfully written the
/// chunks `cs` (one or more) by successive calls of `write` (the writers `xs`,
/// each the one before after its call), has shadowed its header exactly once,
/// before the first chunk, then each chunk in turn: its sink is the first
/// sink followed by the header and the chunks shadowed.
pub proof fn lemma_write_calls_header_once<S: Shadow>(xs: Seq<ShadowWriteOnce<S>>, cs: Seq<Seq<u8>>)
    requires
        cs.len() >= 1,
        xs.len() == cs.len() + 1,
        !xs[0].header_written,
        forall|i: int| 0 <= i < cs.len() ==> #[trigger] write_done(xs[i], cs[i], xs[i + 1]),
    ensures
        header_then_chunks(xs[0].shadow, cs, xs[0].mode) matches Ok((s, b)) && xs.last().shadow == s
            && xs.last().sink@ == xs[0].sink@ + b,
{
    lemma_writes_all(xs, cs, cs.len());
    assert(cs.take(cs.len() as int) =~= cs);
    lemma_write_once_header_once(xs[0].shadow, cs, xs[0].mode);
    let last = xs[cs.len() as int];
    assert(last.sink@ =~= xs[0].sink@ + last.sink@.skip(xs[0].sink@.len() as int));
}

/// A writer made with its header not written, given one or more chunks one
/// after the other, shadows its header exactly once, before the first chunk,
/// then each chunk in turn: the same as the header followed by writes with the
/// header written.
pub proof fn lemma_write_once_header_once<S: Shadow>(s: S, cs: Seq<Seq<u8>>, mode: S::ShadowMode)
    requires
        cs.len() >= 1,
    ensures
        write_once_all(s, false, cs, mode) == header_then_chunks(s, cs, mode),
    decreases cs.len(),
{
    if cs.len() == 1 {
        assert(cs.drop_last() =~= Seq::<Seq<u8>>::empty());
        match s.header_step(mode) {
            Ok((s1, h)) => {
                assert(write_once_all(s1, true, cs.drop_last(), mode) == Ok::<(S, Seq<u8>), ShadowError>((s1, Seq::empty())));
                match s1.iter_step(cs.last(), mode) {
                    Ok((s2, out, n)) => {
                        assert(Seq::<u8>::empty() + out =~= out);
                        assert(Seq::<u8>::empty() + (h + out) =~= h + out);
                        assert(h + (Seq::<u8>::empty() + out) =~= h + out);
                    },
                    Err(_) => {},
                }
            },
            Err(_) => {},
        }
    } else {
        lemma_write_once_header_once(s, cs.drop_last(), mode);
        match s.header_step(mode) {
            Ok((s1, h)) => {
                match write_once_all(s1, true, cs.drop_last(), mode) {
                    Ok((s2, b)) => {
                        match s2.iter_step(cs.last(), mode) {
                            Ok((s3, out, n)) => {
                                assert((h + b) + out =~= h + (b + out));
                            },
                            Err(_) => {},
                        }
                    },
                    Err(_) => {},
                }
            },
            Err(_) => {},
        }
    }
}

/// A reader that unshadows what it reads, reading the shadow header on its
/// first read.
pub struct ShadowReadOnce<S: Shadow> {
    pub shadow: S,
    pub mode: Option<S::ShadowMode>,
    pub source: ByteSource,
}

impl<S: Shadow> ShadowReadOnce<S> {
    /// A reader of `r` unshadowed by `s`, header not read yet.
    pub fn new(s: S, r: ByteSource) -> (res: Self)
        ensures
            res.shadow == s,
            res.mode is None,
            res.source == r,
    {
        ShadowReadOnce { shadow: s, mode: None, source: r }
    }

    /// Reads unshadowed bytes into `buf`; reads the header first if it has
    /// not been read.
    pub fn read(&mut self, buf: &mut [u8]) -> (res: Result<usize, ShadowError>)
        ensures
            res is Ok ==> final(self).mode is Some,
            old(self).mode is Some ==> final(self).mode == old(self).mode,
            match read_once_step(old(self).shadow, old(self).mode, old(self).source@, old(buf)@.len() as usize) {
                Ok((s, m, out, rest)) => {
                    &&& res == Ok::<usize, ShadowError>(out.len() as usize)
                    &&& out.len() <= old(buf)@.len()
                    &&& final(buf)@ == out + old(buf)@.skip(out.len() as int)
                    &&& final(self).shadow == s
                    &&& final(self).mode == Some(m)
                    &&& final(self).source@ == rest
                },
                Err(e) => res == Err::<usize, ShadowError>(e),
            },
    {
        if self.mode.is_none() {
            let sm = self.shadow.read_shadow_header(&mut self.source)?;
            self.mode = Some(sm);
        }
        self.shadow.read_shadow_iter(&mut self.source, buf, self.mode.as_ref().unwrap())
    }
}

/// A writer that shadows what it writes, writing the shadow header on its
/// first write. Flushing does not write a new header (for that, make a new
/// writer) and does not flush the inner writer.
pub struct ShadowWriteOnce<S: Shadow> {
    pub shadow: S,
    pub mode: S::ShadowMode,
    pub sink: Vec<u8>,
    pub header_written: bool,
}

impl<S: Shadow> ShadowWriteOnce<S> {
    /// A writer into `w` shadowed by `s` in mode `sm`, header not written yet.
    pub fn new(s: S, w: Vec<u8>, sm: S::ShadowMode) -> (res: Self)
        ensures
            res.shadow == s,
            res.sink == w,
            res.mode == sm,
            !res.header_written,
    {
        ShadowWriteOnce { shadow: s, mode: sm, sink: w, header_written: false }
    }

    /// Shadows and writes `cont`, after the header on the first write.
    pub fn write(&mut self, cont: &[u8]) -> (res: Result<usize, ShadowError>)
        ensures
            res is Ok ==> final(self).header_written,
            res is Ok ==> write_done(*old(self), cont@, *final(self)),
            final(self).mode == old(self).mode,
            match write_once_step(old(self).shadow, old(self).header_written, cont@, old(self).mode) {
                Ok((s, out, n)) => {
                    &&& res == Ok::<usize, ShadowError>(n)
                    &&& final(self).shadow == s
                    &&& final(self).sink@ == old(self).sink@ + out
                },
                Err(e) => res == Err::<usize, ShadowError>(e),
            },
    {
        if !self.header_written {
            self.shadow.shadow_header(&mut self.sink, &self.mode)?;
            self.header_written = true;
        }
        let res = self.shadow.shadow_iter(cont, &mut self.sink, &self.mode);
        proof {
            if res is Ok {
                assert(self.header_written);
            }
        }
        res
    }

    /// Ends the shadowing of what was written.
    pub fn flush(&mut self) -> (res: Result<(), ShadowError>)
        ensures
            final(self).mode == old(self).mode,
            final(self).header_written == old(self).header_written,
            match old(self).shadow.flush_step(old(self).mode) {
                Ok((s, out)) => res is Ok && final(self).shadow == s && final(self).sink@ == old(self).sink@ + out,
                Err(e) => res == Err::<(), ShadowError>(e),
            },
            res is Ok ==> flush_done(*old(self), *final(self)),
    {
        self.shadow.shadow_flush(&mut self.sink, &self.mode)
    }
}

/// A writer that shadows what it writes into `sink`, writing the shadow
/// header on its first write; when it is not the first of a chain of
/// writers, flushing also flushes `sink` (which holds nothing back).
pub struct ShadowWriteOnceL<S: Shadow> {
    pub shadow: S,
    pub mode: S::ShadowMode,
    pub sink: Vec<u8>,
    pub header_written: bool,
    pub is_first: bool,
}

impl<S: Shadow> ShadowWriteOnceL<S> {
    /// A writer into `r` shadowed by `s` in mode `sm`, header not written yet.
    pub fn new(s: S, r: Vec<u8>, sm: S::ShadowMode, is_first: bool) -> (res: Self)
        ensures
            res.shadow == s,
            res.sink == r,
            res.mode == sm,
            !res.header_written,
            res.is_first == is_first,
    {
        ShadowWriteOnceL { shadow: s, mode: sm, sink: r, header_written: false, is_first }
    }

    /// Shadows and writes `cont`, after the header on the first write.
    pub fn write(&mut self, cont: &[u8]) -> (res: Result<usize, ShadowError>)
        ensures
            res is Ok ==> final(self).header_written,
            old(self).header_written ==> final(self).header_written,
            final(self).mode == old(self).mode,
            final(self).is_first == old(self).is_first,
            match write_once_step(old(self).shadow, old(self).header_written, cont@, old(self).mode) {
                Ok((s, out, n)) => {
                    &&& res == Ok::<usize, ShadowError>(n)
                    &&& final(self).shadow == s
                    &&& final(self).sink@ == old(self).sink@ + out
                },
                Err(e) => res == Err::<usize, ShadowError>(e),
            },
    {
        if !self.header_written {
            self.shadow.shadow_header(&mut self.sink, &self.mode)?;
            self.header_written = true;
        }
        self.shadow.shadow_iter(cont, &mut self.sink, &self.mode)
    }

    /// Ends the shadowing of what was written.
    pub fn flush(&mut self) -> (res: Result<(), ShadowError>)
        ensures
            final(self).mode == old(self).mode,
            final(self).header_written == old(self).header_written,
            final(self).is_first == old(self).is_first,
            match old(self).shadow.flush_step(old(self).mode) {
                Ok((s, out)) => res is Ok && final(self).shadow == s && final(self).sink@ == old(self).sink@ + out,
                Err(e) => res == Err::<(), ShadowError>(e),
            },
    {
        self.shadow.shadow_flush(&mut self.sink, &self.mode)
    }
}

/// A writer through layers of shadows, each shadowing what the layers before
/// it write, the last one writing into `sink`; the header of a layer is
/// written with the first bytes that reach it. `written_head` keeps, for each
/// layer, whether its header is written.
pub struct MShadowWriteOnce<S: Shadow> {
    pub shadows: Vec<S>,
    pub mode: S::ShadowMode,
    pub sink: Vec<u8>,
    pub written_head: Vec<bool>,
}

/// A layered writer keeps one header flag per layer, and at least a layer.
pub open spec fn layered_ok<S: Shadow>(m: MShadowWriteOnce<S>) -> bool {
    m.shadows@.len() >= 1 && m.written_head@.len() == m.shadows@.len()
}

/// Header flags of `after` are those of `before`, some possibly set.
pub open spec fn heads_kept(before: Seq<bool>, after: Seq<bool>) -> bool {
    after.len() == before.len() && forall|k: int| 0 <= k < before.len() && #[trigger] before[k] ==> after[k]
}

/// What passing `cont` to the layers from `k` on (of `len` layers) does:
/// layer `k` writes its header if its flag is not set, then shadows `cont`;
/// what a layer writes goes to the next layer when there is some, and the
/// last layer's output is what is written. Gives the shadowers and header
/// flags afterwards, the bytes written and how many bytes of `cont` layer `k`
/// took, or the error.
pub open spec fn layers_write<S: Shadow>(
    shadows: Seq<S>,
    heads: Seq<bool>,
    k: nat,
    cont: Seq<u8>,
    mode: S::ShadowMode,
    len: nat,
) -> Result<(Seq<S>, Seq<bool>, Seq<u8>, usize), ShadowError>
    decreases len - k,
{
    if k >= len {
        Err(ShadowError::Failed)
    } else {
        let last = k + 1 == len;
        let header: Result<(Seq<S>, Seq<bool>, Seq<u8>), ShadowError> = if heads[k as int] {
            Ok((shadows, heads, Seq::<u8>::empty()))
        } else {
            match shadows[k as int].header_step(mode) {
                Ok((s1, h)) => {
                    let sh = shadows.update(k as int, s1);
                    if last {
                        Ok((sh, heads.update(k as int, true), h))
                    } else if h.len() == 0 {
                        Ok((sh, heads.update(k as int, true), Seq::<u8>::empty()))
                    } else {
                        match layers_write(sh, heads, k + 1, h, mode, len) {
                            Ok((sh2, hd2, out2, _)) => Ok((sh2, hd2.update(k as int, true), out2)),
                            Err(e) => Err(e),
                        }
                    }
                },
                Err(e) => Err(e),
            }
        };
        match header {
            Ok((sh, hd, out1)) => match sh[k as int].iter_step(cont, mode) {
                Ok((s2, o, n)) => {
                    let sh3 = sh.update(k as int, s2);
                    if last {
                        Ok((sh3, hd, out1 + o, n))
                    } else if o.len() == 0 {
                        Ok((sh3, hd, out1, n))
                    } else {
                        match layers_write(sh3, hd, k + 1, o, mode, len) {
                            Ok((sh4, hd4, out4, _)) => Ok((sh4, hd4, out1 + out4, n)),
                            Err(e) => Err(e),
                        }
                    }
                },
                Err(e) => Err(e),
            },
            Err(e) => Err(e),
        }
    }
}

/// What ending the layers from `k` on (of `len` layers) does: layer `k` ends
/// its message, what it writes goes to the next layer when there is some,
/// then the next layer is ended. Gives the shadowers and header flags
/// afterwards and the bytes written, or the error.
pub open spec fn layers_flush<S: Shadow>(shadows: Seq<S>, heads: Seq<bool>, k: nat, mode: S::ShadowMode, len: nat) -> Result<
    (Seq<S>, Seq<bool>, Seq<u8>),
    ShadowError,
>
    decreases len - k,
{
    if k >= len {
        Err(ShadowError::Failed)
    } else {
        match shadows[k as int].flush_step(mode) {
            Ok((s, o)) => {
                let sh = shadows.update(k as int, s);
                if k + 1 == len {
                    Ok((sh, heads, o))
                } else {
                    let passed: Result<(Seq<S>, Seq<bool>, Seq<u8>, usize), ShadowError> = if o.len() == 0 {
                        Ok((sh, heads, Seq::<u8>::empty(), 0usize))
                    } else {
                        layers_write(sh, heads, k + 1, o, mode, len)
                    };
                    match passed {
                        Ok((sh2, hd2, out2, _)) => match layers_flush(sh2, hd2, k + 1, mode, len) {
                            Ok((sh3, hd3, out3)) => Ok((sh3, hd3, out2 + out3)),
                            Err(e) => Err(e),
                        },
                        Err(e) => Err(e),
                    }
                }
            },
            Err(e) => Err(e),
        }
    }
}

/// Keeping header flags twice keeps them.
proof fn lemma_heads_kept_trans(a: Seq<bool>, b: Seq<bool>, c: Seq<bool>)
    requires
        heads_kept(a, b),
        heads_kept(b, c),
    ensures
        heads_kept(a, c),
{
    assert forall|k: int| 0 <= k < a.len() && #[trigger] a[k] implies c[k] by {
        assert(b[k]);
    }
}

impl<S: Shadow> MShadowWriteOnce<S> {
    /// A writer through `s` (the first layer first) into `w` in mode `sm`, with
    /// the header flags `writtenhead`.
    pub fn new(s: Vec<S>, w: Vec<u8>, sm: S::ShadowMode, writtenhead: Vec<bool>) -> (r: Self)
        ensures
            r.shadows == s,
            r.sink == w,
            r.mode == sm,
            r.written_head == writtenhead,
    {
        MShadowWriteOnce { shadows: s, mode: sm, sink: w, written_head: writtenhead }
    }

    /// Passes `cont` to the layers from `k` on: layer `k` shadows it (after its
    /// header if not written) and what it writes goes to the next layer.
    fn write_layer(&mut self, k: usize, cont: &[u8]) -> (res: Result<usize, ShadowError>)
        requires
            layered_ok(*old(self)),
            k < old(self).shadows@.len(),
        ensures
            layered_ok(*final(self)),
            final(self).shadows@.len() == old(self).shadows@.len(),
            final(self).mode == old(self).mode,
            heads_kept(old(self).written_head@, final(self).written_head@),
            res is Ok ==> final(self).written_head@[k as int],
            match layers_write(
                old(self).shadows@,
                old(self).written_head@,
                k as nat,
                cont@,
                old(self).mode,
                old(self).shadows@.len(),
            ) {
                Ok((sh, hd, out, n)) => {
                    &&& res == Ok::<usize, ShadowError>(n)
                    &&& final(self).shadows@ == sh
                    &&& final(self).written_head@ == hd
                    &&& final(self).sink@ == old(self).sink@ + out
                },
                Err(e) => res == Err::<usize, ShadowError>(e),
            },
        decreases old(self).shadows@.len() - k,
    {
        let ghost h0 = self.written_head@;
        let last = k == self.shadows.len() - 1;
        if !self.written_head[k] {
            if last {
                let r = self.shadows[k].shadow_header(&mut self.sink, &self.mode);
                r?;
            } else {
                let mut tmp: Vec<u8> = Vec::new();
                let r = self.shadows[k].shadow_header(&mut tmp, &self.mode);
                r?;
                if tmp.len() > 0 {
                    let ghost h1 = self.written_head@;
                    let r2 = self.write_layer(k + 1, tmp.as_slice());
                    proof {
                        lemma_heads_kept_trans(h0, h1, self.written_head@);
                    }
                    r2?;
                }
            }
            let ghost h2 = self.written_head@;
            self.written_head.set(k, true);
            proof {
                lemma_heads_kept_trans(h0, h2, self.written_head@);
            }
        }
        assert(self.written_head@[k as int]);
        if last {
            self.shadows[k].shadow_iter(cont, &mut self.sink, &self.mode)
        } else {
            let mut tmp: Vec<u8> = Vec::new();
            let n = self.shadows[k].shadow_iter(cont, &mut tmp, &self.mode)?;
            if tmp.len() > 0 {
                let ghost h3 = self.written_head@;
                let r3 = self.write_layer(k + 1, tmp.as_slice());
                proof {
                    lemma_heads_kept_trans(h0, h3, self.written_head@);
                    assert(h3[k as int]);
                }
                r3?;
            }
            Ok(n)
        }
    }

    /// Shadows and writes `cont` through all the layers; returns what the
    /// first layer took of it.
    pub fn write(&mut self, cont: &[u8]) -> (res: Result<usize, ShadowError>)
        requires
            layered_ok(*old(self)),
        ensures
            layered_ok(*final(self)),
            final(self).shadows@.len() == old(self).shadows@.len(),
            final(self).mode == old(self).mode,
            heads_kept(old(self).written_head@, final(self).written_head@),
            res is Ok ==> final(self).written_head@[0],
            match layers_write(
                old(self).shadows@,
                old(self).written_head@,
                0,
                cont@,
                old(self).mode,
                old(self).shadows@.len(),
            ) {
                Ok((sh, hd, out, n)) => {
                    &&& res == Ok::<usize, ShadowError>(n)
                    &&& final(self).shadows@ == sh
                    &&& final(self).written_head@ == hd
                    &&& final(self).sink@ == old(self).sink@ + out
                },
                Err(e) => res == Err::<usize, ShadowError>(e),
            },
    {
        self.write_layer(0, cont)
    }

    /// Ends the shadowing of the layers from `k` on: what the flush of a layer
    /// writes goes to the next layer, which is then flushed.
    fn flush_layer(&mut self, k: usize) -> (res: Result<(), ShadowError>)
        requires
            layered_ok(*old(self)),
            k < old(self).shadows@.len(),
        ensures
            layered_ok(*final(self)),
            final(self).shadows@.len() == old(self).shadows@.len(),
            final(self).mode == old(self).mode,
            heads_kept(old(self).written_head@, final(self).written_head@),
            match layers_flush(old(self).shadows@, old(self).written_head@, k as nat, old(self).mode, old(self).shadows@.len()) {
                Ok((sh, hd, out)) => {
                    &&& res is Ok
                    &&& final(self).shadows@ == sh
                    &&& final(self).written_head@ == hd
                    &&& final(self).sink@ == old(self).sink@ + out
                },
                Err(e) => res == Err::<(), ShadowError>(e),
            },
        decreases old(self).shadows@.len() - k,
    {
        if k == self.shadows.len() - 1 {
            self.shadows[k].shadow_flush(&mut self.sink, &self.mode)
        } else {
            let ghost h0 = self.written_head@;
            let mut tmp: Vec<u8> = Vec::new();
            let r = self.shadows[k].shadow_flush(&mut tmp, &self.mode);
            r?;
            if tmp.len() > 0 {
                self.write_layer(k + 1, tmp.as_slice())?;
            }
            let ghost h1 = self.written_head@;
            let r2 = self.flush_layer(k + 1);
            proof {
                lemma_heads_kept_trans(h0, h1, self.written_head@);
            }
            r2
        }
    }

    /// Ends the shadowing of all the layers, from the first.
    pub fn flush(&mut self) -> (res: Result<(), ShadowError>)
        requires
            layered_ok(*old(self)),
        ensures
            layered_ok(*final(self)),
            final(self).shadows@.len() == old(self).shadows@.len(),
            final(self).mode == old(self).mode,
            heads_kept(old(self).written_head@, final(self).written_head@),
            match layers_flush(old(self).shadows@, old(self).written_head@, 0, old(self).mode, old(self).shadows@.len()) {
                Ok((sh, hd, out)) => {
                    &&& res is Ok
                    &&& final(self).shadows@ == sh
                    &&& final(self).written_head@ == hd
                    &&& final(self).sink@ == old(self).sink@ + out
                },
                Err(e) => res == Err::<(), ShadowError>(e),
            },
    {
        self.flush_layer(0)
    }
}

/// Priority of a peer.
#[derive(Debug, Clone, Copy, PartialEq, Eq, Structural)]
pub enum PeerPriority {
    /// online but not accepted yet (used when receiving a ping)
    Unchecked,
    /// online, no priority distinction between peers
    Normal,
    /// online, with a priority
    Priority(u8),
}

/// State of a peer. `R` is the handle through which the outcome of a ping is
/// reported.
#[derive(Debug)]
pub enum PeerState<R> {
    /// accept refused the peer
    Refused,
    /// blocked (after invalid frames and others); connection may be retried if
    /// the peer's address changes
    Blocked(PeerPriority),
    /// not pinged yet, or connection broken
    Offline(PeerPriority),
    /// ping sent with the given challenge; the priority is set if accept ran,
    /// `Unchecked` otherwise
    Ping(Vec<u8>, R, PeerPriority),
    /// online
    Online(PeerPriority),
}

/// Change of the state of a peer.
#[derive(Debug)]
pub enum PeerStateChange<R> {
    Refused,
    Blocked,
    Offline,
    Online,
    Ping(Vec<u8>, R),
}

impl<R> PeerState<R> {
    /// The priority of a peer in this state.
    pub open spec fn priority(&self) -> PeerPriority {
        match self {
            PeerState::Refused => PeerPriority::Unchecked,
            PeerState::Blocked(p) => *p,
            PeerState::Offline(p) => *p,
            PeerState::Ping(_, _, p) => *p,
            PeerState::Online(p) => *p,
        }
    }

    /// The priority of a peer in this state (`Unchecked` when refused).
    pub fn get_priority(&self) -> (r: PeerPriority)
        ensures
            r == self.priority(),
    {
        match self {
            PeerState::Refused => PeerPriority::Unchecked,
            PeerState::Blocked(p) => p.clone(),
            PeerState::Offline(p) => p.clone(),
            PeerState::Ping(_, _, p) => p.clone(),
            PeerState::Online(p) => p.clone(),
        }
    }

    /// The state after `change`, keeping the priority.
    pub fn new_state(&self, change: PeerStateChange<R>) -> (r: PeerState<R>)
        ensures
            r == next_peer_state(*self, change),
            change is Refused ==> r is Refused,
            change is Blocked ==> r == PeerState::<R>::Blocked(self.priority()),
            change is Offline ==> r == PeerState::<R>::Offline(self.priority()),
            change is Online ==> r == PeerState::<R>::Online(self.priority()),
            change matches PeerStateChange::Ping(chal, or) ==> r == PeerState::Ping(chal, or, self.priority()),
    {
        let pri = self.get_priority();
        match change {
            PeerStateChange::Refused => PeerState::Refused,
            PeerStateChange::Blocked => PeerState::Blocked(pri),
            PeerStateChange::Offline => PeerState::Offline(pri),
            PeerStateChange::Online => PeerState::Online(pri),
            PeerStateChange::Ping(chal, or) => PeerState::Ping(chal, or, pri),
        }
    }

    /// Gives up the state: a pending ping is answered as failed, so its
    /// handle comes back with `false` for the one who waits on it; other
    /// states have no one waiting.
    pub fn release(self) -> (r: Option<(R, bool)>)
        ensures
            r == match self {
                PeerState::Ping(_, or, _) => Some((or, false)),
                _ => None::<(R, bool)>,
            },
    {
        match self {
            PeerState::Ping(_, or, _) => Some((or, false)),
            _ => None,
        }
    }
}

/// The state of a peer in state `s` after `change`.
pub open spec fn next_peer_state<R>(s: PeerState<R>, change: PeerStateChange<R>) -> PeerState<R> {
    let pri = s.priority();
    match change {
        PeerStateChange::Refused => PeerState::Refused,
        PeerStateChange::Blocked => PeerState::Blocked(pri),
        PeerStateChange::Offline => PeerState::Offline(pri),
        PeerStateChange::Online => PeerState::Online(pri),
        PeerStateChange::Ping(chal, or) => PeerState::Ping(chal, or, pri),
    }
}

/// The state after a change is the one the change names, whatever the state
/// before: refused, blocked, offline, online or pinging with the given
/// challenge and handle, keeping the priority of the state before (the
/// priority of a refused peer is unchecked, that of any other is its own).
pub proof fn lemma_new_state_is_the_change<R>(s: PeerState<R>, change: PeerStateChange<R>)
    ensures
        change is Refused ==> next_peer_state(s, change) is Refused,
        change is Blocked ==> next_peer_state(s, change) == PeerState::<R>::Blocked(s.priority()),
        change is Offline ==> next_peer_state(s, change) == PeerState::<R>::Offline(s.priority()),
        change is Online ==> next_peer_state(s, change) == PeerState::<R>::Online(s.priority()),
        change matches PeerStateChange::Ping(chal, or) ==> next_peer_state(s, change) == PeerState::Ping(
            chal,
            or,
            s.priority(),
        ),
        s is Refused ==> s.priority() == PeerPriority::Unchecked,
        s matches PeerState::Blocked(p) ==> s.priority() == p,
        s matches PeerState::Offline(p) ==> s.priority() == p,
        s matches PeerState::Online(p) ==> s.priority() == p,
        s matches PeerState::Ping(_, _, p) ==> s.priority() == p,
{
}

/// A change of state keeps the priority of the peer, except a refusal, which
/// leaves it unchecked; so any sequence of changes without refusal keeps it.
pub proof fn lemma_new_state_priority<R>(s: PeerState<R>, change: PeerStateChange<R>)
    ensures
        change is Refused ==> next_peer_state(s, change).priority() == PeerPriority::Unchecked,
        !(change is Refused) ==> next_peer_state(s, change).priority() == s.priority(),
{
}

} // verus!
