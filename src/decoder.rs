//! The token-stream interpreter: rebuilds the uncompressed bytes in a buffer of
//! a declared size, checking every read and write against its bound first.
use vstd::prelude::*;

use crate::error::Error;

verus! {

/// The errors that decoding can report: the stream ran out, the declared
/// output was too small or not filled, a copy reached before the start of the
/// output, or bytes followed the end marker.
pub open spec fn is_decode_error(e: Error) -> bool {
    ||| e == Error::InputOverrun
    ||| e == Error::OutputOverrun
    ||| e == Error::LookbehindOverrun
    ||| e == Error::EOFNotFound
    ||| e == Error::InputNotConsumed
    ||| e == Error::OutputNotConsumed
}

/// A length extension read from `p` on, with `t` counted so far: each zero
/// byte adds 255, and the first non-zero byte is added and ends it. Yields the
/// length and the position after it. A count that could overflow is refused.
pub open spec fn ext_spec(src: Seq<u8>, p: int, t: int) -> Result<(int, int), Error>
    decreases src.len() - p,
{
    if p < 0 || p >= src.len() {
        Err(Error::InputOverrun)
    } else if src[p] != 0 {
        Ok((t + src[p], p + 1))
    } else if t >= usize::MAX - 1024 {
        Err(Error::InputOverrun)
    } else {
        ext_spec(src, p + 1, t + 255)
    }
}

/// The length field of an instruction: `short` itself when it is not zero,
/// else a length extension that starts from `base`.
pub open spec fn len_spec(src: Seq<u8>, p: int, short: int, base: int) -> Result<(int, int), Error> {
    if short != 0 {
        Ok((short, p))
    } else {
        ext_spec(src, p, base)
    }
}

/// Appending the `n` raw bytes of the stream at `ip` to `out`, with room for
/// `cap` bytes of output; room is checked before the stream.
pub open spec fn lit_spec(src: Seq<u8>, ip: int, n: int, out: Seq<u8>, cap: int) -> Result<
    (int, Seq<u8>),
    Error,
> {
    if n > cap - out.len() {
        Err(Error::OutputOverrun)
    } else if ip + n > src.len() {
        Err(Error::InputOverrun)
    } else {
        Ok((ip + n, out + src.subrange(ip, ip + n)))
    }
}

/// `out` with `len` bytes appended one at a time, each copied from `dist`
/// bytes before it, so that a copy may repeat what it has just produced.
pub open spec fn copied(out: Seq<u8>, dist: int, len: nat) -> Seq<u8>
    decreases len,
{
    if len == 0 {
        out
    } else {
        let o = copied(out, dist, (len - 1) as nat);
        o.push(o[o.len() - dist])
    }
}

/// A copy of `len` bytes from `dist` back, with room for `cap` bytes of
/// output; the distance is checked before the room.
pub open spec fn match_spec(out: Seq<u8>, dist: int, len: int, cap: int) -> Result<Seq<u8>, Error> {
    if dist > out.len() {
        Err(Error::LookbehindOverrun)
    } else if len > cap - out.len() {
        Err(Error::OutputOverrun)
    } else {
        Ok(copied(out, dist, len as nat))
    }
}

/// A copy that ends at `ip`, then the zero to three literals that the low two
/// bits of the byte two places back announce. Yields the position after them,
/// their count, and the output.
pub open spec fn finish_spec(src: Seq<u8>, ip: int, dist: int, len: int, out: Seq<u8>, cap: int) -> Result<
    (Option<(int, int)>, Seq<u8>),
    Error,
> {
    match match_spec(out, dist, len, cap) {
        Err(e) => Err(e),
        Ok(o1) => {
            let s = src[ip - 2] % 4;
            match lit_spec(src, ip, s as int, o1, cap) {
                Err(e) => Err(e),
                Ok((p, o2)) => Ok((Some((p, s as int)), o2)),
            }
        },
    }
}

/// One instruction of the stream, read at `ip` with output `out` so far.
/// `state` says what a control byte below 16 means: 0 after a copy with no
/// trailing literals (a literal run), 1 to 3 after that many trailing literals
/// (a two-byte near copy), 4 after a literal run (a three-byte copy from
/// beyond 2 KiB). The result is an error, the end of the stream with the final
/// output, or the next position and state with the output so far.
#[verifier::opaque]
pub open spec fn step_spec(src: Seq<u8>, cap: int, ip: int, state: int, out: Seq<u8>) -> Result<
    (Option<(int, int)>, Seq<u8>),
    Error,
> {
    if ip < 0 || ip >= src.len() {
        Err(Error::EOFNotFound)
    } else {
        let t = src[ip] as int;
        let q = ip + 1;
        if t >= 64 {
            if q >= src.len() {
                Err(Error::InputOverrun)
            } else {
                finish_spec(src, q + 1, 1 + (t / 4) % 8 + 8 * src[q], t / 32 + 1, out, cap)
            }
        } else if t >= 32 {
            match len_spec(src, q, t % 32, 31) {
                Err(e) => Err(e),
                Ok((len, p)) => if p + 2 > src.len() {
                    Err(Error::InputOverrun)
                } else {
                    let v = src[p] + 256 * src[p + 1];
                    finish_spec(src, p + 2, 1 + v / 4, len + 2, out, cap)
                },
            }
        } else if t >= 16 {
            match len_spec(src, q, t % 8, 7) {
                Err(e) => Err(e),
                Ok((len, p)) => if p + 2 > src.len() {
                    Err(Error::InputOverrun)
                } else {
                    let d = 16384 * ((t / 8) % 2) + (src[p] + 256 * src[p + 1]) / 4;
                    if d == 0 {
                        if p + 2 < src.len() {
                            Err(Error::InputNotConsumed)
                        } else if out.len() < cap {
                            Err(Error::OutputNotConsumed)
                        } else {
                            Ok((None, out))
                        }
                    } else {
                        finish_spec(src, p + 2, d + 16384, len + 2, out, cap)
                    }
                },
            }
        } else if state == 0 {
            match len_spec(src, q, t, 15) {
                Err(e) => Err(e),
                Ok((n, p)) => match lit_spec(src, p, n + 3, out, cap) {
                    Err(e) => Err(e),
                    Ok((p2, o)) => Ok((Some((p2, 4)), o)),
                },
            }
        } else if q >= src.len() {
            Err(Error::InputOverrun)
        } else if state == 4 {
            finish_spec(src, q + 1, 2049 + t / 4 + 4 * src[q], 3, out, cap)
        } else {
            finish_spec(src, q + 1, 1 + t / 4 + 4 * src[q], 2, out, cap)
        }
    }
}

/// The instructions from `ip` on, run until the end marker or an error.
pub open spec fn run(src: Seq<u8>, cap: int, ip: int, state: int, out: Seq<u8>) -> Result<
    Seq<u8>,
    Error,
>
    decreases src.len() - ip,
{
    match step_spec(src, cap, ip, state, out) {
        Err(e) => Err(e),
        Ok((None, o)) => Ok(o),
        Ok((Some((p, s)), o)) => if ip < p <= src.len() {
            run(src, cap, p, s, o)
        } else {
            Err(Error::InternalError)
        },
    }
}

/// What a stream decodes to with room for `cap` bytes: a first byte above 17
/// opens the stream with a run of that many less 17 literals; the
/// instructions follow.
pub open spec fn decode(src: Seq<u8>, cap: int) -> Result<Seq<u8>, Error> {
    if src.len() > 0 && src[0] > 17 {
        let t = src[0] - 17;
        match lit_spec(src, 1, t, seq![], cap) {
            Err(e) => Err(e),
            Ok((p, o)) => run(src, cap, p, if t < 4 {
                t
            } else {
                4
            }, o),
        }
    } else {
        run(src, cap, 0, 0, seq![])
    }
}

/// Reads a length extension from `ip` on, starting from `base`.
fn read_ext(src: &[u8], ip: usize, base: usize) -> (r: Result<(usize, usize), Error>)
    requires
        base <= 255,
        ip <= src@.len(),
    ensures
        match ext_spec(src@, ip as int, base as int) {
            Ok((len, p)) => r == Ok::<(usize, usize), Error>((len as usize, p as usize)) && len
                == r->Ok_0.0 && p == r->Ok_0.1 && ip < p <= src@.len() && len < usize::MAX - 512,
            Err(e) => r == Err::<(usize, usize), Error>(e),
        },
        r is Err ==> r->Err_0 == Error::InputOverrun,
{
    let n = src.len();
    let mut t: usize = base;
    let mut p: usize = ip;
    loop
        invariant
            n == src@.len(),
            ip <= p <= n,
            base <= t < usize::MAX - 768,
            ext_spec(src@, p as int, t as int) == ext_spec(src@, ip as int, base as int),
        decreases n - p,
    {
        if p >= n {
            return Err(Error::InputOverrun);
        }
        let b = src[p];
        p = p + 1;
        if b != 0 {
            return Ok((t + b as usize, p));
        }
        if t >= usize::MAX - 1024 {
            return Err(Error::InputOverrun);
        }
        t = t + 255;
    }
}

/// Reads the length field of an instruction at `ip`.
fn read_len(src: &[u8], ip: usize, short: usize, base: usize) -> (r: Result<(usize, usize), Error>)
    requires
        base <= 255,
        short <= 255,
        ip <= src@.len(),
    ensures
        match len_spec(src@, ip as int, short as int, base as int) {
            Ok((len, p)) => r == Ok::<(usize, usize), Error>((len as usize, p as usize)) && len
                == r->Ok_0.0 && p == r->Ok_0.1 && ip <= p <= src@.len() && len
                < usize::MAX - 512,
            Err(e) => r == Err::<(usize, usize), Error>(e),
        },
        r is Err ==> r->Err_0 == Error::InputOverrun,
{
    if short != 0 {
        Ok((short, ip))
    } else {
        read_ext(src, ip, base)
    }
}

/// A copy appends exactly its length.
pub proof fn lemma_copied_len(out: Seq<u8>, dist: int, len: nat)
    ensures
        copied(out, dist, len).len() == out.len() + len,
    decreases len,
{
    if len > 0 {
        lemma_copied_len(out, dist, (len - 1) as nat);
    }
}

/// Appends `n` raw bytes of the stream from `ip` on.
fn copy_literals(src: &[u8], ip: usize, n: usize, out: &mut Vec<u8>, cap: usize) -> (r: Result<
    usize,
    Error,
>)
    requires
        old(out)@.len() <= cap,
        ip <= src@.len(),
    ensures
        match lit_spec(src@, ip as int, n as int, old(out)@, cap as int) {
            Ok((p, o)) => r == Ok::<usize, Error>(p as usize) && p == r->Ok_0 && final(out)@ == o
                && final(out)@.len() <= cap && p <= src@.len(),
            Err(e) => r == Err::<usize, Error>(e),
        },
{
    if n > cap - out.len() {
        return Err(Error::OutputOverrun);
    }
    if n > src.len() - ip {
        return Err(Error::InputOverrun);
    }
    let end: usize = ip + n;
    let ghost start = out@;
    let mut i: usize = 0;
    while i < n
        invariant
            i <= n,
            end == ip + n,
            end <= src@.len(),
            out@ == start + src@.subrange(ip as int, ip + i),
        decreases n - i,
    {
        out.push(src[ip + i]);
        i = i + 1;
        proof {
            assert(src@.subrange(ip as int, ip + i) == src@.subrange(ip as int, ip + i - 1).push(
                src@[ip + i - 1],
            ));
        }
    }
    Ok(end)
}

/// Appends `len` bytes copied from `dist` bytes back in the output, one at a
/// time and in forward order, so that a copy may overlap what it produces.
fn copy_match(out: &mut Vec<u8>, dist: usize, len: usize, cap: usize) -> (r: Result<(), Error>)
    requires
        old(out)@.len() <= cap,
        dist >= 1,
    ensures
        match match_spec(old(out)@, dist as int, len as int, cap as int) {
            Ok(o) => r == Ok::<(), Error>(()) && final(out)@ == o && final(out)@.len() <= cap,
            Err(e) => r == Err::<(), Error>(e),
        },
{
    if dist > out.len() {
        return Err(Error::LookbehindOverrun);
    }
    if len > cap - out.len() {
        return Err(Error::OutputOverrun);
    }
    let ghost start = out@;
    let mut i: usize = 0;
    while i < len
        invariant
            i <= len,
            1 <= dist <= start.len(),
            start.len() + len <= cap,
            out@ == copied(start, dist as int, i as nat),
        decreases len - i,
    {
        proof {
            lemma_copied_len(start, dist as int, i as nat);
        }
        let b = out[out.len() - dist];
        out.push(b);
        i = i + 1;
    }
    proof {
        lemma_copied_len(start, dist as int, len as nat);
    }
    Ok(())
}

/// Finishes a copy instruction that ends at `ip`.
fn finish_copy(src: &[u8], ip: usize, dist: usize, len: usize, out: &mut Vec<u8>, cap: usize) -> (r:
    Result<Option<(usize, usize)>, Error>)
    requires
        2 <= ip <= src@.len(),
        dist >= 1,
        old(out)@.len() <= cap,
    ensures
        match finish_spec(src@, ip as int, dist as int, len as int, old(out)@, cap as int) {
            Ok((Some((p, st)), o)) => r == Ok::<Option<(usize, usize)>, Error>(
                Some((p as usize, st as usize)),
            ) && final(out)@ == o && final(out)@.len() <= cap && ip <= p <= src@.len() && st
                < 4 && p == r->Ok_0->Some_0.0 && st == r->Ok_0->Some_0.1,
            Ok((None, o)) => false,
            Err(e) => r == Err::<Option<(usize, usize)>, Error>(e),
        },
{
    match copy_match(out, dist, len, cap) {
        Ok(()) => {},
        Err(e) => {
            return Err(e);
        },
    }
    let s = (src[ip - 2] % 4) as usize;
    match copy_literals(src, ip, s, out, cap) {
        Ok(p) => Ok(Some((p, s))),
        Err(e) => Err(e),
    }
}

/// Carries out one instruction of the stream at `ip`.
fn decode_step(src: &[u8], ip: usize, state: usize, out: &mut Vec<u8>, cap: usize) -> (r: Result<
    Option<(usize, usize)>,
    Error,
>)
    requires
        ip <= src@.len(),
        state <= 4,
        old(out)@.len() <= cap,
    ensures
        match step_spec(src@, cap as int, ip as int, state as int, old(out)@) {
            Ok((Some((p, st)), o)) => r == Ok::<Option<(usize, usize)>, Error>(
                Some((p as usize, st as usize)),
            ) && final(out)@ == o && final(out)@.len() <= cap && ip < p <= src@.len() && st <= 4
                && p == r->Ok_0->Some_0.0 && st == r->Ok_0->Some_0.1,
            Ok((None, o)) => r == Ok::<Option<(usize, usize)>, Error>(None) && final(out)@ == o
                && o.len() == cap,
            Err(e) => r == Err::<Option<(usize, usize)>, Error>(e),
        },
        r is Err ==> is_decode_error(r->Err_0),
{
    reveal(step_spec);
    if ip >= src.len() {
        return Err(Error::EOFNotFound);
    }
    let t = src[ip];
    let q = ip + 1;
    if t >= 64 {
        if q >= src.len() {
            return Err(Error::InputOverrun);
        }
        let b = src[q] as usize;
        finish_copy(src, q + 1, 1 + (t as usize / 4) % 8 + 8 * b, t as usize / 32 + 1, out, cap)
    } else if t >= 32 {
        let (len, p) = match read_len(src, q, (t % 32) as usize, 31) {
            Ok(lp) => lp,
            Err(e) => {
                return Err(e);
            },
        };
        if src.len() - p < 2 {
            return Err(Error::InputOverrun);
        }
        let v = src[p] as usize + 256 * src[p + 1] as usize;
        finish_copy(src, p + 2, 1 + v / 4, len + 2, out, cap)
    } else if t >= 16 {
        let (len, p) = match read_len(src, q, (t % 8) as usize, 7) {
            Ok(lp) => lp,
            Err(e) => {
                return Err(e);
            },
        };
        if src.len() - p < 2 {
            return Err(Error::InputOverrun);
        }
        let d = 16384 * ((t as usize / 8) % 2) + (src[p] as usize + 256 * src[p + 1] as usize) / 4;
        if d == 0 {
            if p + 2 < src.len() {
                return Err(Error::InputNotConsumed);
            }
            if out.len() < cap {
                return Err(Error::OutputNotConsumed);
            }
            return Ok(None);
        }
        finish_copy(src, p + 2, d + 16384, len + 2, out, cap)
    } else if state == 0 {
        let (n, p) = match read_len(src, q, t as usize, 15) {
            Ok(lp) => lp,
            Err(e) => {
                return Err(e);
            },
        };
        match copy_literals(src, p, n + 3, out, cap) {
            Ok(p2) => Ok(Some((p2, 4))),
            Err(e) => Err(e),
        }
    } else {
        if q >= src.len() {
            return Err(Error::InputOverrun);
        }
        let b = src[q] as usize;
        if state == 4 {
            finish_copy(src, q + 1, 2049 + t as usize / 4 + 4 * b, 3, out, cap)
        } else {
            finish_copy(src, q + 1, 1 + t as usize / 4 + 4 * b, 2, out, cap)
        }
    }
}

/// Decompresses an LZO1X stream into exactly `expected_length` bytes.
///
/// The result is what the stream decodes to; every write stays inside a
/// buffer of `expected_length` bytes, success fills it exactly, and every
/// failure is one of the typed decoding errors.
pub fn decompress(src: &[u8], expected_length: usize) -> (r: Result<Vec<u8>, Error>)
    ensures
        match r {
            Ok(v) => decode(src@, expected_length as int) == Ok::<Seq<u8>, Error>(v@)
                && v@.len() == expected_length,
            Err(e) => decode(src@, expected_length as int) == Err::<Seq<u8>, Error>(e)
                && is_decode_error(e),
        },
{
    let cap = expected_length;
    let mut out: Vec<u8> = Vec::new();
    let mut ip: usize = 0;
    let mut state: usize = 0;
    if src.len() > 0 && src[0] > 17 {
        let t = (src[0] - 17) as usize;
        assert(out@ =~= seq![]);
        match copy_literals(src, 1, t, &mut out, cap) {
            Ok(p) => {
                ip = p;
            },
            Err(e) => {
                return Err(e);
            },
        }
        state = if t < 4 {
            t
        } else {
            4
        };
    } else {
        assert(out@ =~= seq![]);
    }
    loop
        invariant
            cap == expected_length,
            out@.len() <= cap,
            ip <= src@.len(),
            state <= 4,
            run(src@, cap as int, ip as int, state as int, out@) == decode(src@, cap as int),
        decreases src@.len() - ip,
    {
        match decode_step(src, ip, state, &mut out, cap) {
            Ok(Some((p, s))) => {
                ip = p;
                state = s;
            },
            Ok(None) => {
                return Ok(out);
            },
            Err(e) => {
                return Err(e);
            },
        }
    }
}

proof fn lemma_ext_spec(src: Seq<u8>, p: int, t: int)
    requires
        0 <= p,
        0 <= t,
    ensures
        ext_spec(src, p, t) is Ok ==> ext_spec(src, p, t)->Ok_0.0 >= t && p < ext_spec(
            src,
            p,
            t,
        )->Ok_0.1 <= src.len(),
    decreases src.len() - p,
{
    if 0 <= p < src.len() && src[p] == 0 && t < usize::MAX - 1024 {
        lemma_ext_spec(src, p + 1, t + 255);
    }
}

/// The facts about the pieces of one instruction that the laws below use.
proof fn lemma_step_pieces(src: Seq<u8>, ip: int)
    requires
        0 <= ip,
    ensures
        forall|o: Seq<u8>, d: int, l: nat| #[trigger] copied(o, d, l).len() == o.len() + l,
        forall|sr: Seq<u8>, i: int, n: int, o: Seq<u8>, cap: int|
            0 <= i && 0 <= n && #[trigger] lit_spec(sr, i, n, o, cap) is Ok ==> lit_spec(
                sr,
                i,
                n,
                o,
                cap,
            )->Ok_0.1.len() == o.len() + n <= cap && lit_spec(sr, i, n, o, cap)->Ok_0.0 == i + n,
        ext_spec(src, ip + 1, 31) is Ok ==> ext_spec(src, ip + 1, 31)->Ok_0.0 >= 31 && ip + 1
            < ext_spec(src, ip + 1, 31)->Ok_0.1 <= src.len(),
        ext_spec(src, ip + 1, 7) is Ok ==> ext_spec(src, ip + 1, 7)->Ok_0.0 >= 7 && ip + 1
            < ext_spec(src, ip + 1, 7)->Ok_0.1 <= src.len(),
        ext_spec(src, ip + 1, 15) is Ok ==> ext_spec(src, ip + 1, 15)->Ok_0.0 >= 15 && ip + 1
            < ext_spec(src, ip + 1, 15)->Ok_0.1 <= src.len(),
{
    lemma_copied_len_all();
    assert forall|sr: Seq<u8>, i: int, n: int, o: Seq<u8>, cap: int|
        0 <= i && 0 <= n && #[trigger] lit_spec(sr, i, n, o, cap) is Ok implies lit_spec(
            sr,
            i,
            n,
            o,
            cap,
        )->Ok_0.1.len() == o.len() + n <= cap && lit_spec(sr, i, n, o, cap)->Ok_0.0 == i + n by {
    }
    lemma_ext_spec(src, ip + 1, 31);
    lemma_ext_spec(src, ip + 1, 7);
    lemma_ext_spec(src, ip + 1, 15);
}

proof fn lemma_copied_len_all()
    ensures
        forall|o: Seq<u8>, d: int, l: nat| #[trigger] copied(o, d, l).len() == o.len() + l,
{
    assert forall|o: Seq<u8>, d: int, l: nat| #[trigger] copied(o, d, l).len() == o.len() + l by {
        lemma_copied_len(o, d, l);
    }
}

/// One instruction never fills the output past `cap`, and the end marker is
/// accepted only with the output exactly full.
proof fn lemma_step_len(src: Seq<u8>, cap: int, ip: int, state: int, out: Seq<u8>)
    requires
        out.len() <= cap,
    ensures
        match step_spec(src, cap, ip, state, out) {
            Ok((Some(_), o)) => out.len() <= o.len() <= cap,
            Ok((None, o)) => o.len() == cap,
            Err(_) => true,
        },
{
    reveal(step_spec);
    if 0 <= ip {
        lemma_step_pieces(src, ip);
    }
}

proof fn lemma_run_len(src: Seq<u8>, cap: int, ip: int, state: int, out: Seq<u8>)
    requires
        out.len() <= cap,
    ensures
        run(src, cap, ip, state, out) is Ok ==> run(src, cap, ip, state, out)->Ok_0.len() == cap,
    decreases src.len() - ip,
{
    lemma_step_len(src, cap, ip, state, out);
    match step_spec(src, cap, ip, state, out) {
        Ok((Some((p, s)), o)) => {
            if ip < p <= src.len() {
                lemma_run_len(src, cap, p, s, o);
            }
        },
        _ => {},
    }
}

/// Exact length: whatever a stream decodes to has exactly the declared length.
pub proof fn lemma_decode_exact_length(src: Seq<u8>, cap: int)
    requires
        0 <= cap,
    ensures
        decode(src, cap) is Ok ==> decode(src, cap)->Ok_0.len() == cap,
{
    if src.len() > 0 && src[0] > 17 {
        let t = src[0] - 17;
        match lit_spec(src, 1, t, seq![], cap) {
            Ok((p, o)) => {
                lemma_run_len(src, cap, p, if t < 4 {
                    t
                } else {
                    4
                }, o);
            },
            Err(_) => {},
        }
    } else {
        lemma_run_len(src, cap, 0, 0, seq![]);
    }
}

/// With room for only `m` bytes, an instruction behaves as with room for `n`
/// as long as its output fits in `m`, and fails with an output overrun once
/// it does not.
proof fn lemma_step_smaller_cap(src: Seq<u8>, n: int, m: int, ip: int, state: int, out: Seq<u8>)
    requires
        out.len() <= m < n,
        step_spec(src, n, ip, state, out) is Ok,
    ensures
        match step_spec(src, n, ip, state, out) {
            Ok((Some(next), o)) => if o.len() <= m {
                step_spec(src, m, ip, state, out) == step_spec(src, n, ip, state, out)
            } else {
                step_spec(src, m, ip, state, out) == Err::<(Option<(int, int)>, Seq<u8>), Error>(
                    Error::OutputOverrun,
                )
            },
            Ok((None, o)) => false,
            Err(_) => true,
        },
{
    reveal(step_spec);
    if 0 <= ip {
        lemma_step_pieces(src, ip);
    }
}

proof fn lemma_run_smaller_cap(src: Seq<u8>, n: int, m: int, ip: int, state: int, out: Seq<u8>)
    requires
        out.len() <= m < n,
        run(src, n, ip, state, out) is Ok,
    ensures
        run(src, m, ip, state, out) == Err::<Seq<u8>, Error>(Error::OutputOverrun),
    decreases src.len() - ip,
{
    lemma_step_smaller_cap(src, n, m, ip, state, out);
    match step_spec(src, n, ip, state, out) {
        Ok((Some((p, s)), o)) => {
            if o.len() <= m {
                lemma_run_smaller_cap(src, n, m, p, s, o);
            }
        },
        _ => {},
    }
}

/// Overrun detection: a stream that decodes with room for `n` bytes fails
/// with an output overrun when the room declared is any smaller `m`.
pub proof fn lemma_smaller_length_overruns(src: Seq<u8>, n: int, m: int)
    requires
        0 <= m < n,
        decode(src, n) is Ok,
    ensures
        decode(src, m) == Err::<Seq<u8>, Error>(Error::OutputOverrun),
{
    if src.len() > 0 && src[0] > 17 {
        let t = src[0] - 17;
        let st = if t < 4 {
            t
        } else {
            4
        };
        match lit_spec(src, 1, t, seq![], n) {
            Ok((p, o)) => {
                if o.len() <= m {
                    lemma_run_smaller_cap(src, n, m, p, st, o);
                }
            },
            Err(_) => {},
        }
    } else {
        lemma_run_smaller_cap(src, n, m, 0, 0, seq![]);
    }
}

} // verus!
