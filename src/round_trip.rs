//! Laws that tie what the compressor writes to what the decoder reads.
use vstd::prelude::*;

use crate::decoder::{
    copied, decode, ext_spec, finish_spec, lemma_copied_len, lit_spec, run, step_spec,
};
use crate::encoder::{
    end_marker, ext_bytes, literal_header, literal_stream, match_bytes, BLOCK_SIZE,
};
use crate::error::Error;

verus! {

/// A length extension written for `m` reads back as `m` more than the base
/// it starts from, and ends right after its last byte.
pub proof fn lemma_ext_decodes(s: Seq<u8>, q: int, base: int, m: int)
    requires
        0 <= q,
        0 <= base,
        1 <= m,
        base + m < usize::MAX - 1024,
        q + ext_bytes(m).len() <= s.len(),
        forall|i: int| 0 <= i < ext_bytes(m).len() ==> s[q + i] == #[trigger] ext_bytes(m)[i],
    ensures
        ext_spec(s, q, base) == Ok::<(int, int), Error>((base + m, q + ext_bytes(m).len())),
    decreases m,
{
    let k = (m - 1) / 255;
    assert(ext_bytes(m).len() == k + 1);
    if k == 0 {
        assert(s[q] == ext_bytes(m)[0]);
    } else {
        assert(s[q] == ext_bytes(m)[0]);
        assert(ext_bytes(m - 255).len() == k);
        assert forall|i: int| 0 <= i < ext_bytes(m - 255).len() implies s[q + 1 + i]
            == #[trigger] ext_bytes(m - 255)[i] by {
            assert(s[q + (i + 1)] == ext_bytes(m)[i + 1]);
        }
        lemma_ext_decodes(s, q + 1, base + 255, m - 255);
    }
}

/// Round trip for inputs written as one opening literal run: their stream
/// decodes back to exactly the input.
#[verifier::rlimit(40)]
pub proof fn lemma_short_round_trip(x: Seq<u8>)
    requires
        x.len() <= 238,
    ensures
        decode(literal_stream(x), x.len() as int) == Ok::<Seq<u8>, Error>(x),
{
    reveal(step_spec);
    let s = literal_stream(x);
    let n = x.len() as int;
    if n == 0 {
        assert(s[0] == 17);
        assert(run(s, 0, 0, 0, seq![]) == Ok::<Seq<u8>, Error>(seq![]));
        assert(x =~= seq![]);
    } else {
        assert(s[0] == 17 + n);
        assert(s.subrange(1, 1 + n) =~= x);
        assert(seq![] + x =~= x);
        let st = if n < 4 {
            n
        } else {
            4
        };
        assert(s[1 + n] == 17 && s[2 + n] == 0 && s[3 + n] == 0);
        assert(run(s, n, 1 + n, st, x) == Ok::<Seq<u8>, Error>(x));
    }
}

proof fn lemma_near_copy_decodes(
    s: Seq<u8>,
    cap: int,
    p: int,
    state: int,
    out: Seq<u8>,
    m_off: int,
    m_len: int,
    tr: int,
)
    requires
        0 <= p,
        p + 2 <= s.len(),
        1 <= m_off <= 2048,
        4 <= m_len <= 8,
        0 <= tr < 4,
        s[p] == (m_len - 1) * 32 + ((m_off - 1) % 8) * 4 + tr,
        s[p + 1] == ((m_off - 1) / 8) as u8,
    ensures
        step_spec(s, cap, p, state, out) == finish_spec(s, p + 2, m_off, m_len, out, cap),
{
    reveal(step_spec);
    let o = m_off - 1;
    let t = (m_len - 1) * 32 + (o % 8) * 4 + tr;
    assert(t / 4 % 8 == o % 8 && t / 32 == m_len - 1 && 64 <= t < 256) by (nonlinear_arith)
        requires
            t == (m_len - 1) * 32 + (o % 8) * 4 + tr,
            4 <= m_len <= 8,
            0 <= o,
            0 <= tr < 4,
    ;
    assert(s[p] == t);
    assert(s[p + 1] == o / 8);
    assert(1 + o % 8 + 8 * (o / 8) == m_off);
}

proof fn lemma_mid_copy_decodes(
    s: Seq<u8>,
    cap: int,
    p: int,
    state: int,
    out: Seq<u8>,
    m_off: int,
    m_len: int,
    q: int,
    tr: int,
)
    requires
        0 <= p,
        q + 2 <= s.len(),
        0 <= tr < 4,
        1 <= m_off <= 16384,
        4 <= m_len < BLOCK_SIZE,
        m_len <= 33 ==> s[p] == (32 + m_len - 2) as u8 && q == p + 1,
        m_len > 33 ==> s[p] == 32 && ext_spec(s, p + 1, 31) == Ok::<(int, int), Error>(
            (m_len - 2, q),
        ),
        s[q] == ((m_off - 1) % 64) * 4 + tr,
        s[q + 1] == ((m_off - 1) / 64) as u8,
    ensures
        step_spec(s, cap, p, state, out) == finish_spec(s, q + 2, m_off, m_len, out, cap),
{
    reveal(step_spec);
    let o = m_off - 1;
    let v = (o % 64) * 4 + tr + 256 * (o / 64);
    assert(s[q] + 256 * s[q + 1] == v);
    assert(v / 4 == o);
}

proof fn lemma_far_copy_decodes(
    s: Seq<u8>,
    cap: int,
    p: int,
    state: int,
    out: Seq<u8>,
    m_off: int,
    m_len: int,
    q: int,
    tr: int,
)
    requires
        0 <= p,
        q + 2 <= s.len(),
        0 <= tr < 4,
        16384 < m_off < BLOCK_SIZE,
        4 <= m_len < BLOCK_SIZE,
        m_len <= 9 ==> s[p] == (16 + ((m_off - 16384) / 16384) * 8 + m_len - 2) as u8 && q == p
            + 1,
        m_len > 9 ==> s[p] == (16 + ((m_off - 16384) / 16384) * 8) as u8 && ext_spec(
            s,
            p + 1,
            7,
        ) == Ok::<(int, int), Error>((m_len - 2, q)),
        s[q] == ((m_off - 16384) % 64) * 4 + tr,
        s[q + 1] == (((m_off - 16384) / 64) % 256) as u8,
    ensures
        step_spec(s, cap, p, state, out) == finish_spec(s, q + 2, m_off, m_len, out, cap),
{
    reveal(step_spec);
    let o = m_off - 16384;
    let hi = (o / 16384) * 8;
    let v = (o % 64) * 4 + tr + 256 * ((o / 64) % 256);
    assert(s[q] + 256 * s[q + 1] == v);
    assert(16384 * ((o / 16384) % 2) + v / 4 == o) by (nonlinear_arith)
        requires
            v == (o % 64) * 4 + tr + 256 * ((o / 64) % 256),
            0 <= o < 32768,
            0 <= tr < 4,
    ;
    assert(((16 + hi) / 8) % 2 == o / 16384);
    assert(m_len <= 9 ==> ((16 + hi + m_len - 2) / 8) % 2 == o / 16384);
}

/// Each copy instruction that the compressor writes reads back, in any
/// decoder state, as the copy of `m_len` bytes from `m_off` back that it was
/// written for, also once the count `tr` of trailing literals has been added
/// into the low two bits of its last byte but one.
pub proof fn lemma_match_decodes(
    s: Seq<u8>,
    cap: int,
    p: int,
    state: int,
    out: Seq<u8>,
    m_off: int,
    m_len: int,
    tr: int,
)
    requires
        0 <= p,
        1 <= m_off < BLOCK_SIZE,
        4 <= m_len < BLOCK_SIZE,
        0 <= tr < 4,
        p + match_bytes(m_off, m_len).len() <= s.len(),
        forall|i: int|
            0 <= i < match_bytes(m_off, m_len).len() && i != match_bytes(m_off, m_len).len() - 2
                ==> s[p + i] == #[trigger] match_bytes(m_off, m_len)[i],
        s[p + match_bytes(m_off, m_len).len() - 2] == match_bytes(m_off, m_len)[match_bytes(
            m_off,
            m_len,
        ).len() - 2] + tr,
    ensures
        step_spec(s, cap, p, state, out) == finish_spec(
            s,
            p + match_bytes(m_off, m_len).len(),
            m_off,
            m_len,
            out,
            cap,
        ),
{
    let mb = match_bytes(m_off, m_len);
    let n = mb.len();
    if m_len <= 8 && m_off <= 2048 {
        assert(s[p + 1] == mb[1]);
        lemma_near_copy_decodes(s, cap, p, state, out, m_off, m_len, tr);
    } else {
        assert(s[p] == mb[0]);
        assert(s[p + n - 1] == mb[n - 1]);
        let long = if m_off <= 16384 {
            m_len > 33
        } else {
            m_len > 9
        };
        let base = if m_off <= 16384 {
            31int
        } else {
            7int
        };
        let extra = if m_off <= 16384 {
            m_len - 33
        } else {
            m_len - 9
        };
        if long {
            let e = ext_bytes(extra);
            assert forall|i: int| 0 <= i < e.len() implies s[p + 1 + i] == #[trigger] e[i] by {
                assert(s[p + (1 + i)] == mb[1 + i]);
            }
            lemma_ext_decodes(s, p + 1, base, extra);
        }
        if m_off <= 16384 {
            lemma_mid_copy_decodes(s, cap, p, state, out, m_off, m_len, p + n - 2, tr);
        } else {
            lemma_far_copy_decodes(s, cap, p, state, out, m_off, m_len, p + n - 2, tr);
        }
    }
}

/// The header that the compressor writes for a run of `t >= 4` literals reads
/// back, after a copy with no trailing literals, as a run of exactly `t`
/// literals that starts right after it.
pub proof fn lemma_literal_run_decodes(s: Seq<u8>, cap: int, p: int, out: Seq<u8>, t: int)
    requires
        0 <= p,
        4 <= t < usize::MAX - 2048,
        p + literal_header(t).len() <= s.len(),
        forall|i: int| 0 <= i < literal_header(t).len() ==> s[p + i] == #[trigger] literal_header(
            t,
        )[i],
    ensures
        step_spec(s, cap, p, 0, out) == match lit_spec(
            s,
            p + literal_header(t).len(),
            t,
            out,
            cap,
        ) {
            Ok((p2, o)) => Ok::<(Option<(int, int)>, Seq<u8>), Error>((Some((p2, 4)), o)),
            Err(e) => Err(e),
        },
{
    reveal(step_spec);
    let h = literal_header(t);
    assert(s[p] == h[0]);
    if t > 18 {
        let e = ext_bytes(t - 18);
        assert forall|i: int| 0 <= i < e.len() implies s[p + 1 + i] == #[trigger] e[i] by {
            assert(s[p + (1 + i)] == h[1 + i]);
        }
        lemma_ext_decodes(s, p + 1, 15, t - 18);
    }
}

/// A copy from `d` back reproduces the next `l` bytes of `x` whenever each of
/// them equals the byte `d` before it: this is how a verified match, even one
/// that overlaps itself, rebuilds the input.
pub proof fn lemma_copy_reproduces(x: Seq<u8>, i: int, d: int, l: nat)
    requires
        1 <= d <= i,
        i + l <= x.len(),
        forall|k: int| 0 <= k < l ==> x[i + k] == #[trigger] x[i + k - d],
    ensures
        copied(x.subrange(0, i), d, l) == x.subrange(0, i + l),
    decreases l,
{
    if l > 0 {
        lemma_copy_reproduces(x, i, d, (l - 1) as nat);
        let o = x.subrange(0, i + l - 1);
        assert(x[i + (l - 1)] == x[i + (l - 1) - d]);
        assert(o.push(o[o.len() - d]) =~= x.subrange(0, i + l));
    }
}

/// What the proof of the compressor tracks of the stream written so far: the
/// last copy instruction, where it starts, the decoder state before it, and
/// how many input bytes are decoded before it.
pub struct Trail {
    pub has_match: bool,
    pub mpos: int,
    pub mstate: int,
    pub mcov: int,
    pub m_off: int,
    pub m_len: int,
}

impl Trail {
    /// Input bytes that the stream written so far decodes to.
    pub open spec fn covered(self) -> int {
        if self.has_match {
            self.mcov + self.m_len
        } else {
            0
        }
    }
}

/// `s` holds the first `upto` bytes of `out`.
pub open spec fn agrees_upto(s: Seq<u8>, out: Seq<u8>, upto: int) -> bool {
    &&& 0 <= upto <= s.len()
    &&& upto <= out.len()
    &&& forall|k: int| 0 <= k < upto ==> s[k] == out[k]
}

/// The stream `out` written so far for input `x`: empty before the first
/// copy; after it, it ends with that copy, which reproduces input, and every
/// stream that starts as `out` does up to that copy decodes, up to there, to
/// the input before it.
pub open spec fn enc_inv(out: Seq<u8>, x: Seq<u8>, g: Trail) -> bool {
    if !g.has_match {
        out.len() == 0
    } else {
        let mb = match_bytes(g.m_off, g.m_len);
        &&& 0 <= g.mpos
        &&& g.mpos + mb.len() == out.len()
        &&& out.subrange(g.mpos, out.len() as int) == mb
        &&& 1 <= g.m_off <= g.mcov
        &&& g.m_off < BLOCK_SIZE
        &&& 4 <= g.m_len < BLOCK_SIZE
        &&& g.mcov + g.m_len <= x.len()
        &&& forall|k: int|
            0 <= k < g.m_len ==> x[g.mcov + k] == #[trigger] x[g.mcov + k - g.m_off]
        &&& 0 <= g.mstate <= 4
        &&& forall|s: Seq<u8>| #[trigger]
            agrees_upto(s, out, g.mpos) ==> decode(s, x.len() as int) == run(
                s,
                x.len() as int,
                g.mpos,
                g.mstate,
                x.subrange(0, g.mcov),
            )
    }
}

/// The byte of a copy instruction that carries its trailing literal count
/// has its low two bits clear and room for that count.
pub proof fn lemma_match_trail_byte(m_off: int, m_len: int)
    requires
        1 <= m_off < BLOCK_SIZE,
        4 <= m_len,
    ensures
        match_bytes(m_off, m_len).len() >= 2,
        match_bytes(m_off, m_len)[match_bytes(m_off, m_len).len() - 2] % 4 == 0,
        match_bytes(m_off, m_len)[match_bytes(m_off, m_len).len() - 2] <= 252,
{
    let mb = match_bytes(m_off, m_len);
    if m_len <= 8 && m_off <= 2048 {
        let o = m_off - 1;
        assert(((m_len - 1) * 32 + (o % 8) * 4) % 4 == 0) by (nonlinear_arith)
            requires
                4 <= m_len <= 8,
                0 <= o,
        ;
    }
}

/// Where a run of `t` literals after the stream `out` starts: up to three
/// follow the last copy at once, more come after a header.
pub open spec fn lits_start(out: Seq<u8>, g: Trail, t: int) -> int {
    if g.has_match && t <= 3 {
        out.len() as int
    } else {
        (out.len() + literal_header(t).len()) as int
    }
}

/// The decoder state after a run of `t` literals that follows `out`.
pub open spec fn state_after(g: Trail, t: int) -> int {
    if g.has_match && t <= 3 {
        t
    } else {
        4
    }
}

/// `s` continues the stream `out` with the next `t` literals of `x`: up to
/// three are counted in the trail byte of the last copy, more take a header.
pub open spec fn continues(s: Seq<u8>, out: Seq<u8>, x: Seq<u8>, g: Trail, t: int) -> bool {
    let r = lits_start(out, g, t);
    &&& r + t <= s.len()
    &&& forall|k: int| 0 <= k < t ==> s[r + k] == #[trigger] x[g.covered() + k]
    &&& g.has_match ==> {
        &&& forall|k: int| 0 <= k < out.len() && k != out.len() - 2 ==> s[k] == out[k]
        &&& s[out.len() - 2] == out[out.len() - 2] + if t <= 3 {
            t
        } else {
            0
        }
    }
    &&& !(g.has_match && t <= 3) ==> forall|k: int|
        0 <= k < literal_header(t).len() ==> s[out.len() + k] == #[trigger] literal_header(t)[k]
}

/// A stream that continues `out` with the next `t` literals decodes, up to
/// the end of those literals, to the input up to there.
#[verifier::rlimit(80)]
pub proof fn lemma_literals_after(out: Seq<u8>, x: Seq<u8>, g: Trail, t: int, s: Seq<u8>)
    requires
        enc_inv(out, x, g),
        0 <= t,
        g.covered() + t <= x.len(),
        x.len() < usize::MAX - 4096,
        !g.has_match ==> t >= 4,
        continues(s, out, x, g, t),
    ensures
        decode(s, x.len() as int) == run(
            s,
            x.len() as int,
            lits_start(out, g, t) + t,
            state_after(g, t),
            x.subrange(0, g.covered() + t),
        ),
{
    let n = x.len() as int;
    let cov = g.covered();
    let r = lits_start(out, g, t);
    assert forall|k: int| 0 <= k < t implies #[trigger] s.subrange(r, r + t)[k] == x.subrange(
        cov,
        cov + t,
    )[k] by {
        assert(s[r + k] == x[g.covered() + k]);
    }
    assert(s.subrange(r, r + t) =~= x.subrange(cov, cov + t));
    assert(x.subrange(0, cov) + x.subrange(cov, cov + t) =~= x.subrange(0, cov + t));
    if g.has_match {
        let mb = match_bytes(g.m_off, g.m_len);
        let len = mb.len() as int;
        let q = g.mpos + len;
        let tr = if t <= 3 {
            t
        } else {
            0
        };
        lemma_match_trail_byte(g.m_off, g.m_len);
        assert(agrees_upto(s, out, g.mpos));
        assert forall|i: int| 0 <= i < len && i != len - 2 implies s[g.mpos + i] == #[trigger] mb[i] by {
            assert(out[g.mpos + i] == out.subrange(g.mpos, out.len() as int)[i]);
        }
        assert(out[q - 2] == mb[len - 2]) by {
            assert(out[g.mpos + (len - 2)] == out.subrange(g.mpos, out.len() as int)[len - 2]);
        }
        let before = x.subrange(0, g.mcov);
        lemma_match_decodes(s, n, g.mpos, g.mstate, before, g.m_off, g.m_len, tr);
        lemma_copy_reproduces(x, g.mcov, g.m_off, g.m_len as nat);
        lemma_copied_len(before, g.m_off, g.m_len as nat);
        assert(s[q - 2] % 4 == tr);
        assert(s.subrange(q, q + tr) =~= x.subrange(cov, cov + tr));
        assert(x.subrange(0, cov) + x.subrange(cov, cov + tr) =~= x.subrange(0, cov + tr));
        assert(step_spec(s, n, g.mpos, g.mstate, before) == Ok::<
            (Option<(int, int)>, Seq<u8>),
            Error,
        >((Some((q + tr, tr)), x.subrange(0, cov + tr))));
        assert(run(s, n, g.mpos, g.mstate, before) == run(s, n, q + tr, tr, x.subrange(0, cov + tr)));
        if t >= 4 {
            lemma_literal_run_decodes(s, n, q, x.subrange(0, cov), t);
            assert(run(s, n, q, 0, x.subrange(0, cov)) == run(s, n, r + t, 4, x.subrange(0, cov + t)));
        }
    } else {
        assert(literal_header(t)[0] == s[0]);
        assert(decode(s, n) == run(s, n, 0, 0, seq![]));
        assert(x.subrange(0, 0) =~= seq![]);
        lemma_literal_run_decodes(s, n, 0, seq![], t);
        assert(seq![] + x.subrange(0, t) =~= x.subrange(0, t));
        assert(run(s, n, 0, 0, seq![]) == run(s, n, r + t, 4, x.subrange(0, t)));
    }
}

/// The stream `out` followed by the next `t` literals of `x`, as the
/// compressor writes them.
pub open spec fn with_literals(out: Seq<u8>, x: Seq<u8>, g: Trail, t: int) -> Seq<u8> {
    let lits = x.subrange(g.covered(), g.covered() + t);
    if g.has_match && t <= 3 {
        out.update(out.len() - 2, (out[out.len() - 2] + t) as u8) + lits
    } else {
        out + literal_header(t) + lits
    }
}

/// Writing the next `t` literals and then a copy that reproduces input keeps
/// the invariant, with that copy as the last one.
pub proof fn lemma_copy_step(out: Seq<u8>, x: Seq<u8>, g: Trail, t: int, m_off: int, m_len: int)
    requires
        enc_inv(out, x, g),
        0 <= t,
        x.len() < usize::MAX - 4096,
        !g.has_match ==> t >= 4,
        1 <= m_off <= g.covered() + t,
        m_off < BLOCK_SIZE,
        4 <= m_len < BLOCK_SIZE,
        g.covered() + t + m_len <= x.len(),
        forall|k: int|
            0 <= k < m_len ==> x[g.covered() + t + k] == #[trigger] x[g.covered() + t + k - m_off],
    ensures
        enc_inv(
            with_literals(out, x, g, t) + match_bytes(m_off, m_len),
            x,
            Trail {
                has_match: true,
                mpos: lits_start(out, g, t) + t,
                mstate: state_after(g, t),
                mcov: g.covered() + t,
                m_off,
                m_len,
            },
        ),
{
    let w = with_literals(out, x, g, t);
    let out2 = w + match_bytes(m_off, m_len);
    let p = lits_start(out, g, t) + t;
    let cov = g.covered();
    if g.has_match {
        lemma_match_trail_byte(g.m_off, g.m_len);
        let mb = match_bytes(g.m_off, g.m_len);
        assert(out[out.len() - 2] == mb[mb.len() - 2]) by {
            assert(out[g.mpos + (mb.len() - 2)] == out.subrange(g.mpos, out.len() as int)[mb.len()
                - 2]);
        }
    }
    assert(w.len() == p);
    assert(out2.subrange(p, out2.len() as int) =~= match_bytes(m_off, m_len));
    assert forall|s: Seq<u8>| #[trigger] agrees_upto(s, out2, p) implies decode(s, x.len() as int)
        == run(s, x.len() as int, p, state_after(g, t), x.subrange(0, cov + t)) by {
        assert forall|k: int| 0 <= k < p implies s[k] == #[trigger] w[k] by {
            assert(s[k] == out2[k]);
        }
        assert forall|k: int| 0 <= k < t implies s[lits_start(out, g, t) + k] == #[trigger] x[g.covered() + k] by {
            assert(s[lits_start(out, g, t) + k] == w[lits_start(out, g, t) + k]);
        }
        if g.has_match {
            assert forall|k: int| 0 <= k < out.len() && k != out.len() - 2 implies s[k] == out[k] by {
                assert(s[k] == w[k]);
            }
            assert(s[out.len() - 2] == w[out.len() - 2]);
        }
        if !(g.has_match && t <= 3) {
            assert forall|k: int| 0 <= k < literal_header(t).len() implies s[out.len() + k] == #[trigger] literal_header(t)[k] by {
                assert(s[out.len() + k] == w[out.len() + k]);
            }
        }
        lemma_literals_after(out, x, g, t, s);
    }
}

/// The end marker, where the output is exactly full and the stream ends,
/// finishes decoding with that output, in any state.
pub proof fn lemma_marker_ends(s: Seq<u8>, cap: int, p: int, state: int, out: Seq<u8>)
    requires
        0 <= p,
        s.len() == p + 3,
        s[p] == 17 && s[p + 1] == 0 && s[p + 2] == 0,
        out.len() == cap,
    ensures
        run(s, cap, p, state, out) == Ok::<Seq<u8>, Error>(out),
{
    reveal(step_spec);
    assert(step_spec(s, cap, p, state, out) == Ok::<(Option<(int, int)>, Seq<u8>), Error>(
        (None, out),
    ));
}

/// The whole stream as the compressor finishes it, once the last `t` input
/// bytes are left: an input with no copy and at most 238 bytes opens with a
/// literal run; otherwise the literals follow as usual. The end marker closes.
pub open spec fn finished(out: Seq<u8>, x: Seq<u8>, g: Trail, t: int) -> Seq<u8> {
    if !g.has_match && t <= 238 {
        literal_stream(x)
    } else {
        with_literals(out, x, g, t) + end_marker()
    }
}

/// The finished stream decodes to exactly the input.
pub proof fn lemma_finished_decodes(out: Seq<u8>, x: Seq<u8>, g: Trail, t: int)
    requires
        enc_inv(out, x, g),
        0 <= t,
        g.covered() + t == x.len(),
        x.len() < usize::MAX - 4096,
    ensures
        decode(finished(out, x, g, t), x.len() as int) == Ok::<Seq<u8>, Error>(x),
{
    if !g.has_match && t <= 238 {
        lemma_short_round_trip(x);
    } else {
        let w = with_literals(out, x, g, t);
        let s = w + end_marker();
        let p = lits_start(out, g, t) + t;
        let cov = g.covered();
        if g.has_match {
            lemma_match_trail_byte(g.m_off, g.m_len);
        }
        assert(w.len() == p);
        assert forall|k: int| 0 <= k < t implies s[lits_start(out, g, t) + k] == #[trigger] x[g.covered() + k] by {
            assert(s[lits_start(out, g, t) + k] == w[lits_start(out, g, t) + k]);
        }
        if g.has_match {
            assert forall|k: int| 0 <= k < out.len() && k != out.len() - 2 implies s[k] == out[k] by {
                assert(s[k] == w[k]);
            }
            assert(s[out.len() - 2] == w[out.len() - 2]);
        }
        if !(g.has_match && t <= 3) {
            assert forall|k: int| 0 <= k < literal_header(t).len() implies s[out.len() + k] == #[trigger] literal_header(t)[k] by {
                assert(s[out.len() + k] == w[out.len() + k]);
            }
        }
        lemma_literals_after(out, x, g, t, s);
        assert(x.subrange(0, x.len() as int) =~= x);
        assert(s[p] == 17 && s[p + 1] == 0 && s[p + 2] == 0);
        lemma_marker_ends(s, x.len() as int, p, state_after(g, t), x);
    }
}

} // verus!
