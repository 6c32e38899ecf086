//! The LZO1X-1 compressor: a greedy match finder over a hash of four-byte
//! windows, emitting literal runs and copy instructions.
use vstd::prelude::*;

use crate::decoder::{decode, lemma_smaller_length_overruns};
use crate::error::Error;
use crate::round_trip::{
    enc_inv, finished, lemma_copy_step, lemma_finished_decodes, lemma_match_trail_byte,
    lits_start, state_after, with_literals, Trail,
};

verus! {

/// Largest block that one pass of the match finder covers; positions inside
/// a block fit the 16-bit slots of the match index.
pub const BLOCK_SIZE: usize = 49152;

/// Number of slots of the match index.
pub const DICT_SIZE: usize = 16384;

/// Inputs up to this length, and the tail of every block, are never searched
/// for matches.
pub const TAIL_MARGIN: usize = 20;

/// The four bytes at `i` as a little-endian integer.
pub open spec fn le32_at(s: Seq<u8>, i: int) -> int {
    s[i] + 256 * s[i + 1] + 65536 * s[i + 2] + 16777216 * s[i + 3]
}

/// Slot of the match index for a four-byte window: the top fourteen bits of a
/// 32-bit multiplicative hash.
pub open spec fn dict_index(dv: int) -> int {
    ((0x1824429d * dv) % 0x1_0000_0000) / 0x40000
}

/// The end-of-stream marker: a far copy of distance zero.
pub open spec fn end_marker() -> Seq<u8> {
    seq![17u8, 0u8, 0u8]
}

/// A length extension for `m`: one zero byte per 255 above the last byte,
/// then that last byte, which is never zero.
pub open spec fn ext_bytes(m: int) -> Seq<u8> {
    Seq::new(((m - 1) / 255) as nat, |_i: int| 0u8).push(((m - 1) % 255 + 1) as u8)
}

/// The bytes of a copy of `m_len` bytes from `m_off` back: a near copy when
/// both are small, a mid-range copy up to 16 KiB back, a far copy beyond.
pub open spec fn match_bytes(m_off: int, m_len: int) -> Seq<u8> {
    if m_len <= 8 && m_off <= 2048 {
        let o = m_off - 1;
        seq![((m_len - 1) * 32 + (o % 8) * 4) as u8, (o / 8) as u8]
    } else if m_off <= 16384 {
        let o = m_off - 1;
        (if m_len <= 33 {
            seq![(32 + m_len - 2) as u8]
        } else {
            seq![32u8] + ext_bytes(m_len - 33)
        }) + seq![((o % 64) * 4) as u8, (o / 64) as u8]
    } else {
        let o = m_off - 16384;
        let hi = (o / 16384) * 8;
        (if m_len <= 9 {
            seq![(16 + hi + m_len - 2) as u8]
        } else {
            seq![(16 + hi) as u8] + ext_bytes(m_len - 9)
        }) + seq![((o % 64) * 4) as u8, ((o / 64) % 256) as u8]
    }
}

/// The header of a run of `t >= 4` literals after a copy with no trailing
/// literals: up to eighteen take one byte, a longer run takes a zero byte and
/// a length extension.
pub open spec fn literal_header(t: int) -> Seq<u8> {
    if t <= 18 {
        seq![(t - 3) as u8]
    } else {
        seq![0u8] + ext_bytes(t - 18)
    }
}

/// The stream for an input too short to search: a header byte that counts
/// the input, the input itself as literals, and the end marker.
pub open spec fn literal_stream(x: Seq<u8>) -> Seq<u8> {
    if x.len() == 0 {
        end_marker()
    } else {
        seq![(17 + x.len()) as u8] + x + end_marker()
    }
}

proof fn lemma_base256(a: int, r: int)
    requires
        0 <= a < 256,
        0 <= r,
    ensures
        (a + 256 * r) % 256 == a,
        (a + 256 * r) / 256 == r,
{
    assert((a + 256 * r) % 256 == a && (a + 256 * r) / 256 == r) by (nonlinear_arith)
        requires
            0 <= a < 256,
            0 <= r,
    ;
}

/// Equal four-byte window values come from equal bytes.
proof fn lemma_le32_bytes(s: Seq<u8>, i: int, j: int)
    requires
        0 <= i,
        0 <= j,
        i + 4 <= s.len(),
        j + 4 <= s.len(),
        le32_at(s, i) == le32_at(s, j),
    ensures
        forall|k: int| 0 <= k < 4 ==> #[trigger] s[i + k] == s[j + k],
{
    let a = le32_at(s, i);
    lemma_base256(s[i + 3] as int, 0);
    lemma_base256(s[i + 2] as int, s[i + 3] as int);
    lemma_base256(s[i + 1] as int, s[i + 2] + 256 * s[i + 3]);
    lemma_base256(s[i] as int, s[i + 1] + 256 * (s[i + 2] + 256 * s[i + 3]));
    lemma_base256(s[j + 3] as int, 0);
    lemma_base256(s[j + 2] as int, s[j + 3] as int);
    lemma_base256(s[j + 1] as int, s[j + 2] + 256 * s[j + 3]);
    lemma_base256(s[j] as int, s[j + 1] + 256 * (s[j + 2] + 256 * s[j + 3]));
    assert(s[i] + 256 * (s[i + 1] + 256 * (s[i + 2] + 256 * s[i + 3])) == le32_at(s, i));
    assert(s[j] + 256 * (s[j + 1] + 256 * (s[j + 2] + 256 * s[j + 3])) == le32_at(s, j));
    assert(s[i + 0] == s[j + 0]);
}

/// Reads the four bytes at `i` as a little-endian integer.
fn read_le32(src: &[u8], i: usize) -> (r: u32)
    requires
        i + 4 <= src@.len(),
    ensures
        r == le32_at(src@, i as int),
{
    src[i] as u32 + 256 * src[i + 1] as u32 + 65536 * src[i + 2] as u32 + 16777216 * src[i
        + 3] as u32
}

/// The slot of the match index for the window value `dv`.
fn hash_index(dv: u32) -> (r: usize)
    ensures
        r == dict_index(dv as int),
        r < DICT_SIZE,
{
    assert(0x1824429d * (dv as int) < 0x4000_0000_0000_0000) by (nonlinear_arith)
        requires
            dv < 0x1_0000_0000,
    ;
    let p: u64 = 0x1824429du64 * dv as u64;
    let h = (p % 0x1_0000_0000) / 0x40000;
    assert(h < 16384) by (nonlinear_arith)
        requires
            h == (p % 0x1_0000_0000) / 0x40000,
    ;
    h as usize
}

/// Appends `src[from..to]`.
fn emit_literals(src: &[u8], out: &mut Vec<u8>, from: usize, to: usize)
    requires
        from <= to <= src@.len(),
    ensures
        final(out)@ == old(out)@ + src@.subrange(from as int, to as int),
{
    let ghost start = out@;
    let mut i: usize = from;
    while i < to
        invariant
            from <= i <= to,
            to <= src@.len(),
            out@ == start + src@.subrange(from as int, i as int),
        decreases to - i,
    {
        out.push(src[i]);
        i = i + 1;
        proof {
            assert(src@.subrange(from as int, i as int) == src@.subrange(from as int, i - 1).push(
                src@[i - 1],
            ));
        }
    }
}

/// Appends a length extension for `m`: one zero byte per 255 above the last
/// byte, then that last byte, which is never zero.
fn emit_ext(out: &mut Vec<u8>, m: usize)
    requires
        m >= 1,
    ensures
        final(out)@ == old(out)@ + ext_bytes(m as int),
        final(out)@.len() == old(out)@.len() + 1 + (m - 1) / 255,
{
    let ghost start = out@;
    let ghost m0 = m as int;
    let mut m = m;
    while m > 255
        invariant
            m >= 1,
            out@.len() >= start.len(),
            (m0 - 1) / 255 == (out@.len() - start.len()) + (m - 1) / 255,
            (m0 - 1) % 255 == (m - 1) % 255,
            out@ == start + Seq::new((out@.len() - start.len()) as nat, |_i: int| 0u8),
        decreases m,
    {
        m = m - 255;
        out.push(0);
        proof {
            assert(out@ =~= start + Seq::new((out@.len() - start.len()) as nat, |_i: int| 0u8));
        }
    }
    out.push(m as u8);
    proof {
        assert((m - 1) / 255 == 0);
        assert(out@ =~= start + ext_bytes(m0));
    }
}

/// Writes the header of a run of `t` literals: up to three ride in the low
/// two bits of the byte two places back, up to eighteen take one byte, and a
/// longer run takes a zero byte and a length extension.
fn emit_literal_header(out: &mut Vec<u8>, t: usize)
    requires
        t >= 1,
    ensures
        old(out)@.len() <= final(out)@.len() <= old(out)@.len() + 1 + t / 16,
        t >= 4 ==> final(out)@ == old(out)@ + literal_header(t as int),
        t <= 3 && old(out)@.len() >= 2 && old(out)@[old(out)@.len() - 2] % 4 == 0 && old(
            out,
        )@[old(out)@.len() - 2] <= 252 ==> final(out)@ == old(out)@.update(
            old(out)@.len() - 2,
            (old(out)@[old(out)@.len() - 2] + t) as u8,
        ),
{
    if t <= 3 {
        if out.len() >= 2 {
            let i = out.len() - 2;
            let b = out[i];
            let c = t as u8;
            if b % 4 == 0 && b <= 252 {
                assert(b | c == b + c) by (bit_vector)
                    requires
                        b % 4 == 0,
                        b <= 252,
                        c < 4,
                ;
            }
            out.set(i, b | c);
        }
    } else if t <= 18 {
        out.push((t - 3) as u8);
    } else {
        out.push(0);
        emit_ext(out, t - 18);
        assert(1 + (t - 19) / 255 <= t / 16);
    }
}

/// Writes a copy instruction of `m_len` bytes from `m_off` back: a near copy
/// when both are small, a mid-range copy up to 16 KiB back, a far copy beyond.
fn emit_match(out: &mut Vec<u8>, m_off: usize, m_len: usize)
    requires
        1 <= m_off < BLOCK_SIZE,
        m_len >= 4,
    ensures
        old(out)@.len() + 2 <= final(out)@.len() <= old(out)@.len() + m_len - 1,
        final(out)@ == old(out)@ + match_bytes(m_off as int, m_len as int),
{
    let ghost start = out@;
    if m_len <= 8 && m_off <= 2048 {
        let o = m_off - 1;
        out.push(((m_len - 1) * 32 + (o % 8) * 4) as u8);
        out.push((o / 8) as u8);
    } else if m_off <= 16384 {
        let o = m_off - 1;
        if m_len <= 33 {
            out.push((32 + m_len - 2) as u8);
        } else {
            out.push(32);
            emit_ext(out, m_len - 33);
        }
        out.push(((o % 64) * 4) as u8);
        out.push((o / 64) as u8);
    } else {
        let o = m_off - 16384;
        let hi = (o / 16384) * 8;
        if m_len <= 9 {
            out.push((16 + hi + m_len - 2) as u8);
        } else {
            out.push((16 + hi) as u8);
            emit_ext(out, m_len - 9);
        }
        out.push(((o % 64) * 4) as u8);
        out.push(((o / 64) % 256) as u8);
    }
}

/// The length of the common prefix of the eight bytes at `a` and the eight
/// bytes at `b`.
fn common_prefix8(src: &[u8], a: usize, b: usize) -> (r: usize)
    requires
        a + 8 <= src@.len(),
        b + 8 <= src@.len(),
    ensures
        r <= 8,
        forall|k: int| 0 <= k < r ==> #[trigger] src@[a + k] == src@[b + k],
        r < 8 ==> src@[a + r] != src@[b + r],
{
    let n = src.len();
    let mut k: usize = 0;
    while k < 8 && src[a + k] == src[b + k]
        invariant
            n == src@.len(),
            k <= 8,
            a + 8 <= src@.len(),
            b + 8 <= src@.len(),
            forall|j: int| 0 <= j < k ==> #[trigger] src@[a + j] == src@[b + j],
        decreases 8 - k,
    {
        k = k + 1;
    }
    k
}

/// A fresh match index: every slot points at the start of the block.
fn new_dict() -> (d: Vec<u16>)
    ensures
        d@.len() == DICT_SIZE,
        forall|k: int| 0 <= k < d@.len() ==> d@[k] == 0,
{
    let mut d: Vec<u16> = Vec::new();
    while d.len() < DICT_SIZE
        invariant
            d@.len() <= DICT_SIZE,
            forall|k: int| 0 <= k < d@.len() ==> d@[k] == 0,
        decreases DICT_SIZE - d@.len(),
    {
        d.push(0);
    }
    d
}

/// Compresses the block `src[base..base + ll]`, with the `ti` literals before
/// it still pending. Emits literal runs and copies up to the last match found
/// and yields the number of literals still pending at the block's end.
#[verifier::rlimit(60)]
fn compress_block(
    src: &[u8],
    base: usize,
    ll: usize,
    out: &mut Vec<u8>,
    ti: usize,
    g_in: Ghost<Trail>,
) -> (r: (usize, Ghost<Trail>))
    requires
        base + ll <= src@.len(),
        TAIL_MARGIN < ll <= BLOCK_SIZE,
        ti <= base,
        old(out)@.len() <= covered_bound(base - ti),
        g_in@.covered() == base - ti,
        src@.len() < usize::MAX - 4096 ==> enc_inv(old(out)@, src@, g_in@),
    ensures
        r.0 <= base + ll,
        final(out)@.len() <= covered_bound(base + ll - r.0),
        r.1@.covered() == base + ll - r.0,
        src@.len() < usize::MAX - 4096 ==> enc_inv(final(out)@, src@, r.1@),
{
    let ghost mut g = g_in@;
    let src_len = src.len();
    let in_end: usize = base + ll;
    let ip_end: usize = in_end - TAIL_MARGIN;
    let mut dict = new_dict();
    let mut ip: usize = base + 1 + if ti < 4 {
        4 - ti
    } else {
        0
    };
    // Where the skip heuristic measures the literals seen since the last match.
    let mut ii: usize = base;
    // Where the pending literals start, those carried in from earlier blocks
    // included.
    let mut lit: usize = base - ti;
    loop
        invariant_except_break
            forall|k: int| 0 <= k < DICT_SIZE ==> base + #[trigger] dict@[k] < ip,
        invariant
            src_len == src@.len(),
            ll <= BLOCK_SIZE,
            in_end == base + ll,
            in_end <= src@.len(),
            ip_end + TAIL_MARGIN == in_end,
            base < ip <= in_end,
            lit <= ii <= ip,
            base <= ii,
            out@.len() <= covered_bound(lit as int),
            dict@.len() == DICT_SIZE,
            g.covered() == lit,
            !g.has_match ==> lit + 5 <= ip,
            src@.len() < usize::MAX - 4096 ==> enc_inv(out@, src@, g),
        decreases in_end - ip,
    {
        if ip >= ip_end {
            break;
        }
        let dv = read_le32(src, ip);
        let di = hash_index(dv);
        let m_pos = base + dict[di] as usize;
        dict.set(di, (ip - base) as u16);
        if dv != read_le32(src, m_pos) {
            let step = 1 + (ip - ii) / 32;
            if step >= ip_end - ip {
                break;
            }
            ip = ip + step;
            continue;
        }
        let t = ip - lit;
        let ghost before = out@;
        proof {
            if src@.len() < usize::MAX - 4096 && g.has_match {
                lemma_match_trail_byte(g.m_off, g.m_len);
                let mb = match_bytes(g.m_off, g.m_len);
                assert(before[g.mpos + (mb.len() - 2)] == before.subrange(
                    g.mpos,
                    before.len() as int,
                )[mb.len() - 2]);
            }
        }
        if t > 0 {
            emit_literal_header(out, t);
            emit_literals(src, out, lit, ip);
        }
        proof {
            if src@.len() < usize::MAX - 4096 {
                if t == 0 {
                    assert(before.update(before.len() - 2, (before[before.len() - 2] + 0) as u8)
                        =~= before);
                }
                assert(out@ =~= with_literals(before, src@, g, t as int));
            }
            lemma_le32_bytes(src@, ip as int, m_pos as int);
            assert(src@[ip + 0] == src@[m_pos + 0]);
        }
        let mut m_len: usize = 4;
        loop
            invariant_except_break
                ip + m_len < ip_end + 4,
            invariant
                src_len == src@.len(),
                base <= m_pos < ip < ip_end,
                ip_end + TAIL_MARGIN <= src@.len(),
                ip_end <= base + BLOCK_SIZE,
                4 <= m_len,
                ip + m_len < ip_end + 12,
                forall|k: int| 0 <= k < m_len ==> #[trigger] src@[ip + k] == src@[m_pos + k],
            decreases ip_end + 12 - (ip + m_len),
        {
            let k = common_prefix8(src, ip + m_len, m_pos + m_len);
            proof {
                assert forall|j: int| 0 <= j < m_len + k implies #[trigger] src@[ip + j]
                    == src@[m_pos + j] by {
                    if j >= m_len {
                        assert(src@[(ip + m_len) + (j - m_len)] == src@[(m_pos + m_len) + (j
                            - m_len)]);
                    }
                }
            }
            if k < 8 {
                m_len = m_len + k;
                break;
            }
            m_len = m_len + 8;
            if ip + m_len >= ip_end {
                break;
            }
        }
        emit_match(out, ip - m_pos, m_len);
        proof {
            lemma_div16_add(lit as int, t as int, m_len as int);
            let m_off = (ip - m_pos) as int;
            assert forall|k: int| 0 <= k < m_len implies src@[g.covered() + t + k]
                == #[trigger] src@[g.covered() + t + k - m_off] by {
                assert(src@[ip + k] == src@[m_pos + k]);
            }
            if src@.len() < usize::MAX - 4096 {
                lemma_copy_step(before, src@, g, t as int, m_off, m_len as int);
            }
            g = Trail {
                has_match: true,
                mpos: lits_start(before, g, t as int) + t,
                mstate: state_after(g, t as int),
                mcov: g.covered() + t,
                m_off,
                m_len: m_len as int,
            };
        }
        ip = ip + m_len;
        ii = ip;
        lit = ip;
    }
    (in_end - lit, Ghost(g))
}

/// Output allowed for the first `covered` bytes of input once they are all
/// encoded: one extra byte for every sixteen.
pub open spec fn covered_bound(covered: int) -> int {
    covered + covered / 16
}

proof fn lemma_div16_add(a: int, b: int, c: int)
    requires
        0 <= a,
        0 <= b,
        0 <= c,
    ensures
        a / 16 + b / 16 <= (a + b + c) / 16,
{
    assert(a / 16 + b / 16 <= (a + b) / 16) by (nonlinear_arith)
        requires
            0 <= a,
            0 <= b,
    ;
    assert((a + b) / 16 <= (a + b + c) / 16) by (nonlinear_arith)
        requires
            0 <= a + b,
            0 <= c,
    ;
}

/// Compresses `src` into an LZO1X stream.
///
/// Never fails. The stream ends with the end marker, takes at most
/// `n + n/16 + 64 + 3` bytes for `n` input bytes, and for an input too short
/// to search is the input as one literal run. It decodes back to exactly the
/// input, and declaring any smaller length when decoding it is an output
/// overrun.
#[verifier::rlimit(60)]
pub fn compress(src: &[u8]) -> (r: Result<Vec<u8>, Error>)
    ensures
        r is Ok,
        3 <= r->Ok_0@.len() <= src@.len() + src@.len() / 16 + 64 + 3,
        r->Ok_0@.subrange(r->Ok_0@.len() - 3, r->Ok_0@.len() as int) == end_marker(),
        src@.len() <= TAIL_MARGIN ==> r->Ok_0@ == literal_stream(src@),
        src@.len() <= isize::MAX ==> decode(r->Ok_0@, src@.len() as int) == Ok::<Seq<u8>, Error>(
            src@,
        ),
        src@.len() <= isize::MAX ==> forall|m: int|
            0 <= m < src@.len() ==> #[trigger] decode(r->Ok_0@, m) == Err::<Seq<u8>, Error>(
                Error::OutputOverrun,
            ),
{
    let n = src.len();
    let mut out: Vec<u8> = Vec::new();
    let mut ip: usize = 0;
    let mut l: usize = n;
    let mut t: usize = 0;
    let ghost mut g = Trail { has_match: false, mpos: 0, mstate: 0, mcov: 0, m_off: 0, m_len: 0 };
    while l > TAIL_MARGIN
        invariant
            n == src@.len(),
            ip + l == n,
            t <= ip,
            out@.len() <= covered_bound(ip - t),
            n <= TAIL_MARGIN ==> out@.len() == 0 && ip == 0,
            g.covered() == ip - t,
            n < usize::MAX - 4096 ==> enc_inv(out@, src@, g),
        decreases l,
    {
        let ll = if l < BLOCK_SIZE {
            l
        } else {
            BLOCK_SIZE
        };
        let (pending, g_out) = compress_block(src, ip, ll, &mut out, t, Ghost(g));
        t = pending;
        proof {
            g = g_out@;
        }
        ip = ip + ll;
        l = l - ll;
    }
    t = t + l;
    let ghost before = out@;
    proof {
        lemma_div16_add((n - t) as int, t as int, 0);
        if n < usize::MAX - 4096 && g.has_match {
            lemma_match_trail_byte(g.m_off, g.m_len);
            let mb = match_bytes(g.m_off, g.m_len);
            assert(before[g.mpos + (mb.len() - 2)] == before.subrange(g.mpos, before.len() as int)[mb.len() - 2]);
        }
    }
    if t > 0 {
        if out.len() == 0 && t <= 238 {
            out.push((17 + t) as u8);
        } else {
            emit_literal_header(&mut out, t);
        }
        emit_literals(src, &mut out, n - t, n);
    }
    let ghost body = out@;
    out.push(17);
    out.push(0);
    out.push(0);
    proof {
        assert(out@ =~= body + end_marker());
        if n <= TAIL_MARGIN {
            assert(src@.subrange(0, n as int) =~= src@);
        }
        if n < usize::MAX - 4096 {
            assert(src@.subrange(0, n as int) =~= src@);
            if !g.has_match && t <= 238 {
                if t == 0 {
                    assert(body =~= seq![]);
                } else {
                    assert(body =~= seq![(17 + n) as u8] + src@);
                }
            } else {
                if t == 0 {
                    assert(before.update(before.len() - 2, (before[before.len() - 2] + 0) as u8)
                        =~= before);
                }
                assert(body =~= with_literals(before, src@, g, t as int));
            }
            assert(out@ =~= finished(before, src@, g, t as int));
            lemma_finished_decodes(before, src@, g, t as int);
            assert forall|m: int| 0 <= m < n implies #[trigger] decode(out@, m) == Err::<
                Seq<u8>,
                Error,
            >(Error::OutputOverrun) by {
                lemma_smaller_length_overruns(out@, n as int, m);
            }
        }
        assert(out@.subrange(out@.len() - 3, out@.len() as int) =~= end_marker());
    }
    Ok(out)
}

} // verus!
