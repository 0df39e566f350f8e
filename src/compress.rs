//! Streaming compression over a window of `2N` bytes.
use vstd::arithmetic::power2::pow2;
use vstd::prelude::*;

use crate::bits::{
    bits_of, bytes_bits, lemma_append_bound, lemma_bits_of_len, lemma_bytes_bits_concat,
    lemma_bytes_bits_len, padding, BitWriter,
};
use vstd::bits::{
    lemma_u32_pow2_no_overflow, lemma_u32_shl_is_mul, lemma_usize_low_bits_mask_is_mod,
    low_bits_mask,
};
use crate::error::LzssError;
use crate::model::{
    code_of, compressed, encode_from, fill_run, lemma_pack_unique, lemma_parse_n_encode,
    lookahead_at, parse_n, token_code, virtual_input,
};
use crate::params::LzssDyn;
use crate::search::{find_match, lemma_best_bounds, lemma_best_shift};
use crate::stream::{Read, Write};

verus! {

/// Reads bytes into `buffer[end..limit)` until the limit or the end of the data.
/// Returns the new end and whether the data ended.
fn fill_window<R: Read>(reader: &mut R, buffer: &mut [u8], end: usize, limit: usize) -> (res:
    Result<(usize, bool), R::Error>)
    requires
        end <= limit <= old(buffer)@.len(),
    ensures
        res matches Ok((new_end, eof)) ==> {
            let before = old(reader).consumed();
            let after = final(reader).consumed();
            &&& end <= new_end <= limit
            &&& eof || new_end == limit
            &&& final(buffer)@.len() == old(buffer)@.len()
            &&& after.len() == before.len() + (new_end - end)
            &&& final(reader).remaining() + (new_end - end) <= old(reader).remaining()
            &&& after.subrange(0, before.len() as int) == before
            &&& forall|i: int|
                0 <= i < end ==> #[trigger] final(buffer)@[i] == old(buffer)@[i]
            &&& forall|i: int|
                end <= i < new_end ==> #[trigger] final(buffer)@[i] == after[before.len() + i - end]
            &&& after.subrange(before.len() as int, after.len() as int) + final(reader).rest()
                == old(reader).rest()
            &&& eof ==> final(reader).rest().len() == 0
        },
        old(reader).never_fails() ==> res is Ok && final(reader).never_fails(),
        res matches Err(e) ==> final(reader).error() == Some(e),
{
    let ghost before = reader.consumed();
    let ghost buf0 = buffer@;
    let ghost rem0 = reader.remaining();
    let ghost nf0 = reader.never_fails();
    let ghost rest0 = reader.rest();
    let mut new_end = end;
    let mut eof = false;
    proof {
        assert(reader.consumed().subrange(before.len() as int, before.len() as int) + rest0
            =~= rest0);
    }
    while !eof && new_end < limit
        invariant
            end <= new_end <= limit <= buffer@.len(),
            buffer@.len() == buf0.len(),
            eof || new_end <= limit,
            reader.consumed().len() == before.len() + (new_end - end),
            reader.remaining() + (new_end - end) <= rem0,
            nf0 == old(reader).never_fails(),
            nf0 ==> reader.never_fails(),
            reader.consumed().subrange(0, before.len() as int) == before,
            forall|i: int| 0 <= i < end ==> #[trigger] buffer@[i] == buf0[i],
            forall|i: int|
                end <= i < new_end ==> #[trigger] buffer@[i] == reader.consumed()[before.len() + i
                    - end],
            before == old(reader).consumed(),
            rest0 == old(reader).rest(),
            reader.consumed().subrange(before.len() as int, reader.consumed().len() as int)
                + reader.rest() == rest0,
            eof ==> reader.rest().len() == 0,
        decreases limit - new_end + if eof { 0int } else { 1int },
    {
        let ghost prev = reader.consumed();
        let ghost prest = reader.rest();
        match reader.read() {
            Ok(Some(b)) => {
                proof {
                    let nowc = reader.consumed();
                    assert(nowc.subrange(before.len() as int, nowc.len() as int) + reader.rest()
                        =~= prev.subrange(before.len() as int, prev.len() as int) + prest) by {
                        assert(nowc == prev.push(b));
                        assert(nowc.subrange(before.len() as int, nowc.len() as int) =~= prev.subrange(
                            before.len() as int,
                            prev.len() as int,
                        ).push(b));
                        assert(prest =~= seq![b] + prest.drop_first());
                    }
                    assert(reader.consumed().subrange(0, before.len() as int) =~= before) by {
                        assert(reader.consumed() == prev.push(b));
                        assert(prev.subrange(0, before.len() as int) == before);
                    }
                }
                buffer[new_end] = b;
                new_end = new_end + 1;
            },
            Ok(None) => {
                proof {
                    assert(reader.rest() =~= prest);
                }
                eof = true;
            },
            Err(e) => {
                return Err(e);
            },
        }
    }
    Ok((new_end, eof))
}

/// Moves the upper half `[n, 2n)` of the window down to `[0, n)`.
fn slide_window(buffer: &mut [u8], n: usize)
    requires
        n + n <= old(buffer)@.len(),
    ensures
        final(buffer)@.len() == old(buffer)@.len(),
        forall|j: int| 0 <= j < n ==> #[trigger] final(buffer)@[j] == old(buffer)@[j + n],
{
    let ghost old_buf = buffer@;
    let len = buffer.len();
    let mut i: usize = 0;
    while i < n
        invariant
            len == buffer@.len(),
            i <= n,
            n + n <= old_buf.len(),
            buffer@.len() == old_buf.len(),
            forall|j: int| 0 <= j < i ==> #[trigger] buffer@[j] == old_buf[j + n],
            forall|j: int| i <= j < buffer@.len() ==> #[trigger] buffer@[j] == old_buf[j],
        decreases n - i,
    {
        buffer[i] = buffer[i + n];
        i = i + 1;
    }
}

impl LzssDyn {
    /// The code and bit width of the token for the best match `(x, y)` at a position
    /// holding `c`: the literal `c` where `y <= P`, else the match.
    pub(crate) fn encode_token(&self, x: usize, y: usize, c: u8) -> (res: (u32, usize))
        requires
            self.wf(),
            1 <= y <= self.f_spec(),
        ensures
            res.0 as nat == code_of(*self, x as int, y as nat, c).0,
            res.1 as nat == code_of(*self, x as int, y as nat, c).1,
            1 <= res.1 <= 25,
            res.0 < pow2(res.1 as nat),
    {
        proof {
            self.lemma_sizes();
        }
        let n = self.n();
        let p = self.p();
        if y <= p {
            proof {
                let cc = c as u32;
                assert((0x100u32 | cc) == 256 + cc) by (bit_vector)
                    requires
                        cc < 256,
                ;
                vstd::arithmetic::power2::lemma2_to64();
            }
            (0x100u32 | (c as u32), 9)
        } else {
            let xm = x & (n - 1);
            let ej = self.ej as u32;
            let len_code = y - (p + 1);
            proof {
                vstd::arithmetic::power2::lemma_pow2_pos(self.ej_nat());
                lemma_usize_low_bits_mask_is_mod(x, self.ei_nat());
                vstd::bits::lemma_low_bits_mask_values();
                assert(low_bits_mask(self.ei_nat()) == pow2(self.ei_nat()) - 1);
                vstd::arithmetic::div_mod::lemma_mod_bound(x as int, n as int);
                lemma_append_bound(xm as nat, len_code as nat, self.ei_nat(), self.ej_nat());
                vstd::arithmetic::power2::lemma2_to64();
                if self.ei + self.ej < 24 {
                    vstd::arithmetic::power2::lemma_pow2_strictly_increases(
                        (self.ei + self.ej) as nat,
                        24,
                    );
                }
                lemma_u32_pow2_no_overflow(self.ej_nat());
                lemma_u32_shl_is_mul(xm as u32, ej);
                lemma_u32_shl_is_mul(1, ej);
                let a = xm as u32;
                let sh = a << ej;
                let d = len_code as u32;
                assert((sh | d) == sh + d) by (bit_vector)
                    requires
                        sh == a << ej,
                        d < (1u32 << ej),
                        ej < 32,
                ;
                vstd::arithmetic::power2::lemma_pow2_unfold((1 + self.ei + self.ej) as nat);
                vstd::arithmetic::power2::lemma_pow2_adds(self.ei_nat(), self.ej_nat());
            }
            (((xm as u32) << ej) | (len_code as u32), 1 + self.ei + self.ej)
        }
    }

    /// Writes the token for the best match `(x, y)` at a position holding `c`.
    pub(crate) fn write_token<W: Write>(
        &self,
        bw: &mut BitWriter,
        writer: &mut W,
        x: usize,
        y: usize,
        c: u8,
    ) -> (res: Result<(), W::Error>)
        requires
            self.wf(),
            old(bw).wf(),
            1 <= y <= self.f_spec(),
        ensures
            res is Ok ==> {
                let before = old(writer).written();
                let after = final(writer).written();
                let code = code_of(*self, x as int, y as nat, c);
                &&& final(bw).wf()
                &&& before.len() <= after.len()
                &&& after.subrange(0, before.len() as int) == before
                &&& bytes_bits(after.subrange(before.len() as int, after.len() as int))
                    + final(bw).pending() == old(bw).pending() + bits_of(code.0, code.1)
            },
            old(writer).never_fails() ==> res is Ok && final(writer).never_fails(),
            res matches Err(e) ==> final(writer).error() == Some(e),
    {
        let (data, len) = self.encode_token(x, y, c);
        bw.write_bits(writer, data, len)
    }

    /// Compresses everything `reader` yields into `writer`, using `buffer` as the
    /// window; the first `N - F` bytes of `buffer` must hold the fill byte.
    #[verifier::rlimit(40)]
    pub(crate) fn compress_internal<R: Read, W: Write>(
        &self,
        reader: &mut R,
        writer: &mut W,
        buffer: &mut [u8],
    ) -> (res: Result<(), LzssError<R::Error, W::Error>>)
        requires
            self.wf(),
            old(buffer)@.len() >= 2 * self.n_spec(),
            forall|i: int|
                0 <= i < self.n_spec() - self.f_spec() ==> #[trigger] old(buffer)@[i]
                    == self.fill(),
        ensures
            res is Ok ==> {
                let before = old(reader).consumed();
                let after = final(reader).consumed();
                let d = after.subrange(before.len() as int, after.len() as int);
                &&& before.len() <= after.len()
                &&& after.subrange(0, before.len() as int) == before
                &&& d == old(reader).rest()
                &&& final(reader).rest().len() == 0
                &&& final(writer).written() == old(writer).written() + compressed(
                    *self,
                    old(reader).rest(),
                )
            },
            old(reader).never_fails() && old(writer).never_fails() ==> res is Ok
                && final(writer).never_fails(),
            res is Ok && old(writer).never_fails() ==> final(writer).never_fails(),
            res matches Err(LzssError::ReadError(e)) ==> final(reader).error() == Some(e)
                && !old(reader).never_fails(),
            res matches Err(LzssError::WriteError(e)) ==> final(writer).error() == Some(e)
                && !old(writer).never_fails(),
    {
        proof {
            self.lemma_sizes();
        }
        let n = self.n();
        let f = self.f();
        let p = self.p();
        let ghost rnf = reader.never_fails();
        let ghost rest0 = reader.rest();
        let ghost wnf = writer.never_fails();
        let ghost c0 = reader.consumed();
        let ghost w0 = writer.written();
        let ghost nf = (self.n_spec() - self.f_spec()) as nat;
        let mut bw = BitWriter::new();
        let fill = fill_window(reader, buffer, n - f, 2 * n);
        let (mut buffer_end, mut eof) = match fill {
            Ok(x) => x,
            Err(e) => {
                return Err(LzssError::ReadError(e));
            },
        };
        let ghost mut v: Seq<u8> = fill_run(self.c, nf) + reader.consumed().subrange(
            c0.len() as int,
            reader.consumed().len() as int,
        );
        let ghost mut base: int = 0;
        let ghost mut k: nat = 0;
        let ghost mut emitted: Seq<bool> = Seq::empty();
        let mut r = n - f;
        let mut s: usize = 0;
        proof {
            reveal(mirrors);
            reveal(parse_state);
            assert forall|q: int| 0 <= q < buffer_end implies buffer@[q] == v[q + base] by {
                if q < nf {
                } else {
                }
            }
            assert(writer.written().subrange(w0.len() as int, writer.written().len() as int)
                =~= Seq::<u8>::empty());
            assert(bytes_bits(Seq::<u8>::empty()) =~= Seq::<bool>::empty());
            assert(writer.written().subrange(0, w0.len() as int) =~= w0);
        }
        while r < buffer_end
            invariant
                self.wf(),
                n == self.n_spec(),
                f == self.f_spec(),
                p == self.p_spec(),
                nf == n - f,
                buffer@.len() >= 2 * n,
                bw.wf(),
                nf <= r <= buffer_end <= 2 * n,
                r < 2 * n - f,
                s + nf == r,
                eof || buffer_end == 2 * n,
                base >= 0,
                base % (n as int) == 0,
                v.len() == base + buffer_end,
                mirrors(buffer@, v, base, s as int, buffer_end as int),
                c0.len() <= reader.consumed().len(),
                reader.consumed().subrange(0, c0.len() as int) == c0,
                v == fill_run(self.c, nf) + reader.consumed().subrange(
                    c0.len() as int,
                    reader.consumed().len() as int,
                ),
                w0.len() <= writer.written().len(),
                writer.written().subrange(0, w0.len() as int) == w0,
                bytes_bits(writer.written().subrange(w0.len() as int, writer.written().len() as int))
                    + bw.pending() == emitted,
                parse_state(*self, v, eof, k, emitted, r + base),
                rnf == old(reader).never_fails(),
                rest0 == old(reader).rest(),
                reader.consumed().subrange(c0.len() as int, reader.consumed().len() as int)
                    + reader.rest() == rest0,
                eof ==> reader.rest().len() == 0,
                wnf == old(writer).never_fails(),
                rnf ==> reader.never_fails(),
                wnf ==> writer.never_fails(),
            decreases reader.remaining() + (v.len() - (r + base)) + if eof {
                0int
            } else {
                1int
            },
        {
            let f1 = if f < buffer_end - r {
                f
            } else {
                buffer_end - r
            };
            let (x, y0) = find_match(buffer, s, r, f1);
            let c = buffer[r];
            proof {
                lemma_best_bounds(buffer@, s as int, r as int, f1 as nat);
            }
            let ghost prev_written = writer.written();
            let ghost prev_pending = bw.pending();
            match self.write_token(&mut bw, writer, x, y0, c) {
                Ok(()) => {},
                Err(e) => {
                    return Err(LzssError::WriteError(e));
                },
            }
            let y = if y0 <= p {
                1
            } else {
                y0
            };
            proof {
                let code = code_of(*self, x as int, y0 as nat, c);
                let tok = bits_of(code.0, code.1);
                lemma_token_step(
                    *self,
                    buffer@,
                    v,
                    base,
                    s as int,
                    r as int,
                    buffer_end as int,
                    eof,
                    k,
                    emitted,
                    f1 as nat,
                    x as int,
                    y0 as nat,
                );
                lemma_accumulate(w0, prev_written, writer.written(), prev_pending, bw.pending(), emitted, tok);
                emitted = emitted + tok;
                k = k + 1;
            }
            let ghost s_prev = s as int;
            r = r + y;
            s = s + y;
            proof {
                lemma_mirror_narrow(buffer@, v, base, s_prev, s as int, buffer_end as int);
            }
            if r >= 2 * n - f {
                let ghost old_buf = buffer@;
                slide_window(buffer, n);
                buffer_end = buffer_end - n;
                r = r - n;
                s = s - n;
                proof {
                    lemma_slide_mirror(old_buf, buffer@, v, base, n as int, s as int, buffer_end as int);
                    base = base + n;
                    vstd::arithmetic::div_mod::lemma_mod_add_multiples_vanish(base - n, n as int);
                }
                if !eof {
                    let ghost before_fill = reader.consumed();
                    let ghost buf1 = buffer@;
                    let ghost end1 = buffer_end;
                    match fill_window(reader, buffer, buffer_end, 2 * n) {
                        Ok((e2, f2)) => {
                            buffer_end = e2;
                            eof = f2;
                        },
                        Err(e) => {
                            return Err(LzssError::ReadError(e));
                        },
                    }
                    proof {
                        let after = reader.consumed();
                        let nb = after.subrange(before_fill.len() as int, after.len() as int);
                        assert(after.subrange(c0.len() as int, after.len() as int) =~= before_fill.subrange(
                            c0.len() as int,
                            before_fill.len() as int,
                        ) + nb);
                        assert(after.subrange(0, c0.len() as int) =~= before_fill.subrange(
                            0,
                            c0.len() as int,
                        ));
                        lemma_fill_mirror(buf1, buffer@, v, nb, base, s as int, end1 as int, buffer_end as int);
                        lemma_parse_extend(*self, v, nb, eof, k, emitted, r + base);
                        assert(before_fill.subrange(c0.len() as int, before_fill.len() as int) + nb
                            + reader.rest() =~= before_fill.subrange(
                            c0.len() as int,
                            before_fill.len() as int,
                        ) + (nb + reader.rest()));
                        v = v + nb;
                    }
                }
            }
        }
        let ghost pre_flush = writer.written();
        let ghost pend = bw.pending();
        let ghost nbits = bw.bits_in_buf;
        let ghost pbuf = bw.buf;
        match bw.flush(writer) {
            Ok(()) => {},
            Err(e) => {
                return Err(LzssError::WriteError(e));
            },
        }
        proof {
            let after = reader.consumed();
            let d = after.subrange(c0.len() as int, after.len() as int);
            reveal(parse_state);
            assert(v + Seq::<u8>::empty() =~= v);
            assert(parse_n(*self, v + Seq::<u8>::empty(), k) == (emitted, r + base));
            assert(v =~= virtual_input(*self, d));
            lemma_parse_n_encode(*self, v, k);
            assert(encode_from(*self, v, v.len() as int) =~= Seq::<bool>::empty());
            assert(emitted + Seq::<bool>::empty() =~= emitted);
            let now = writer.written();
            let body = pre_flush.subrange(w0.len() as int, pre_flush.len() as int);
            let tail = now.subrange(pre_flush.len() as int, now.len() as int);
            assert(now.subrange(w0.len() as int, now.len() as int) =~= body + tail);
            lemma_bytes_bits_concat(body, tail);
            lemma_bytes_bits_len(body);
            lemma_bits_of_len(pbuf as nat, nbits as nat);
            assert(padding(nbits as nat) =~= padding(emitted.len()));
            assert(bytes_bits(body + tail) =~= emitted + padding(emitted.len()));
            lemma_pack_unique(emitted, body + tail);
            assert(now =~= w0 + compressed(*self, d));
            assert(d + reader.rest() =~= d);
        }
        Ok(())
    }
}

/// `buf[q]` is `v[q + base]` for every `q` in `[lo, hi)`.
#[verifier::opaque]
pub open spec fn mirrors(buf: Seq<u8>, v: Seq<u8>, base: int, lo: int, hi: int) -> bool {
    forall|q: int| lo <= q < hi ==> #[trigger] buf[q] == v[q + base]
}

/// The first `k` tokens of every continuation of `v` (none once the input has
/// ended) have the bits `emitted` and end at `pos`.
#[verifier::opaque]
pub open spec fn parse_state(
    p: LzssDyn,
    v: Seq<u8>,
    eof: bool,
    k: nat,
    emitted: Seq<bool>,
    pos: int,
) -> bool {
    forall|w: Seq<u8>|
        (eof ==> w.len() == 0) ==> #[trigger] parse_n(p, v + w, k) == (emitted, pos)
}

proof fn lemma_accumulate(
    w0: Seq<u8>,
    prev: Seq<u8>,
    now: Seq<u8>,
    pend0: Seq<bool>,
    pend1: Seq<bool>,
    emitted: Seq<bool>,
    tok: Seq<bool>,
)
    requires
        w0.len() <= prev.len() <= now.len(),
        prev.subrange(0, w0.len() as int) == w0,
        now.subrange(0, prev.len() as int) == prev,
        bytes_bits(prev.subrange(w0.len() as int, prev.len() as int)) + pend0 == emitted,
        bytes_bits(now.subrange(prev.len() as int, now.len() as int)) + pend1 == pend0 + tok,
    ensures
        now.subrange(0, w0.len() as int) == w0,
        bytes_bits(now.subrange(w0.len() as int, now.len() as int)) + pend1 == emitted + tok,
{
    let nb = now.subrange(prev.len() as int, now.len() as int);
    let oldpart = prev.subrange(w0.len() as int, prev.len() as int);
    assert(now.subrange(w0.len() as int, now.len() as int) =~= oldpart + nb);
    assert(now.subrange(0, w0.len() as int) =~= prev.subrange(0, w0.len() as int));
    lemma_bytes_bits_concat(oldpart, nb);
    let aa = bytes_bits(oldpart);
    let bb = bytes_bits(nb);
    assert((aa + bb) + pend1 =~= aa + (bb + pend1));
    assert(aa + (pend0 + tok) =~= (aa + pend0) + tok);
}

proof fn lemma_slide_mirror(
    old_buf: Seq<u8>,
    buf: Seq<u8>,
    v: Seq<u8>,
    base: int,
    n: int,
    s: int,
    end: int,
)
    requires
        0 <= s,
        end <= n,
        mirrors(old_buf, v, base, s + n, end + n),
        forall|j: int| 0 <= j < n ==> #[trigger] buf[j] == old_buf[j + n],
    ensures
        mirrors(buf, v, base + n, s, end),
{
    reveal(mirrors);
    assert forall|j: int| s <= j < end implies #[trigger] buf[j] == v[j + (base + n)] by {
        assert(old_buf[j + n] == v[(j + n) + base]);
        assert(j + n + base == j + (base + n));
    }
}

proof fn lemma_fill_mirror(
    old_buf: Seq<u8>,
    buf: Seq<u8>,
    v: Seq<u8>,
    nb: Seq<u8>,
    base: int,
    s: int,
    end: int,
    new_end: int,
)
    requires
        v.len() == base + end,
        0 <= s <= end <= new_end,
        0 <= base,
        nb.len() == new_end - end,
        mirrors(old_buf, v, base, s, end),
        buf.len() == old_buf.len(),
        new_end <= buf.len(),
        forall|i: int| 0 <= i < end ==> #[trigger] buf[i] == old_buf[i],
        forall|i: int| end <= i < new_end ==> #[trigger] buf[i] == nb[i - end],
    ensures
        mirrors(buf, v + nb, base, s, new_end),
{
    reveal(mirrors);
    assert forall|j: int| s <= j < new_end implies #[trigger] buf[j] == (v + nb)[j + base] by {
        if j < end {
            assert(buf[j] == old_buf[j]);
        } else {
            assert(buf[j] == nb[j - end]);
        }
    }
}

pub proof fn lemma_mirror_narrow(buf: Seq<u8>, v: Seq<u8>, base: int, lo: int, lo2: int, hi: int)
    requires
        mirrors(buf, v, base, lo, hi),
        lo <= lo2,
    ensures
        mirrors(buf, v, base, lo2, hi),
{
    reveal(mirrors);
}

proof fn lemma_parse_extend(
    p: LzssDyn,
    v: Seq<u8>,
    nb: Seq<u8>,
    eof: bool,
    k: nat,
    emitted: Seq<bool>,
    pos: int,
)
    requires
        parse_state(p, v, false, k, emitted, pos),
    ensures
        parse_state(p, v + nb, eof, k, emitted, pos),
{
    reveal(parse_state);
    assert forall|w: Seq<u8>| (eof ==> w.len() == 0) implies #[trigger] parse_n(p, (v + nb) + w, k)
        == (emitted, pos) by {
        assert((v + nb) + w =~= v + (nb + w));
        assert(parse_n(p, v + (nb + w), k) == (emitted, pos));
    }
}

/// One token chosen in the window is the next token of every continuation.
proof fn lemma_token_step(
    p: LzssDyn,
    buf: Seq<u8>,
    v: Seq<u8>,
    base: int,
    s: int,
    r: int,
    end: int,
    eof: bool,
    k: nat,
    emitted: Seq<bool>,
    f1: nat,
    x: int,
    y0: nat,
)
    requires
        p.wf(),
        0 <= s,
        s + (p.n_spec() - p.f_spec()) == r,
        r < end,
        r < 2 * p.n_spec() - p.f_spec(),
        eof || end == 2 * p.n_spec(),
        v.len() == base + end,
        base % (p.n_spec() as int) == 0,
        base >= 0,
        f1 == if p.f_spec() < end - r { p.f_spec() } else { (end - r) as nat },
        mirrors(buf, v, base, s, end),
        parse_state(p, v, eof, k, emitted, r + base),
        (x, y0) == crate::model::best_from(buf, s, r, f1),
    ensures
        ({
            let code = code_of(p, x, y0, buf[r]);
            let adv = if y0 <= p.p_spec() { 1 } else { y0 };
            parse_state(p, v, eof, k + 1, emitted + bits_of(code.0, code.1), r + base + adv)
        }),
{
    reveal(mirrors);
    reveal(parse_state);
    p.lemma_sizes();
    vstd::arithmetic::power2::lemma_pow2_pos(p.ej_nat());
    let q = r + base;
    let nn = p.n_spec() as int;
    let code = code_of(p, x, y0, buf[r]);
    let adv: nat = if y0 <= p.p_spec() { 1 } else { y0 };
    assert((x + base) % nn == x % nn) by {
        vstd::arithmetic::div_mod::lemma_mod_multiples_vanish(base / nn, x, nn);
        vstd::arithmetic::div_mod::lemma_fundamental_div_mod(base, nn);
    }
    assert forall|w: Seq<u8>| (eof ==> w.len() == 0) implies #[trigger] parse_n(p, v + w, k + 1)
        == (emitted + bits_of(code.0, code.1), q + adv) by {
        assert(parse_n(p, v + w, k) == (emitted, q));
        assert forall|kk: int| s <= kk < r + f1 implies buf[kk] == (v + w)[kk + base] by {}
        lemma_best_shift(buf, v + w, base, s, r, f1);
        assert(s + base == q - (p.n_spec() - p.f_spec()));
        assert(lookahead_at(p, v + w, q) == f1);
        assert((v + w)[q] == buf[r]);
        assert(token_code(p, v + w, q) == code);
    }
}

} // verus!
