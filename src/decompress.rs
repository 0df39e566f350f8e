//! Streaming decompression over a circular window of `N` bytes.
use vstd::arithmetic::power2::{lemma_pow2_pos, pow2};
use vstd::prelude::*;

use crate::bits::{
    bits_of, bytes_bits, lemma_append_bound, lemma_bits_append, lemma_bits_of_len,
    lemma_bytes_bits_concat, lemma_bytes_bits_len, lemma_value_of_bits, value_of, BitReader,
};
use crate::error::LzssError;
use crate::model::{copy_run, decode_from, decompressed, fill_run, match_source};
use crate::params::LzssDyn;
use crate::stream::{Read, Write};
use vstd::bits::{
    lemma_u32_pow2_no_overflow, lemma_u32_shl_is_mul, lemma_u32_shr_is_div,
    lemma_u32_low_bits_mask_is_mod, lemma_usize_low_bits_mask_is_mod, low_bits_mask,
};

verus! {

/// Byte `j` of the history (`N` fill bytes, then the output) sits at `(j - F) mod N`
/// of the window, for the last `N` bytes of the history.
#[verifier::opaque]
pub open spec fn ring(buf: Seq<u8>, h: Seq<u8>, n: int, f: int) -> bool {
    forall|j: int| h.len() - n <= j < h.len() ==> #[trigger] buf[(j - f) % n] == h[j]
}

/// For every continuation `e` of the bits read so far, decoding from the start gives
/// the output so far and then what decodes from `pos` after the history `h`.
#[verifier::opaque]
pub open spec fn decode_state(p: LzssDyn, b: Seq<bool>, pos: int, h: Seq<u8>) -> bool {
    forall|e: Seq<bool>|
        #[trigger] decode_from(p, b + e, 0, fill_run(p.fill(), p.n_spec())) == h.subrange(
            p.n_spec() as int,
            h.len() as int,
        ) + decode_from(p, b + e, pos, h)
}

proof fn lemma_mod_distinct(a: int, b: int, n: int)
    requires
        0 < b - a < n,
    ensures
        a % n != b % n,
{
    vstd::arithmetic::div_mod::lemma_fundamental_div_mod(a, n);
    vstd::arithmetic::div_mod::lemma_fundamental_div_mod(b, n);
    if a % n == b % n {
        assert(b - a == n * (b / n - a / n)) by (nonlinear_arith)
            requires
                a == n * (a / n) + a % n,
                b == n * (b / n) + b % n,
                a % n == b % n,
        ;
        if b / n - a / n >= 1 {
            assert(n * (b / n - a / n) >= n) by (nonlinear_arith)
                requires
                    b / n - a / n >= 1,
                    n > 0,
            ;
        } else {
            assert(n * (b / n - a / n) <= 0) by (nonlinear_arith)
                requires
                    b / n - a / n <= 0,
                    n > 0,
            ;
        }
    }
}

/// Writing the next history byte at its slot keeps the ring.
proof fn lemma_ring_push(buf: Seq<u8>, h: Seq<u8>, n: int, f: int, b: u8)
    requires
        ring(buf, h, n, f),
        n > 0,
        buf.len() >= n,
        h.len() >= n,
    ensures
        ring(buf.update((h.len() - f) % n, b), h.push(b), n, f),
{
    reveal(ring);
    let slot = (h.len() - f) % n;
    let nb = buf.update(slot, b);
    let h2 = h.push(b);
    assert forall|j: int| h2.len() - n <= j < h2.len() implies #[trigger] nb[(j - f) % n] == h2[j] by {
        if j < h.len() {
            lemma_mod_distinct(j - f, h.len() - f, n);
            assert(buf[(j - f) % n] == h[j]);
        }
    }
}

/// The bytes of a match come from the ring: byte `k` of the run starting at
/// `match_source(off)` sits at `(off + k) mod N`.
proof fn lemma_ring_source(p: LzssDyn, h0: Seq<u8>, off: int, kk: int)
    requires
        p.wf(),
        h0.len() >= p.n_spec(),
        0 <= off,
        0 <= kk,
    ensures
        ({
            let src = match_source(p, h0, off as nat);
            let n = p.n_spec() as int;
            &&& h0.len() - n <= src < h0.len()
            &&& (src + kk - p.f_spec()) % n == (off + kk) % n
        }),
{
    p.lemma_sizes();
    let n = p.n_spec() as int;
    let f = p.f_spec() as int;
    let t = h0.len() - n;
    let m = off + f - t;
    vstd::arithmetic::div_mod::lemma_fundamental_div_mod(m, n);
    vstd::arithmetic::div_mod::lemma_mod_bound(m, n);
    let src = t + m % n;
    assert(src + kk - f == (off + kk) + n * (-(m / n))) by (nonlinear_arith)
        requires
            src == t + m % n,
            m == n * (m / n) + m % n,
            m == off + f - t,
    ;
    vstd::arithmetic::div_mod::lemma_mod_multiples_vanish(-(m / n), off + kk, n);
    assert(n * (-(m / n)) + (off + kk) == (off + kk) + n * (-(m / n)));
}

/// One more byte of a run is the byte `src + l` of the history extended by the run.
pub proof fn lemma_copy_run_push(h: Seq<u8>, src: int, l: nat)
    ensures
        copy_run(h, src, l + 1) == copy_run(h, src, l).push((h + copy_run(h, src, l))[src + l]),
        copy_run(h, src, l).len() == l,
    decreases l,
{
    if l > 0 {
        lemma_copy_run_push(h, src, (l - 1) as nat);
    }
}

proof fn lemma_consumed_step(c0: Seq<u8>, prev: Seq<u8>, now: Seq<u8>)
    requires
        c0.len() <= prev.len() <= now.len(),
        prev.subrange(0, c0.len() as int) == c0,
        now.subrange(0, prev.len() as int) == prev,
    ensures
        now.subrange(0, c0.len() as int) == c0,
        now.subrange(c0.len() as int, now.len() as int) == prev.subrange(
            c0.len() as int,
            prev.len() as int,
        ) + now.subrange(prev.len() as int, now.len() as int),
{
    assert(now.subrange(0, c0.len() as int) =~= prev.subrange(0, c0.len() as int));
    assert(now.subrange(c0.len() as int, now.len() as int) =~= prev.subrange(
        c0.len() as int,
        prev.len() as int,
    ) + now.subrange(prev.len() as int, now.len() as int));
}

/// Reading more bytes keeps what was read since `c0` followed by what is still to come.
proof fn lemma_rest_step(c0: Seq<u8>, prev: Seq<u8>, now: Seq<u8>, prest: Seq<u8>, nrest: Seq<u8>)
    requires
        c0.len() <= prev.len() <= now.len(),
        now.subrange(0, prev.len() as int) == prev,
        now.subrange(prev.len() as int, now.len() as int) + nrest == prest,
    ensures
        now.subrange(c0.len() as int, now.len() as int) + nrest == prev.subrange(
            c0.len() as int,
            prev.len() as int,
        ) + prest,
{
    assert(now.subrange(c0.len() as int, now.len() as int) =~= prev.subrange(
        c0.len() as int,
        prev.len() as int,
    ) + now.subrange(prev.len() as int, now.len() as int));
    assert(now.subrange(c0.len() as int, now.len() as int) + nrest =~= prev.subrange(
        c0.len() as int,
        prev.len() as int,
    ) + (now.subrange(prev.len() as int, now.len() as int) + nrest));
}

/// More bytes read keep the decoding state and extend the unread bits.
proof fn lemma_bits_grow(
    p: LzssDyn,
    c0: Seq<u8>,
    prev: Seq<u8>,
    now: Seq<u8>,
    pos: int,
    at: int,
    h: Seq<u8>,
    pend0: Seq<bool>,
)
    requires
        c0.len() <= prev.len() <= now.len(),
        0 <= pos <= at,
        now.subrange(c0.len() as int, now.len() as int) == prev.subrange(
            c0.len() as int,
            prev.len() as int,
        ) + now.subrange(prev.len() as int, now.len() as int),
        at <= bytes_bits(prev.subrange(c0.len() as int, prev.len() as int)).len(),
        bytes_bits(prev.subrange(c0.len() as int, prev.len() as int)).subrange(
            at,
            bytes_bits(prev.subrange(c0.len() as int, prev.len() as int)).len() as int,
        ) == pend0,
        decode_state(p, bytes_bits(prev.subrange(c0.len() as int, prev.len() as int)), pos, h),
    ensures
        ({
            let bb = bytes_bits(now.subrange(c0.len() as int, now.len() as int));
            let got = bytes_bits(now.subrange(prev.len() as int, now.len() as int));
            let b0 = bytes_bits(prev.subrange(c0.len() as int, prev.len() as int));
            &&& at <= bb.len()
            &&& bb.subrange(at, bb.len() as int) == pend0 + got
            &&& b0.len() <= bb.len()
            &&& bb.subrange(0, b0.len() as int) == b0
            &&& decode_state(p, bb, pos, h)
        }),
{
    let d0 = prev.subrange(c0.len() as int, prev.len() as int);
    let g = now.subrange(prev.len() as int, now.len() as int);
    let b0 = bytes_bits(d0);
    let gb = bytes_bits(g);
    lemma_bytes_bits_concat(d0, g);
    let bb = b0 + gb;
    assert(bb.subrange(at, bb.len() as int) =~= b0.subrange(at, b0.len() as int) + gb);
    assert(bb.subrange(0, b0.len() as int) =~= b0);
    reveal(decode_state);
    assert forall|e: Seq<bool>| #[trigger] decode_from(
        p,
        bb + e,
        0,
        fill_run(p.fill(), p.n_spec()),
    ) == h.subrange(p.n_spec() as int, h.len() as int) + decode_from(p, bb + e, pos, h) by {
        assert(bb + e =~= b0 + (gb + e));
        assert(decode_from(p, b0 + (gb + e), 0, fill_run(p.fill(), p.n_spec())) == h.subrange(
            p.n_spec() as int,
            h.len() as int,
        ) + decode_from(p, b0 + (gb + e), pos, h));
    }
}

/// Taking `len` bits moves the unread bits past them.
proof fn lemma_took(
    bb: Seq<bool>,
    pos: int,
    pend0: Seq<bool>,
    got: Seq<bool>,
    v: nat,
    len: nat,
    pend1: Seq<bool>,
)
    requires
        0 <= pos <= bb.len(),
        bb.subrange(pos, bb.len() as int) == pend0 + got,
        pend0 + got == bits_of(v, len) + pend1,
    ensures
        pos + len <= bb.len(),
        bb.subrange(pos, pos + len) == bits_of(v, len),
        bb.subrange(pos + len, bb.len() as int) == pend1,
{
    lemma_bits_of_len(v, len);
    assert(bb.subrange(pos, bb.len() as int).len() == bb.len() - pos);
    assert((bits_of(v, len) + pend1).len() == len + pend1.len());
    assert(pos + len <= bb.len());
    assert(bb.subrange(pos, pos + len) =~= (bits_of(v, len) + pend1).subrange(0, len as int));
    assert(bb.subrange(pos + len, bb.len() as int) =~= (bits_of(v, len) + pend1).subrange(
        len as int,
        (bits_of(v, len) + pend1).len() as int,
    ));
}

proof fn lemma_stop_short(p: LzssDyn, bb: Seq<bool>, pos: int, h: Seq<u8>)
    requires
        0 <= pos,
        pos + 9 > bb.len(),
    ensures
        decode_from(p, bb, pos, h) == Seq::<u8>::empty(),
{
}

proof fn lemma_stop_match(p: LzssDyn, bb: Seq<bool>, pos: int, h: Seq<u8>)
    requires
        0 <= pos,
        pos + 9 <= bb.len(),
        value_of(bb.subrange(pos, pos + 9)) < 256,
        pos + 1 + p.ei_nat() + p.ej_nat() > bb.len(),
    ensures
        decode_from(p, bb, pos, h) == Seq::<u8>::empty(),
{
}

/// A literal token extends the output by its byte.
proof fn lemma_literal_step(p: LzssDyn, bb: Seq<bool>, pos: int, h: Seq<u8>, b: u8)
    requires
        0 <= pos,
        pos + 9 <= bb.len(),
        h.len() >= p.n_spec(),
        value_of(bb.subrange(pos, pos + 9)) == 256 + b,
        decode_state(p, bb, pos, h),
    ensures
        decode_state(p, bb, pos + 9, h.push(b)),
{
    reveal(decode_state);
    let nn = p.n_spec() as int;
    assert forall|e: Seq<bool>| #[trigger] decode_from(
        p,
        bb + e,
        0,
        fill_run(p.fill(), p.n_spec()),
    ) == h.push(b).subrange(nn, h.len() as int + 1) + decode_from(p, bb + e, pos + 9, h.push(b)) by {
        assert((bb + e).subrange(pos, pos + 9) =~= bb.subrange(pos, pos + 9));
        assert(decode_from(p, bb + e, pos, h) == seq![b] + decode_from(p, bb + e, pos + 9, h.push(b)));
        assert(h.push(b).subrange(nn, h.len() as int + 1) =~= h.subrange(nn, h.len() as int).push(b));
        assert(h.subrange(nn, h.len() as int) + (seq![b] + decode_from(p, bb + e, pos + 9, h.push(b)))
            =~= h.subrange(nn, h.len() as int).push(b) + decode_from(p, bb + e, pos + 9, h.push(b)));
    }
}

proof fn lemma_cursor_step(l: int, f: int, n: int)
    requires
        n > 1,
    ensures
        ((l - f) % n + 1) % n == (l + 1 - f) % n,
{
    vstd::arithmetic::div_mod::lemma_add_mod_noop(l - f, 1, n);
    vstd::arithmetic::div_mod::lemma_small_mod(1, n as nat);
    vstd::arithmetic::div_mod::lemma_mod_bound(l - f, n);
    vstd::arithmetic::div_mod::lemma_mod_twice(l - f, n);
}

/// The two reads of a match token join into its code.
proof fn lemma_join_code(bb: Seq<bool>, pos: int, inp: u32, inp2: u32, rest: nat)
    requires
        rest <= 16,
        inp < 256,
        inp2 < pow2(rest),
        0 <= pos,
        pos + 9 + rest <= bb.len(),
        bb.subrange(pos, pos + 9) == bits_of(inp as nat, 9),
        bb.subrange(pos + 9, pos + 9 + rest) == bits_of(inp2 as nat, rest),
    ensures
        value_of(bb.subrange(pos, pos + 9 + rest)) == inp * pow2(rest) + inp2,
        ((inp << (rest as u32)) | inp2) == inp * pow2(rest) + inp2,
        inp * pow2(rest) + inp2 < pow2(8 + rest),
{
    let w = 9 + rest;
    vstd::arithmetic::power2::lemma2_to64();
    lemma_bits_append(inp as nat, inp2 as nat, 9, rest);
    assert(bb.subrange(pos, pos + w) =~= bb.subrange(pos, pos + 9) + bb.subrange(pos + 9, pos + w));
    lemma_pow2_pos(rest);
    lemma_append_bound(inp as nat, inp2 as nat, 8, rest);
    lemma_value_of_bits(inp as nat * pow2(rest) + inp2 as nat, w);
    vstd::arithmetic::power2::lemma_pow2_strictly_increases(8 + rest, w);
    vstd::arithmetic::div_mod::lemma_small_mod(inp as nat * pow2(rest) + inp2 as nat, pow2(w));
    lemma_u32_pow2_no_overflow(rest);
    if 8 + rest < 24 {
        vstd::arithmetic::power2::lemma_pow2_strictly_increases(8 + rest, 24);
    }
    let rr = rest as u32;
    lemma_u32_shl_is_mul(inp, rr);
    lemma_u32_shl_is_mul(1, rr);
    let a = inp;
    let sh = a << rr;
    let dd = inp2;
    assert((sh | dd) == sh + dd) by (bit_vector)
        requires
            sh == a << rr,
            dd < (1u32 << rr),
            rr < 32,
    ;
}

/// The offset and length fields of a match code.
proof fn lemma_split_code(code: u32, ei: nat, ej: nat)
    requires
        code < pow2(ei + ej),
        1 <= ej,
        ei + ej <= 24,
    ensures
        (1u32 << (ej as u32)) == pow2(ej),
        pow2(ej) >= 2,
        (code >> (ej as u32)) == (code as nat) / pow2(ej),
        (code as nat) / pow2(ej) < pow2(ei),
        (code & ((1u32 << (ej as u32)) - 1) as u32) == (code as nat) % pow2(ej),
{
    let e = ej as u32;
    lemma_u32_shr_is_div(code, e);
    lemma_u32_pow2_no_overflow(ej);
    lemma_u32_shl_is_mul(1, e);
    vstd::bits::lemma_low_bits_mask_values();
    lemma_u32_low_bits_mask_is_mod(code, ej);
    assert(low_bits_mask(ej) == pow2(ej) - 1);
    lemma_pow2_pos(ej);
    assert(ej + ei == ei + ej);
    crate::bits::lemma_div_below(code as nat, ej, ei);
    vstd::arithmetic::power2::lemma_pow2_unfold(ej);
    lemma_pow2_pos((ej - 1) as nat);
}

/// A match token extends the output by the run it copies.
proof fn lemma_match_step(p: LzssDyn, bb: Seq<bool>, pos: int, h: Seq<u8>, code: nat)
    requires
        p.wf(),
        0 <= pos,
        pos + 1 + p.ei_nat() + p.ej_nat() <= bb.len(),
        h.len() >= p.n_spec(),
        value_of(bb.subrange(pos, pos + 9)) < 256,
        value_of(bb.subrange(pos, pos + 1 + p.ei_nat() + p.ej_nat())) == code,
        decode_state(p, bb, pos, h),
    ensures
        ({
            let off = code / pow2(p.ej_nat());
            let l = code % pow2(p.ej_nat()) + p.p_spec() + 1;
            let run = copy_run(h, match_source(p, h, off), l);
            decode_state(p, bb, pos + 1 + p.ei_nat() + p.ej_nat(), h + run)
        }),
{
    reveal(decode_state);
    let nn = p.n_spec() as int;
    let w = 1 + p.ei_nat() + p.ej_nat();
    let off = code / pow2(p.ej_nat());
    let l = code % pow2(p.ej_nat()) + p.p_spec() + 1;
    let run = copy_run(h, match_source(p, h, off), l);
    assert forall|e: Seq<bool>| #[trigger] decode_from(
        p,
        bb + e,
        0,
        fill_run(p.fill(), p.n_spec()),
    ) == (h + run).subrange(nn, (h + run).len() as int) + decode_from(p, bb + e, pos + w, h + run) by {
        assert((bb + e).subrange(pos, pos + 9) =~= bb.subrange(pos, pos + 9));
        assert((bb + e).subrange(pos, pos + w) =~= bb.subrange(pos, pos + w));
        assert(decode_from(p, bb + e, pos, h) == run + decode_from(p, bb + e, pos + w, h + run));
        assert((h + run).subrange(nn, (h + run).len() as int) =~= h.subrange(nn, h.len() as int) + run);
        assert(h.subrange(nn, h.len() as int) + (run + decode_from(p, bb + e, pos + w, h + run))
            =~= (h.subrange(nn, h.len() as int) + run) + decode_from(p, bb + e, pos + w, h + run));
    }
}

impl LzssDyn {
    /// Copies the `l` bytes of a match at window offset `i` to `writer` and into the
    /// window at cursor `r`; returns the cursor after them.
    fn copy_match<W: Write>(
        &self,
        buffer: &mut [u8],
        writer: &mut W,
        r: usize,
        i: usize,
        l: usize,
        Ghost(h): Ghost<Seq<u8>>,
    ) -> (res: Result<usize, W::Error>)
        requires
            self.wf(),
            old(buffer)@.len() >= self.n_spec(),
            h.len() >= self.n_spec(),
            ring(old(buffer)@, h, self.n_spec() as int, self.f_spec() as int),
            r == (h.len() - self.f_spec()) % (self.n_spec() as int),
            i < self.n_spec(),
            l <= self.f_spec() + 1,
        ensures
            res matches Ok(r2) ==> {
                let run = copy_run(h, match_source(*self, h, i as nat), l as nat);
                &&& final(writer).written() == old(writer).written() + run
                &&& final(buffer)@.len() == old(buffer)@.len()
                &&& ring(final(buffer)@, h + run, self.n_spec() as int, self.f_spec() as int)
                &&& r2 == (h.len() + l - self.f_spec()) % (self.n_spec() as int)
            },
            old(writer).never_fails() ==> res is Ok && final(writer).never_fails(),
            res matches Err(e) ==> final(writer).error() == Some(e),
    {
        proof {
            self.lemma_sizes();
        }
        let ghost nn = self.n_spec() as int;
        let ghost ff = self.f_spec() as int;
        let ghost src = match_source(*self, h, i as nat);
        let ghost w0 = writer.written();
        let ghost wnf = writer.never_fails();
        let mut r = r;
        let mut kk: usize = 0;
        proof {
            assert(h + copy_run(h, src, 0) =~= h);
            assert(w0 + copy_run(h, src, 0) =~= w0);
        }
        while kk < l
            invariant
                self.wf(),
                nn == self.n_spec(),
                ff == self.f_spec(),
                src == match_source(*self, h, i as nat),
                kk <= l,
                l <= ff + 1,
                i < nn,
                h.len() >= nn,
                buffer@.len() >= nn,
                buffer@.len() == old(buffer)@.len(),
                ring(buffer@, h + copy_run(h, src, kk as nat), nn, ff),
                r == (h.len() + kk - ff) % nn,
                writer.written() == w0 + copy_run(h, src, kk as nat),
                wnf == old(writer).never_fails(),
                wnf ==> writer.never_fails(),
            decreases l - kk,
        {
            let ghost hk = h + copy_run(h, src, kk as nat);
            proof {
                self.lemma_sizes();
                lemma_copy_run_push(h, src, kk as nat);
                lemma_ring_source(*self, h, i as int, kk as int);
                reveal(ring);
                vstd::arithmetic::div_mod::lemma_mod_bound(h.len() + kk - ff, nn);
                assert(hk[src + kk] == buffer@[(src + kk - ff) % nn]);
            }
            let idx = self.wrap(i + kk);
            let b = buffer[idx];
            match writer.write(b) {
                Ok(()) => {},
                Err(e) => {
                    return Err(e);
                },
            }
            proof {
                lemma_ring_push(buffer@, hk, nn, ff, b);
                assert(hk.push(b) =~= h + copy_run(h, src, (kk + 1) as nat));
            }
            buffer[r] = b;
            proof {
                lemma_cursor_step(hk.len() as int, ff, nn);
                assert((w0 + copy_run(h, src, kk as nat)).push(b) =~= w0 + copy_run(h, src, (kk + 1) as nat));
            }
            r = self.wrap(r + 1);
            kk = kk + 1;
        }
        Ok(r)
    }

    /// Decodes the rest of a match token whose first nine bits `inp` are read:
    /// `None` where the data ends first, else the new cursor, bit position and history.
    #[verifier::rlimit(40)]
    fn decode_match<R: Read, W: Write>(
        &self,
        br: &mut BitReader,
        reader: &mut R,
        writer: &mut W,
        buffer: &mut [u8],
        r: usize,
        inp: u32,
        Ghost(c0): Ghost<Seq<u8>>,
        Ghost(w0): Ghost<Seq<u8>>,
        Ghost(pos): Ghost<int>,
        Ghost(h): Ghost<Seq<u8>>,
    ) -> (res: Result<Option<(usize, Ghost<int>, Ghost<Seq<u8>>)>, LzssError<R::Error, W::Error>>)
        requires
            self.wf(),
            old(br).wf(),
            old(buffer)@.len() >= self.n_spec(),
            h.len() >= self.n_spec(),
            ring(old(buffer)@, h, self.n_spec() as int, self.f_spec() as int),
            r == (h.len() - self.f_spec()) % (self.n_spec() as int),
            inp < 256,
            0 <= pos,
            c0.len() <= old(reader).consumed().len(),
            old(reader).consumed().subrange(0, c0.len() as int) == c0,
            ({
                let bb = bytes_bits(old(reader).consumed().subrange(c0.len() as int, old(reader).consumed().len() as int));
                &&& pos + 9 <= bb.len()
                &&& bb.subrange(pos, pos + 9) == bits_of(inp as nat, 9)
                &&& value_of(bb.subrange(pos, pos + 9)) == inp
                &&& bb.subrange(pos + 9, bb.len() as int) == old(br).pending()
                &&& decode_state(*self, bb, pos, h)
            }),
            old(writer).written() == w0 + h.subrange(self.n_spec() as int, h.len() as int),
        ensures
            res is Ok ==> {
                let bb = bytes_bits(final(reader).consumed().subrange(c0.len() as int, final(reader).consumed().len() as int));
                &&& c0.len() <= final(reader).consumed().len()
                &&& final(reader).consumed().subrange(0, c0.len() as int) == c0
                &&& final(buffer)@.len() == old(buffer)@.len()
                &&& final(reader).consumed().subrange(c0.len() as int, final(reader).consumed().len() as int)
                    + final(reader).rest() == old(reader).consumed().subrange(
                    c0.len() as int,
                    old(reader).consumed().len() as int,
                ) + old(reader).rest()
                &&& (res matches Ok(None) ==> final(reader).rest().len() == 0)
                &&& (res matches Ok(None) ==> {
                    &&& pos <= bb.len()
                    &&& decode_state(*self, bb, pos, h)
                    &&& decode_from(*self, bb, pos, h) == Seq::<u8>::empty()
                    &&& final(writer).written() == old(writer).written()
                    &&& ring(final(buffer)@, h, self.n_spec() as int, self.f_spec() as int)
                })
                &&& (res matches Ok(Some((r2, pos2, h2))) ==> {
                    &&& final(br).wf()
                    &&& h2@.len() >= h.len()
                    &&& h2@.subrange(0, h.len() as int) == h
                    &&& r2 == (h2@.len() - self.f_spec()) % (self.n_spec() as int)
                    &&& ring(final(buffer)@, h2@, self.n_spec() as int, self.f_spec() as int)
                    &&& pos < pos2@ <= bb.len()
                    &&& bb.subrange(pos2@, bb.len() as int) == final(br).pending()
                    &&& decode_state(*self, bb, pos2@, h2@)
                    &&& final(writer).written() == w0 + h2@.subrange(self.n_spec() as int, h2@.len() as int)
                    &&& 8 * final(reader).remaining() + final(br).pending().len() < 8 * old(reader).remaining() + old(br).pending().len() + 9
                })
            },
            old(reader).never_fails() && old(writer).never_fails() ==> res is Ok,
            old(reader).never_fails() ==> final(reader).never_fails(),
            old(writer).never_fails() ==> final(writer).never_fails(),
            res is Ok && old(writer).never_fails() ==> final(writer).never_fails(),
            res matches Err(LzssError::ReadError(e)) ==> final(reader).error() == Some(e)
                && !old(reader).never_fails(),
            res matches Err(LzssError::WriteError(e)) ==> final(writer).error() == Some(e)
                && !old(writer).never_fails(),
    {
        proof {
            self.lemma_sizes();
        }
        let p = self.p();
        let mut r = r;
        let ghost nn = self.n_spec() as int;
        let ghost ff = self.f_spec() as int;
        let ghost d1 = reader.consumed().subrange(c0.len() as int, reader.consumed().len() as int);
        let rest = self.ei + self.ej - 8;
        let ghost pend1b = br.pending();
        let ghost prev2 = reader.consumed();
        let ghost prest2 = reader.rest();
        let ghost rem1 = reader.remaining();
        let second = if rest == 0 {
            Some(0u32)
        } else {
            match br.read_bits(reader, rest) {
                Ok(v) => v,
                Err(e) => {
                    return Err(LzssError::ReadError(e));
                },
            }
        };
        let ghost d2 = reader.consumed().subrange(c0.len() as int, reader.consumed().len() as int);
        proof {
            if rest == 0 {
                assert(reader.consumed() == prev2);
                assert(reader.consumed().subrange(0, prev2.len() as int) =~= prev2);
            }
            lemma_consumed_step(c0, prev2, reader.consumed());
            if rest != 0 {
                lemma_rest_step(c0, prev2, reader.consumed(), prest2, reader.rest());
            } else {
                assert(reader.consumed().subrange(prev2.len() as int, prev2.len() as int) + prest2
                    =~= prest2);
                lemma_rest_step(c0, prev2, reader.consumed(), prest2, reader.rest());
            }
            lemma_bits_grow(*self, c0, prev2, reader.consumed(), pos, pos + 9, h, pend1b);
            assert(prev2.subrange(c0.len() as int, prev2.len() as int) == d1);
            assert(bytes_bits(d2).subrange(0, bytes_bits(d1).len() as int) == bytes_bits(d1));
            assert forall|i: int| 0 <= i < 9 implies #[trigger] bytes_bits(d2).subrange(pos, pos + 9)[i] == bytes_bits(d1).subrange(pos, pos + 9)[i] by {
                assert(bytes_bits(d2).subrange(0, bytes_bits(d1).len() as int)[pos + i] == bytes_bits(d1)[pos + i]);
            }
            assert(bytes_bits(d2).subrange(pos, pos + 9) =~= bytes_bits(d1).subrange(pos, pos + 9));
        }
        match second {
            None => {
                proof {
                    let got = bytes_bits(reader.consumed().subrange(prev2.len() as int, reader.consumed().len() as int));
                    let bb2 = bytes_bits(d2);
                    assert(bb2.subrange(pos + 9, bb2.len() as int) == pend1b + got);
                    assert(pend1b.len() + got.len() < rest);
                    assert(bb2.subrange(pos + 9, bb2.len() as int).len() == bb2.len() - (pos + 9));
                    assert((pend1b + got).len() == pend1b.len() + got.len());
                    assert((bytes_bits(d2).len() - pos) < 1 + self.ei + self.ej);
                    lemma_stop_match(*self, bytes_bits(d2), pos, h);
                }
                Ok(None)
            },
            Some(inp2) => {
                let ghost pend2 = br.pending();
                let ghost bb2 = bytes_bits(d2);
                let ghost w = (1 + self.ei + self.ej) as nat;
                proof {
                    vstd::arithmetic::power2::lemma2_to64();
                    if rest == 0 {
                        assert(bb2.subrange(pos + 9, pos + 9) =~= bits_of(0, 0));
                        assert(pend2 == pend1b);
                        assert(8 * reader.remaining() + pend2.len() < 8 * rem1 + pend1b.len() + 9);
                    } else {
                        lemma_bits_of_len(inp2 as nat, rest as nat);
                        lemma_bytes_bits_len(reader.consumed().subrange(prev2.len() as int, reader.consumed().len() as int));
                        lemma_took(
                            bb2,
                            pos + 9,
                            pend1b,
                            bytes_bits(reader.consumed().subrange(prev2.len() as int, reader.consumed().len() as int)),
                            inp2 as nat,
                            rest as nat,
                            pend2,
                        );
                        let got = bytes_bits(reader.consumed().subrange(prev2.len() as int, reader.consumed().len() as int));
                        assert((pend1b + got).len() == (bits_of(inp2 as nat, rest as nat) + pend2).len());
                        assert(8 * reader.remaining() + pend2.len() < 8 * rem1 + pend1b.len() + 9);
                    }
                    lemma_join_code(bb2, pos, inp, inp2, rest as nat);
                }
                let code = (inp << (rest as u32)) | inp2;
                let ej = self.ej as u32;
                proof {
                    lemma_split_code(code, self.ei_nat(), self.ej_nat());
                }
                let i = (code >> ej) as usize;
                let j = (code & ((1u32 << ej) - 1)) as usize;
                let l = j + p + 1;
                let ghost run = copy_run(h, match_source(*self, h, i as nat), l as nat);
                proof {
                    lemma_match_step(*self, bb2, pos, h, code as nat);
                }
                match self.copy_match(buffer, writer, r, i, l, Ghost(h)) {
                    Ok(r2) => {
                        r = r2;
                    },
                    Err(e) => {
                        return Err(LzssError::WriteError(e));
                    },
                }
                proof {
                    lemma_copy_run_push(h, match_source(*self, h, i as nat), l as nat);
                    assert((h + run).len() == h.len() + l);
                    assert((h + run).subrange(0, h.len() as int) =~= h);
                    let hs = h.subrange(nn, h.len() as int);
                    assert((h + run).subrange(nn, (h + run).len() as int) =~= hs + run);
                    assert((w0 + hs) + run =~= w0 + (hs + run));
                }
                Ok(Some((r, Ghost(pos + w), Ghost(h + run))))
            },
        }
    }

    /// `x mod N`, computed with the mask `N - 1`.
    pub(crate) fn wrap(&self, x: usize) -> (r: usize)
        requires
            self.wf(),
        ensures
            r as int == (x as int) % (self.n_spec() as int),
            r < self.n_spec(),
    {
        proof {
            self.lemma_sizes();
            lemma_usize_low_bits_mask_is_mod(x, self.ei_nat());
            vstd::bits::lemma_low_bits_mask_values();
            vstd::bits::lemma_usize_pow2_no_overflow(self.ei_nat());
            vstd::arithmetic::div_mod::lemma_mod_bound(x as int, self.n_spec() as int);
        }
        let n = self.n();
        x & (n - 1)
    }

    /// Decompresses everything `reader` yields into `writer`, using `buffer` as the
    /// window; the first `N` bytes of `buffer` must hold the fill byte.
    pub(crate) fn decompress_internal<R: Read, W: Write>(
        &self,
        reader: &mut R,
        writer: &mut W,
        buffer: &mut [u8],
    ) -> (res: Result<(), LzssError<R::Error, W::Error>>)
        requires
            self.wf(),
            old(buffer)@.len() >= self.n_spec(),
            forall|i: int| 0 <= i < self.n_spec() ==> #[trigger] old(buffer)@[i] == self.fill(),
        ensures
            res is Ok ==> {
                let before = old(reader).consumed();
                let after = final(reader).consumed();
                let d = after.subrange(before.len() as int, after.len() as int);
                &&& before.len() <= after.len()
                &&& after.subrange(0, before.len() as int) == before
                &&& d == old(reader).rest()
                &&& final(reader).rest().len() == 0
                &&& final(writer).written() == old(writer).written() + decompressed(
                    *self,
                    old(reader).rest(),
                )
            },
            old(reader).never_fails() && old(writer).never_fails() ==> res is Ok
                && final(writer).never_fails(),
            res is Ok && old(writer).never_fails() ==> final(writer).never_fails(),
            res matches Err(LzssError::ReadError(e)) ==> final(reader).error() == Some(e)
                && !old(reader).never_fails(),
            res matches Err(LzssError::WriteError(e)) ==> final(writer).error() == Some(e)
                && !old(writer).never_fails(),
    {
        proof {
            self.lemma_sizes();
        }
        let n = self.n();
        let f = self.f();
        let p = self.p();
        let ghost rnf = reader.never_fails();
        let ghost rest0 = reader.rest();
        let ghost wnf = writer.never_fails();
        let ghost c0 = reader.consumed();
        let ghost w0 = writer.written();
        let ghost nn = n as int;
        let ghost ff = f as int;
        let ghost init = fill_run(self.c, n as nat);
        let ghost mut h: Seq<u8> = init;
        let ghost mut pos: int = 0;
        let mut br = BitReader::new();
        let mut r = n - f;
        let mut done = false;
        proof {
            reveal(ring);
            reveal(decode_state);
            assert(reader.consumed().subrange(0, c0.len() as int) =~= c0);
            assert(reader.consumed().subrange(c0.len() as int, c0.len() as int) =~= Seq::<u8>::empty());
            assert(bytes_bits(Seq::<u8>::empty()) =~= Seq::<bool>::empty());
            assert(writer.written().subrange(0, w0.len() as int) =~= w0);
            assert(h.subrange(nn, h.len() as int) =~= Seq::<u8>::empty());
            assert forall|e: Seq<bool>| #[trigger] decode_from(
                *self,
                Seq::<bool>::empty() + e,
                0,
                init,
            ) == h.subrange(nn, h.len() as int) + decode_from(
                *self,
                Seq::<bool>::empty() + e,
                pos,
                h,
            ) by {
                assert(h.subrange(nn, h.len() as int) + decode_from(
                    *self,
                    Seq::<bool>::empty() + e,
                    pos,
                    h,
                ) =~= decode_from(*self, Seq::<bool>::empty() + e, pos, h));
            }
            vstd::arithmetic::div_mod::lemma_small_mod((nn - ff) as nat, nn as nat);
        }
        while !done
            invariant
                self.wf(),
                n == self.n_spec(),
                f == self.f_spec(),
                p == self.p_spec(),
                nn == n,
                ff == f,
                init == fill_run(self.c, n as nat),
                buffer@.len() >= n,
                !done ==> br.wf(),
                h.len() >= n,
                h.subrange(0, nn) == init,
                r == (h.len() - ff) % nn,
                ring(buffer@, h, nn, ff),
                0 <= pos,
                c0.len() <= reader.consumed().len(),
                reader.consumed().subrange(0, c0.len() as int) == c0,
                ({
                    let bb = bytes_bits(reader.consumed().subrange(c0.len() as int, reader.consumed().len() as int));
                    &&& pos <= bb.len()
                    &&& !done ==> bb.subrange(pos, bb.len() as int) == br.pending()
                    &&& decode_state(*self, bb, pos, h)
                    &&& done ==> decode_from(*self, bb, pos, h) == Seq::<u8>::empty()
                }),
                w0.len() <= writer.written().len(),
                writer.written() == w0 + h.subrange(nn, h.len() as int),
                rnf == old(reader).never_fails(),
                rest0 == old(reader).rest(),
                reader.consumed().subrange(c0.len() as int, reader.consumed().len() as int)
                    + reader.rest() == rest0,
                done ==> reader.rest().len() == 0,
                wnf == old(writer).never_fails(),
                rnf ==> reader.never_fails(),
                wnf ==> writer.never_fails(),
            decreases if done {
                0int
            } else {
                (8 * reader.remaining() + br.pending().len() + 1) as int
            },
        {
            let ghost d0 = reader.consumed().subrange(c0.len() as int, reader.consumed().len() as int);
            let ghost prev_consumed = reader.consumed();
            let ghost prest0 = reader.rest();
            let ghost pend0 = br.pending();
            let ghost rem0 = reader.remaining();
            let first = match br.read_bits(reader, 9) {
                Ok(v) => v,
                Err(e) => {
                    return Err(LzssError::ReadError(e));
                },
            };
            let ghost d1 = reader.consumed().subrange(c0.len() as int, reader.consumed().len() as int);
            proof {
                lemma_consumed_step(c0, prev_consumed, reader.consumed());
                lemma_rest_step(c0, prev_consumed, reader.consumed(), prest0, reader.rest());
                lemma_bits_grow(*self, c0, prev_consumed, reader.consumed(), pos, pos, h, pend0);
            }
            match first {
                None => {
                    proof {
                        let got = bytes_bits(reader.consumed().subrange(prev_consumed.len() as int, reader.consumed().len() as int));
                        assert(bytes_bits(d1).subrange(pos, bytes_bits(d1).len() as int) == pend0 + got);
                        assert(pend0.len() + got.len() < 9);
                        assert(pos <= bytes_bits(d1).len());
                        assert(bytes_bits(d1).subrange(pos, bytes_bits(d1).len() as int).len() == bytes_bits(d1).len() - pos);
                        assert((pend0 + got).len() == pend0.len() + got.len());
                        assert(bytes_bits(d1).len() - pos < 9);
                        lemma_stop_short(*self, bytes_bits(d1), pos, h);
                    }
                    done = true;
                },
                Some(inp) => {
                    let ghost pend1 = br.pending();
                    proof {
                        lemma_took(
                            bytes_bits(d1),
                            pos,
                            pend0,
                            bytes_bits(reader.consumed().subrange(prev_consumed.len() as int, reader.consumed().len() as int)),
                            inp as nat,
                            9,
                            pend1,
                        );
                        lemma_value_of_bits(inp as nat, 9);
                        lemma_bits_of_len(inp as nat, 9);
                        lemma_bytes_bits_len(reader.consumed().subrange(prev_consumed.len() as int, reader.consumed().len() as int));
                        let got = bytes_bits(reader.consumed().subrange(prev_consumed.len() as int, reader.consumed().len() as int));
                        assert((pend0 + got).len() == (bits_of(inp as nat, 9) + pend1).len());
                        assert(8 * reader.remaining() + pend1.len() + 9 <= 8 * rem0 + pend0.len());
                        vstd::arithmetic::power2::lemma2_to64();
                        vstd::arithmetic::div_mod::lemma_small_mod(inp as nat, 512);
                    }
                    if (inp & 0x100) != 0 {
                        proof {
                            vstd::arithmetic::power2::lemma2_to64();
                            assert(inp & 0x100 != 0 && inp < 512 ==> inp >= 256) by (bit_vector);
                        }
                        let b = (inp - 256) as u8;
                        match writer.write(b) {
                            Ok(()) => {},
                            Err(e) => {
                                return Err(LzssError::WriteError(e));
                            },
                        }
                        proof {
                            lemma_ring_push(buffer@, h, nn, ff, b);
                            lemma_literal_step(*self, bytes_bits(d1), pos, h, b);
                        }
                        buffer[r] = b;
                        proof {
                            lemma_cursor_step(h.len() as int, ff, nn);
                            assert(h.push(b).subrange(0, nn) =~= h.subrange(0, nn));
                            assert(h.push(b).subrange(nn, h.len() as int + 1) =~= h.subrange(nn, h.len() as int).push(b));
                            h = h.push(b);
                            pos = pos + 9;
                        }
                        r = self.wrap(r + 1);
                    } else {
                        proof {
                            vstd::arithmetic::power2::lemma2_to64();
                            assert(inp & 0x100 == 0 && inp < 512 ==> inp < 256) by (bit_vector);
                        }
                        match self.decode_match(&mut br, reader, writer, buffer, r, inp, Ghost(c0), Ghost(w0), Ghost(pos), Ghost(h)) {
                            Ok(Some((r2, pos2, h2))) => {
                                r = r2;
                                proof {
                                    pos = pos2@;
                                    h = h2@;
                                }
                            },
                            Ok(None) => {
                                done = true;
                            },
                            Err(e) => {
                                return Err(e);
                            },
                        }
                    }
                },
            }
        }
        proof {
            let d = reader.consumed().subrange(c0.len() as int, reader.consumed().len() as int);
            let bb = bytes_bits(d);
            reveal(decode_state);
            assert(bb + Seq::<bool>::empty() =~= bb);
            assert(init == fill_run(self.fill(), self.n_spec()));
            assert(decode_from(*self, bb + Seq::<bool>::empty(), 0, init) == h.subrange(nn, h.len() as int) + decode_from(*self, bb + Seq::<bool>::empty(), pos, h));
            assert(h.subrange(nn, h.len() as int) + Seq::<u8>::empty() =~= h.subrange(nn, h.len() as int));
            assert(d + reader.rest() =~= d);
        }
        Ok(())
    }
}

} // verus!
