//! Compression of a buffer into its own front while its tail still holds the input.

use vstd::prelude::*;

use crate::bits::{
    bits_of, bytes_bits, lemma_bits_of_len, lemma_bytes_bits_concat, lemma_bytes_bits_len, padding,
    HeldBits,
};
use crate::compress::{lemma_mirror_narrow, mirrors};
use crate::model::{
    best_from, code_of, compressed, encode_from, lemma_pack_unique, lemma_parse_n_encode,
    lookahead_at, pack, parse_n, token_code, virtual_input,
};
use crate::laws::lemma_token_cost;
use crate::model::{advance, token_bits};
use crate::params::LzssDyn;
use crate::search::{find_match, lemma_best_bounds, lemma_best_shift};

verus! {

/// The smallest offset at which the input may start: room for the seeded
/// dictionary and the gap between output and input.
pub open spec fn min_offset(p: LzssDyn) -> nat {
    ((p.n_spec() - p.f_spec()) + p.p_spec() + 4) as nat
}

/// The token chosen at `r` of the buffer is the next token of the stream.
proof fn lemma_in_place_step(
    p: LzssDyn,
    io: Seq<u8>,
    v: Seq<u8>,
    base: int,
    s: int,
    r: int,
    k: nat,
    emitted: Seq<bool>,
    f1: nat,
    x: int,
    y0: nat,
    xa: int,
)
    requires
        p.wf(),
        0 <= s,
        s + (p.n_spec() - p.f_spec()) == r,
        r < io.len(),
        v.len() == base + io.len(),
        s + base >= 0,
        f1 == if p.f_spec() < io.len() - r { p.f_spec() } else { (io.len() - r) as nat },
        mirrors(io, v, base, s, io.len() as int),
        parse_n(p, v, k) == (emitted, r + base),
        (x, y0) == best_from(io, s, r, f1),
        xa % (p.n_spec() as int) == (x + base) % (p.n_spec() as int),
    ensures
        ({
            let code = code_of(p, xa, y0, io[r]);
            let adv = if y0 <= p.p_spec() { 1 } else { y0 };
            &&& parse_n(p, v, k + 1) == (emitted + bits_of(code.0, code.1), r + base + adv)
            &&& bits_of(code.0, code.1) == token_bits(p, v, r + base)
            &&& adv == advance(p, v, r + base)
            &&& p.n_spec() - p.f_spec() <= r + base < v.len()
        }),
{
    reveal(mirrors);
    p.lemma_sizes();
    vstd::arithmetic::power2::lemma_pow2_pos(p.ej_nat());
    let q = r + base;
    assert forall|kk: int| s <= kk < r + f1 implies io[kk] == v[kk + base] by {}
    lemma_best_shift(io, v, base, s, r, f1);
    lemma_best_bounds(io, s, r, f1);
    assert(s + base == q - (p.n_spec() - p.f_spec()));
    assert(lookahead_at(p, v, q) == f1);
    assert(v[q] == io[r]);
    assert(token_code(p, v, q) == code_of(p, xa, y0, io[r]));
}

impl LzssDyn {
    /// The smallest offset `compress_in_place` works with.
    pub fn min_offset(&self) -> (r: usize)
        requires
            self.wf(),
        ensures
            r == min_offset(*self),
    {
        proof {
            self.lemma_sizes();
        }
        self.n() - self.f() + self.p() + 4
    }

    /// Compresses `io[offset..]` into the front of `io`.
    ///
    /// Returns `(0, None)` where `offset` is past the input and `(0, Some(offset))`,
    /// with `io` untouched, where `offset` is below [`LzssDyn::min_offset`]. Else the
    /// compressed bytes stand in `io[..len]`; the result is `(len, None)` when all
    /// the input was compressed, and `(len, Some(rest))` when the output came too
    /// close to the input: then `io[rest..]` is the input not yet compressed,
    /// untouched, and `io[..len]` is the compressed form of the input before it.
    #[verifier::rlimit(60)]
    pub fn compress_in_place(&self, io: &mut [u8], offset: usize) -> (res: (usize, Option<usize>))
        requires
            self.wf(),
        ensures
            final(io)@.len() == old(io)@.len(),
            offset >= old(io)@.len() ==> res == (0usize, None::<usize>) && final(io)@ == old(io)@,
            offset < old(io)@.len() && offset < min_offset(*self) ==> res == (0usize, Some(offset))
                && final(io)@ == old(io)@,
            offset < old(io)@.len() && offset >= min_offset(*self) ==> {
                let d = old(io)@.subrange(offset as int, old(io)@.len() as int);
                let v = virtual_input(*self, d);
                &&& res.0 <= old(io)@.len()
                &&& forall|j: int|
                    res.0 <= j < old(io)@.len() && !(offset - (self.n_spec() - self.f_spec()) <= j
                        < offset) ==> #[trigger] final(io)@[j] == old(io)@[j]
                &&& offset >= min_offset(*self) + (old(io)@.len() - offset) / 8 ==> res.1 is None
                &&& res.1 is None ==> final(io)@.subrange(0, res.0 as int) == compressed(*self, d)
                &&& res.1 matches Some(rest) ==> {
                    &&& offset < rest <= old(io)@.len()
                    &&& res.0 < rest
                    &&& res.0 + self.p_spec() + 4 > rest - (self.n_spec() - self.f_spec())
                    &&& forall|q: int|
                        rest - (self.n_spec() - self.f_spec()) <= q < old(io)@.len()
                            ==> #[trigger] final(io)@[q] == v[q - offset + (self.n_spec()
                            - self.f_spec())]
                    &&& final(io)@.subrange(rest as int, old(io)@.len() as int) == old(
                        io,
                    )@.subrange(rest as int, old(io)@.len() as int)
                    &&& exists|k: nat|
                        #![trigger parse_n(*self, v, k)]
                        parse_n(*self, v, k).1 == rest - offset + (self.n_spec() - self.f_spec())
                            && final(io)@.subrange(0, res.0 as int) == pack(parse_n(*self, v, k).0)
                }
            },
    {
        proof {
            self.lemma_sizes();
        }
        let len = io.len();
        if offset >= len {
            return (0, None);
        }
        let n = self.n();
        let f = self.f();
        let p = self.p();
        let nf = n - f;
        let gap = p + 4;
        if offset < nf + gap {
            return (0, Some(offset));
        }
        let ghost io0 = io@;
        let ghost d = io0.subrange(offset as int, len as int);
        let ghost v = virtual_input(*self, d);
        let ghost base: int = nf - offset;
        fill_range(io, offset - nf, offset, self.c);
        let ghost io_seed = io@;
        let mut bw = HeldBits::new();
        let mut out_ptr: usize = 0;
        let mut s = offset - nf;
        let mut r = offset;
        let offset2 = n - self.wrap(self.wrap(offset) + f);
        proof {
            lemma_offset2(offset as int, f as int, n as int);
        }
        let mut stopped = false;
        let ghost mut k: nat = 0;
        let ghost mut emitted: Seq<bool> = Seq::empty();
        let ghost roomy = offset >= nf + gap + (len - offset) / 8;
        proof {
            lemma_in_place_start(io@, io0, v, d, *self, base, s as int, offset as int, len as int);
            assert(io@.subrange(0, 0) =~= Seq::<u8>::empty());
            assert(bytes_bits(Seq::<u8>::empty()) =~= Seq::<bool>::empty());
        }
        while r < len && !stopped
            invariant
                self.wf(),
                n == self.n_spec(),
                f == self.f_spec(),
                p == self.p_spec(),
                nf == n - f,
                gap == p + 4,
                n <= 0x80_0000,
                io@.len() == len,
                nf + gap <= offset < len,
                base == nf - offset,
                v.len() == base + len,
                offset2 < n + 1,
                (offset2 - base) % (n as int) == 0,
                gap <= s,
                bw.wf(),
                s + nf == r,
                offset <= r <= len,
                out_ptr + p <= s,
                !stopped ==> out_ptr + gap <= s,
                stopped ==> offset < r,
                mirrors(io@, v, base, s as int, len as int),
                bytes_bits(io@.subrange(0, out_ptr as int)) + bw.pending() == emitted,
                parse_n(*self, v, k) == (emitted, r + base),
                emitted.len() <= 9 * (r - offset),
                8 * out_ptr + bw.pending().len() == emitted.len(),
                stopped ==> out_ptr + gap > s,
                roomy == (offset >= nf + gap + (len - offset) / 8),
                roomy ==> !stopped,
                io_seed.len() == len,
                forall|j: int| out_ptr <= j < len ==> #[trigger] io@[j] == io_seed[j],
            decreases len - r + if stopped { 0int } else { 1int },
        {
            let f1 = if f < len - r {
                f
            } else {
                len - r
            };
            let (x, y0) = find_match(io, s, r, f1);
            let c = io[r];
            let xa = self.wrap(self.wrap(x) + offset2);
            proof {
                lemma_best_bounds(io@, s as int, r as int, f1 as nat);
                lemma_wrap_offset(x as int, offset2 as int, base, n as int);
                lemma_in_place_step(*self, io@, v, base, s as int, r as int, k, emitted, f1 as nat, x as int, y0 as nat, xa as int);
            }
            let (data, bl) = self.encode_token(xa, y0, c);
            let ghost io1 = io@;
            let ghost pend1 = bw.pending();
            let ghost op1 = out_ptr;
            out_ptr = bw.write_bits_into(io, out_ptr, data as u64, bl);
            let y = if y0 <= p {
                1
            } else {
                y0
            };
            proof {
                let tok = bits_of(data as nat, bl as nat);
                lemma_out_step(io1, io@, op1 as int, out_ptr as int, pend1, bw.pending(), emitted, tok);
                lemma_frame_step(io1, io@, io_seed, op1 as int, out_ptr as int);
                lemma_keep_tail(io1, io@, v, base, s as int, (s + y) as int, out_ptr as int, len as int);
                lemma_token_cost(*self, v, r + base);
                lemma_step_len(
                    io@.subrange(0, out_ptr as int),
                    bw.buf as nat,
                    bw.bits_in_buf as nat,
                    emitted,
                    tok,
                    (r - offset) as int,
                    y as int,
                );
                assert(io@.subrange(0, out_ptr as int).len() == out_ptr);
                emitted = emitted + tok;
                k = k + 1;
                if roomy {
                    lemma_room(out_ptr as int, (r + y - offset) as int, (len - offset) as int);
                }
            }
            r = r + y;
            s = s + y;
            if out_ptr > s - gap {
                stopped = true;
            }
        }
        let ghost pre = io@;
        let ghost pend = bw.pending();
        let ghost nbits = bw.bits_in_buf;
        let ghost pbuf = bw.buf;
        let ghost op = out_ptr;
        out_ptr = bw.flush_into(io, out_ptr);
        proof {
            lemma_flush_pack(pre, io@, op as int, out_ptr as int, pend, nbits as nat, pbuf as nat, emitted);
            lemma_frame_step(pre, io@, io_seed, op as int, out_ptr as int);
            lemma_keep_tail(pre, io@, v, base, s as int, s as int, out_ptr as int, len as int);
            lemma_mirror_narrow(io@, v, base, s as int, r as int, len as int);
            reveal(mirrors);
            lemma_tail_is_input(*self, io@, io0, v, d, base, offset as int, r as int, len as int);
        }
        if stopped {
            proof {
                assert(parse_n(*self, v, k).1 == r - offset + (self.n_spec() - self.f_spec()));
                assert(io@.subrange(0, out_ptr as int) == pack(parse_n(*self, v, k).0));
            }
            (out_ptr, Some(r))
        } else {
            proof {
                lemma_parse_n_encode(*self, v, k);
                assert(encode_from(*self, v, v.len() as int) =~= Seq::<bool>::empty());
                assert(emitted + Seq::<bool>::empty() =~= emitted);
            }
            (out_ptr, None)
        }
    }
}

proof fn lemma_in_place_start(
    io: Seq<u8>,
    io0: Seq<u8>,
    v: Seq<u8>,
    d: Seq<u8>,
    p: LzssDyn,
    base: int,
    s: int,
    offset: int,
    len: int,
)
    requires
        p.wf(),
        s == offset - (p.n_spec() - p.f_spec()),
        0 <= s,
        base == -s,
        offset < len,
        io.len() == len,
        io0.len() == len,
        d == io0.subrange(offset, len),
        v == virtual_input(p, d),
        forall|j: int| s <= j < offset ==> #[trigger] io[j] == p.fill(),
        forall|j: int| 0 <= j < len && !(s <= j < offset) ==> #[trigger] io[j] == io0[j],
    ensures
        mirrors(io, v, base, s, len),
        v.len() == base + len,
{
    p.lemma_sizes();
    reveal(mirrors);
    assert forall|q: int| s <= q < len implies #[trigger] io[q] == v[q + base] by {
        if q < offset {
        } else {
            assert(v[q + base] == d[q - offset]);
        }
    }
}

#[verifier::rlimit(40)]
proof fn lemma_flush_pack(
    pre: Seq<u8>,
    io: Seq<u8>,
    op: int,
    out: int,
    pend: Seq<bool>,
    nbits: nat,
    pbuf: nat,
    emitted: Seq<bool>,
)
    requires
        0 <= op <= out <= pre.len(),
        io.len() == pre.len(),
        pend == bits_of(pbuf, nbits),
        forall|i: int| 0 <= i < pre.len() && !(op <= i < out) ==> #[trigger] io[i] == pre[i],
        bytes_bits(pre.subrange(0, op)) + pend == emitted,
        bytes_bits(io.subrange(op, out)) == pend + padding(nbits),
    ensures
        io.subrange(0, out) == pack(emitted),
{
    let body = pre.subrange(0, op);
    let tail = io.subrange(op, out);
    assert(io.subrange(0, op) =~= body);
    assert(io.subrange(0, out) =~= body + tail);
    lemma_bytes_bits_concat(body, tail);
    lemma_bytes_bits_len(body);
    lemma_bits_of_len(pbuf, nbits);
    assert(padding(nbits) =~= padding(emitted.len()));
    assert(bytes_bits(body + tail) =~= emitted + padding(emitted.len()));
    lemma_pack_unique(emitted, body + tail);
}

proof fn lemma_tail_is_input(
    p: LzssDyn,
    io: Seq<u8>,
    io0: Seq<u8>,
    v: Seq<u8>,
    d: Seq<u8>,
    base: int,
    offset: int,
    r: int,
    len: int,
)
    requires
        p.wf(),
        0 <= offset <= r <= len,
        io.len() == len,
        io0.len() == len,
        d == io0.subrange(offset, len),
        v.len() == base + len,
        base == (p.n_spec() - p.f_spec()) - offset,
        v == virtual_input(p, d),
        mirrors(io, v, base, r, len),
    ensures
        io.subrange(r, len) == io0.subrange(r, len),
{
    p.lemma_sizes();
    reveal(mirrors);
    assert forall|q: int| r <= q < len implies io[q] == io0[q] by {
        assert(io[q] == v[q + base]);
        assert(v[q + base] == d[q - offset]);
    }
    assert(io.subrange(r, len) =~= io0.subrange(r, len));
}

proof fn lemma_step_len(
    ob: Seq<u8>,
    buf: nat,
    bits: nat,
    emitted: Seq<bool>,
    tok: Seq<bool>,
    x: int,
    y: int,
)
    requires
        bytes_bits(ob) + bits_of(buf, bits) == emitted + tok,
        emitted.len() <= 9 * x,
        tok.len() <= 9 * y,
    ensures
        8 * ob.len() + bits == (emitted + tok).len(),
        bits_of(buf, bits).len() == bits,
        (emitted + tok).len() <= 9 * (x + y),
        8 * ob.len() <= 9 * (x + y),
{
    crate::bits::lemma_bytes_bits_len(ob);
    lemma_bits_of_len(buf, bits);
}

/// Stores in `[op1, op2)` keep the bytes from `op2` on as they were seeded.
proof fn lemma_frame_step(io1: Seq<u8>, io2: Seq<u8>, seed: Seq<u8>, op1: int, op2: int)
    requires
        0 <= op1 <= op2,
        io1.len() == seed.len(),
        io2.len() == io1.len(),
        forall|j: int| op1 <= j < io1.len() ==> #[trigger] io1[j] == seed[j],
        forall|i: int| 0 <= i < io1.len() && !(op1 <= i < op2) ==> #[trigger] io2[i] == io1[i],
    ensures
        forall|j: int| op2 <= j < io2.len() ==> #[trigger] io2[j] == seed[j],
{
    assert forall|j: int| op2 <= j < io2.len() implies #[trigger] io2[j] == seed[j] by {
        assert(io2[j] == io1[j]);
    }
}

/// Output of at most nine bits per input byte stays within an eighth of the input
/// beyond it.
proof fn lemma_room(o: int, x: int, l: int)
    requires
        0 <= o,
        0 <= x <= l,
        8 * o <= 9 * x,
    ensures
        o <= x + l / 8,
{
    vstd::arithmetic::div_mod::lemma_div_is_ordered(x, l, 8);
    vstd::arithmetic::div_mod::lemma_fundamental_div_mod(x, 8);
    assert(o <= x + x / 8) by (nonlinear_arith)
        requires
            8 * o <= 9 * x,
            x == 8 * (x / 8) + x % 8,
            0 <= x % 8 < 8,
    ;
}

/// Sets `buf[from..to]` to `c`, keeping the rest.
fn fill_range(buf: &mut [u8], from: usize, to: usize, c: u8)
    requires
        from <= to <= old(buf)@.len(),
    ensures
        final(buf)@.len() == old(buf)@.len(),
        forall|j: int| from <= j < to ==> #[trigger] final(buf)@[j] == c,
        forall|j: int| 0 <= j < old(buf)@.len() && !(from <= j < to) ==> #[trigger] final(buf)@[j] == old(buf)@[j],
{
    let mut i = from;
    while i < to
        invariant
            from <= i <= to <= buf@.len(),
            buf@.len() == old(buf)@.len(),
            forall|j: int| from <= j < i ==> #[trigger] buf@[j] == c,
            forall|j: int| 0 <= j < buf@.len() && !(from <= j < i) ==> #[trigger] buf@[j] == old(buf)@[j],
        decreases to - i,
    {
        buf[i] = c;
        i = i + 1;
    }
}

/// Bytes stored after the output so far extend its bits.
proof fn lemma_out_step(
    io1: Seq<u8>,
    io2: Seq<u8>,
    op1: int,
    op2: int,
    pend1: Seq<bool>,
    pend2: Seq<bool>,
    emitted: Seq<bool>,
    tok: Seq<bool>,
)
    requires
        0 <= op1 <= op2 <= io1.len(),
        io2.len() == io1.len(),
        forall|i: int| 0 <= i < io1.len() && !(op1 <= i < op2) ==> #[trigger] io2[i] == io1[i],
        bytes_bits(io1.subrange(0, op1)) + pend1 == emitted,
        bytes_bits(io2.subrange(op1, op2)) + pend2 == pend1 + tok,
    ensures
        bytes_bits(io2.subrange(0, op2)) + pend2 == emitted + tok,
{
    assert(io2.subrange(0, op1) =~= io1.subrange(0, op1));
    assert(io2.subrange(0, op2) =~= io2.subrange(0, op1) + io2.subrange(op1, op2));
    lemma_bytes_bits_concat(io2.subrange(0, op1), io2.subrange(op1, op2));
    let aa = bytes_bits(io1.subrange(0, op1));
    let bb = bytes_bits(io2.subrange(op1, op2));
    assert((aa + bb) + pend2 =~= aa + (bb + pend2));
    assert(aa + (pend1 + tok) =~= (aa + pend1) + tok);
}

/// Stores below `s` keep the bytes from `s2 >= s` on.
proof fn lemma_keep_tail(
    io1: Seq<u8>,
    io2: Seq<u8>,
    v: Seq<u8>,
    base: int,
    s: int,
    s2: int,
    op: int,
    len: int,
)
    requires
        0 <= op <= s <= s2,
        0 <= s + base,
        v.len() == base + len,
        io1.len() == len,
        io2.len() == len,
        mirrors(io1, v, base, s, len),
        forall|i: int| 0 <= i < len && op <= i ==> #[trigger] io2[i] == io1[i],
    ensures
        mirrors(io2, v, base, s2, len),
{
    reveal(mirrors);
    assert forall|q: int| s2 <= q < len implies #[trigger] io2[q] == v[q + base] by {
        assert(io1[q] == v[q + base]);
    }
}

/// The offset correction `n - (offset + f) mod n` is congruent to `n - f - offset`.
proof fn lemma_offset2(offset: int, f: int, n: int)
    requires
        n > 0,
        0 <= offset,
        0 <= f,
    ensures
        (n - ((offset % n + f) % n)) - (n - f - offset) == n * ((offset % n + f) / n) + n * (offset / n),
        ((n - ((offset % n + f) % n)) - (n - f - offset)) % n == 0,
        n - ((offset % n + f) % n) <= n,
{
    vstd::arithmetic::div_mod::lemma_fundamental_div_mod(offset, n);
    vstd::arithmetic::div_mod::lemma_fundamental_div_mod(offset % n + f, n);
    vstd::arithmetic::div_mod::lemma_mod_bound(offset % n + f, n);
    let d = (n - ((offset % n + f) % n)) - (n - f - offset);
    assert(d == n * ((offset % n + f) / n) + n * (offset / n));
    assert(d == n * ((offset % n + f) / n + offset / n)) by (nonlinear_arith)
        requires
            d == n * ((offset % n + f) / n) + n * (offset / n),
    ;
    vstd::arithmetic::div_mod::lemma_mod_multiples_basic((offset % n + f) / n + offset / n, n);
    assert(n * ((offset % n + f) / n + offset / n) == ((offset % n + f) / n + offset / n) * n) by (nonlinear_arith);
}

/// The window offset of buffer position `x`, corrected by `offset2`, is that of
/// stream position `x + base`.
proof fn lemma_wrap_offset(x: int, offset2: int, base: int, n: int)
    requires
        n > 0,
        0 <= x,
        0 <= offset2,
        (offset2 - base) % n == 0,
    ensures
        ((x % n + offset2) % n) % n == (x + base) % n,
{
    vstd::arithmetic::div_mod::lemma_mod_twice(x % n + offset2, n);
    vstd::arithmetic::div_mod::lemma_add_mod_noop(x % n, offset2, n);
    vstd::arithmetic::div_mod::lemma_mod_twice(x, n);
    vstd::arithmetic::div_mod::lemma_add_mod_noop(x, offset2, n);
    vstd::arithmetic::div_mod::lemma_fundamental_div_mod(offset2 - base, n);
    vstd::arithmetic::div_mod::lemma_mod_multiples_vanish((offset2 - base) / n, x + base, n);
    assert(x + offset2 == n * ((offset2 - base) / n) + (x + base));
}

} // verus!
