use vstd::arithmetic::div_mod::{
    lemma_div_denominator, lemma_fundamental_div_mod_converse, lemma_mod_breakdown,
};
use vstd::arithmetic::mul::{lemma_mul_strict_inequality, lemma_mul_inequality};
use vstd::arithmetic::power2::{lemma_pow2_adds, lemma_pow2_pos, lemma_pow2_unfold, pow2};
use vstd::bits::{
    lemma_u64_low_bits_mask_is_mod, lemma_u64_pow2_no_overflow, lemma_u64_shl_is_mul,
    lemma_u64_shr_is_div,
    lemma_u32_low_bits_mask_is_mod, lemma_u32_pow2_no_overflow, lemma_u32_shl_is_mul,
    lemma_u32_shr_is_div, low_bits_mask,
};
use vstd::prelude::*;

use crate::stream::{Read, Write};

verus! {

/// The `n` low bits of `v`, most significant first.
pub open spec fn bits_of(v: nat, n: nat) -> Seq<bool>
    decreases n,
{
    if n == 0 {
        Seq::empty()
    } else {
        bits_of(v / 2, (n - 1) as nat).push(v % 2 == 1)
    }
}

/// The number whose binary digits, most significant first, are `s`.
pub open spec fn value_of(s: Seq<bool>) -> nat
    decreases s.len(),
{
    if s.len() == 0 {
        0
    } else {
        2 * value_of(s.drop_last()) + if s.last() {
            1nat
        } else {
            0nat
        }
    }
}

/// The bits of a byte sequence, eight per byte, most significant first.
pub open spec fn bytes_bits(b: Seq<u8>) -> Seq<bool>
    decreases b.len(),
{
    if b.len() == 0 {
        Seq::empty()
    } else {
        bytes_bits(b.drop_last()) + bits_of(b.last() as nat, 8)
    }
}

/// The zero bits that complete `n` bits to a whole number of bytes.
pub open spec fn padding(n: nat) -> Seq<bool> {
    Seq::new(((8 - n % 8) % 8) as nat, |i: int| false)
}

pub proof fn lemma_bits_of_len(v: nat, n: nat)
    ensures
        bits_of(v, n).len() == n,
    decreases n,
{
    if n > 0 {
        lemma_bits_of_len(v / 2, (n - 1) as nat);
    }
}

pub proof fn lemma_bytes_bits_len(b: Seq<u8>)
    ensures
        bytes_bits(b).len() == 8 * b.len(),
    decreases b.len(),
{
    if b.len() > 0 {
        lemma_bytes_bits_len(b.drop_last());
        lemma_bits_of_len(b.last() as nat, 8);
    }
}

pub proof fn lemma_bytes_bits_push(b: Seq<u8>, x: u8)
    ensures
        bytes_bits(b.push(x)) == bytes_bits(b) + bits_of(x as nat, 8),
{
    assert(b.push(x).drop_last() =~= b);
}

/// The high `n` and low `m` bits of `v` together are its low `n + m` bits.
pub proof fn lemma_bits_split(v: nat, n: nat, m: nat)
    ensures
        bits_of(v, n + m) == bits_of(v / pow2(m), n) + bits_of(v % pow2(m), m),
    decreases m,
{
    lemma_pow2_pos(m);
    if m == 0 {
        vstd::arithmetic::power2::lemma2_to64();
        assert(bits_of(v, n) + bits_of(v % 1, 0) =~= bits_of(v, n));
    } else {
        let m1 = (m - 1) as nat;
        lemma_bits_split(v / 2, n, m1);
        lemma_pow2_unfold(m);
        lemma_pow2_pos(m1);
        lemma_div_denominator(v as int, 2, pow2(m1) as int);
        lemma_mod_breakdown(v as int, 2, pow2(m1) as int);
        let lo = v % pow2(m);
        assert(lo == 2 * ((v / 2) % pow2(m1)) + v % 2);
        assert(lo / 2 == (v / 2) % pow2(m1));
        assert(lo % 2 == v % 2);
        assert(bits_of(v, n + m) == bits_of(v / 2, (n + m1) as nat).push(v % 2 == 1));
        assert(bits_of(v / 2, n + m1) == bits_of(v / 2 / pow2(m1), n) + bits_of(
            (v / 2) % pow2(m1),
            m1,
        ));
        assert(bits_of(lo, m) == bits_of(lo / 2, m1).push(lo % 2 == 1));
        assert(bits_of(v, n + m) =~= bits_of(v / pow2(m), n) + bits_of(v % pow2(m), m));
    }
}

/// Appending `m` bits of `b` to `a` is multiplying by `2^m` and adding.
pub proof fn lemma_bits_append(a: nat, b: nat, n: nat, m: nat)
    requires
        b < pow2(m),
    ensures
        bits_of(a * pow2(m) + b, n + m) == bits_of(a, n) + bits_of(b, m),
{
    lemma_pow2_pos(m);
    lemma_bits_split(a * pow2(m) + b, n, m);
    lemma_fundamental_div_mod_converse(
        (a * pow2(m) + b) as int,
        pow2(m) as int,
        a as int,
        b as int,
    );
}

/// Reading back the bits of `v` gives `v` modulo `2^n`.
pub proof fn lemma_value_of_bits(v: nat, n: nat)
    ensures
        value_of(bits_of(v, n)) == v % pow2(n),
    decreases n,
{
    if n == 0 {
        vstd::arithmetic::power2::lemma2_to64();
    } else {
        let n1 = (n - 1) as nat;
        lemma_value_of_bits(v / 2, n1);
        lemma_pow2_unfold(n);
        lemma_pow2_pos(n1);
        lemma_mod_breakdown(v as int, 2, pow2(n1) as int);
        assert(bits_of(v, n).drop_last() =~= bits_of(v / 2, n1));
    }
}

/// The number read back from `n` bits is below `2^n`.
pub proof fn lemma_value_of_bound(s: Seq<bool>)
    ensures
        value_of(s) < pow2(s.len()),
    decreases s.len(),
{
    if s.len() == 0 {
        vstd::arithmetic::power2::lemma2_to64();
    } else {
        lemma_value_of_bound(s.drop_last());
        lemma_pow2_unfold(s.len());
    }
}

pub proof fn lemma_div_below(v: nat, k: nat, n: nat)
    requires
        v < pow2(k + n),
    ensures
        v / pow2(k) < pow2(n),
{
    lemma_pow2_pos(k);
    lemma_pow2_adds(k, n);
    if v / pow2(k) >= pow2(n) {
        lemma_mul_inequality(pow2(n) as int, (v / pow2(k)) as int, pow2(k) as int);
        assert(pow2(k) * (v / pow2(k)) <= v) by (nonlinear_arith)
            requires pow2(k) > 0;
        assert(pow2(n) * pow2(k) == pow2(k) * pow2(n)) by (nonlinear_arith);
    }
}

/// Packs bit fields into bytes, most significant bit first.
pub(crate) struct BitWriter {
    pub(crate) bits_in_buf: u32,
    pub(crate) buf: u32,
}

impl BitWriter {
    pub(crate) open spec fn wf(&self) -> bool {
        self.bits_in_buf < 8 && self.buf < pow2(self.bits_in_buf as nat)
    }

    /// The bits held back until a byte is complete.
    pub(crate) open spec fn pending(&self) -> Seq<bool> {
        bits_of(self.buf as nat, self.bits_in_buf as nat)
    }

    pub(crate) fn new() -> (r: BitWriter)
        ensures
            r.wf(),
            r.pending() == Seq::<bool>::empty(),
    {
        proof {
            vstd::arithmetic::power2::lemma2_to64();
        }
        BitWriter { bits_in_buf: 0, buf: 0 }
    }

    /// Appends the `len` low bits of `data`, handing each completed byte to `writer`.
    pub(crate) fn write_bits<W: Write>(&mut self, writer: &mut W, data: u32, len: usize) -> (r:
        Result<(), W::Error>)
        requires
            old(self).wf(),
            len <= 25,
            data < pow2(len as nat),
        ensures
            r is Ok ==> {
                let before = old(writer).written();
                let after = final(writer).written();
                &&& final(self).wf()
                &&& before.len() <= after.len()
                &&& after.subrange(0, before.len() as int) == before
                &&& bytes_bits(after.subrange(before.len() as int, after.len() as int))
                    + final(self).pending() == old(self).pending() + bits_of(data as nat, len as nat)
            },
            old(writer).never_fails() ==> r is Ok && final(writer).never_fails(),
            r matches Err(e) ==> final(writer).error() == Some(e),
    {
        let ghost before = writer.written();
        let ghost nf0 = writer.never_fails();
        let ghost target = self.pending() + bits_of(data as nat, len as nat);
        let len = len as u32;
        proof {
            lemma_pow2_adds(self.bits_in_buf as nat, len as nat);
            lemma_u32_pow2_no_overflow(len as nat);
            lemma_pow2_pos(len as nat);
            lemma_mul_strict_inequality(
                self.buf as int,
                pow2(self.bits_in_buf as nat) as int,
                pow2(len as nat) as int,
            );
            assert(pow2(self.bits_in_buf as nat + len as nat) <= 0x1_0000_0000) by {
                vstd::arithmetic::power2::lemma2_to64();
                if self.bits_in_buf + len < 32 {
                    vstd::arithmetic::power2::lemma_pow2_strictly_increases(
                        (self.bits_in_buf + len) as nat,
                        32,
                    );
                }
            }
            lemma_u32_shl_is_mul(self.buf, len);
            lemma_u32_shl_is_mul(1, len);
            let b = self.buf;
            let sh = b << len;
            assert((sh | data) == sh + data) by (bit_vector)
                requires
                    sh == b << len,
                    data < (1u32 << len),
                    len < 32,
            ;
            lemma_bits_append(self.buf as nat, data as nat, self.bits_in_buf as nat, len as nat);
            lemma_append_bound(self.buf as nat, data as nat, self.bits_in_buf as nat, len as nat);
        }
        self.buf = (self.buf << len) | data;
        self.bits_in_buf = self.bits_in_buf + len;
        proof {
            assert(bytes_bits(writer.written().subrange(before.len() as int, writer.written().len() as int))
                =~= Seq::<bool>::empty());
        }
        while self.bits_in_buf >= 8
            invariant
                self.bits_in_buf <= 32,
                self.buf < pow2(self.bits_in_buf as nat),
                before.len() <= writer.written().len(),
                writer.written().subrange(0, before.len() as int) == before,
                bytes_bits(writer.written().subrange(before.len() as int, writer.written().len() as int))
                    + self.pending() == target,
                nf0 == old(writer).never_fails(),
                nf0 ==> writer.never_fails(),
            decreases self.bits_in_buf,
        {
            let k = self.bits_in_buf - 8;
            let ghost old_buf = self.buf;
            let ghost prev = writer.written();
            proof {
                lemma_u32_shr_is_div(self.buf, k);
                lemma_div_below(self.buf as nat, k as nat, 8);
                lemma_pow2_unfold(8);
                vstd::arithmetic::power2::lemma2_to64();
                lemma_u32_pow2_no_overflow(k as nat);
                lemma_u32_shl_is_mul(1, k);
                vstd::bits::lemma_low_bits_mask_values();
                lemma_u32_low_bits_mask_is_mod(self.buf, k as nat);
                lemma_bits_split(self.buf as nat, 8, k as nat);
            }
            let byte = (self.buf >> k) as u8;
            match writer.write(byte) {
                Ok(()) => {},
                Err(e) => {
                    return Err(e);
                },
            }
            proof {
                assert(low_bits_mask(k as nat) == pow2(k as nat) - 1);
                assert(((1u32 << k) - 1) as u32 == low_bits_mask(k as nat) as u32);
                let now = writer.written();
                assert(now.subrange(0, before.len() as int) =~= before);
                assert(now.subrange(before.len() as int, now.len() as int) =~= prev.subrange(
                    before.len() as int,
                    prev.len() as int,
                ).push(byte));
                lemma_bytes_bits_push(prev.subrange(before.len() as int, prev.len() as int), byte);
                vstd::arithmetic::div_mod::lemma_mod_bound(self.buf as int, pow2(k as nat) as int);
            }
            self.buf = self.buf & ((1u32 << k) - 1);
            self.bits_in_buf = k;
        }
        Ok(())
    }

    /// Hands out the held-back bits, padded with zeros to a whole byte.
    pub(crate) fn flush<W: Write>(&mut self, writer: &mut W) -> (r: Result<(), W::Error>)
        requires
            old(self).wf(),
        ensures
            r is Ok ==> {
                let before = old(writer).written();
                let after = final(writer).written();
                &&& before.len() <= after.len()
                &&& after.subrange(0, before.len() as int) == before
                &&& bytes_bits(after.subrange(before.len() as int, after.len() as int))
                    == old(self).pending() + padding(old(self).bits_in_buf as nat)
            },
            old(writer).never_fails() ==> r is Ok && final(writer).never_fails(),
            r matches Err(e) ==> final(writer).error() == Some(e),
    {
        let ghost before = writer.written();
        if self.bits_in_buf > 0 {
            let k = 8 - self.bits_in_buf;
            proof {
                lemma_pow2_adds(self.bits_in_buf as nat, k as nat);
                lemma_pow2_unfold(8);
                vstd::arithmetic::power2::lemma2_to64();
                lemma_pow2_pos(k as nat);
                lemma_mul_strict_inequality(
                    self.buf as int,
                    pow2(self.bits_in_buf as nat) as int,
                    pow2(k as nat) as int,
                );
                lemma_u32_shl_is_mul(self.buf, k);
                lemma_bits_append(self.buf as nat, 0, self.bits_in_buf as nat, k as nat);
                lemma_bits_zero(k as nat);
            }
            let byte = (self.buf << k) as u8;
            match writer.write(byte) {
                Ok(()) => {},
                Err(e) => {
                    return Err(e);
                },
            }
            proof {
                let now = writer.written();
                assert(now.subrange(0, before.len() as int) =~= before);
                assert(now.subrange(before.len() as int, now.len() as int) =~= seq![byte]);
                lemma_bytes_bits_push(Seq::<u8>::empty(), byte);
                assert(seq![byte] =~= Seq::<u8>::empty().push(byte));
                assert(bytes_bits(Seq::<u8>::empty()) =~= Seq::<bool>::empty());
                assert(padding(self.bits_in_buf as nat) =~= bits_of(0, k as nat));
                assert(bits_of(byte as nat, 8) =~= self.pending() + padding(self.bits_in_buf as nat));
            }
            self.bits_in_buf = 0;
            self.buf = 0;
            Ok(())
        } else {
            proof {
                assert(writer.written().subrange(0, before.len() as int) =~= before);
                assert(bytes_bits(writer.written().subrange(before.len() as int, before.len() as int))
                    =~= Seq::<bool>::empty());
                assert(self.pending() =~= Seq::<bool>::empty());
                assert(padding(0) =~= Seq::<bool>::empty());
            }
            Ok(())
        }
    }
}

/// Packs bit fields into bytes stored in a slice, holding back up to a whole byte.
pub(crate) struct HeldBits {
    pub(crate) bits_in_buf: u64,
    pub(crate) buf: u64,
}

impl HeldBits {
    pub(crate) open spec fn wf(&self) -> bool {
        self.bits_in_buf <= 8 && self.buf < pow2(self.bits_in_buf as nat)
    }

    /// The bits held back.
    pub(crate) open spec fn pending(&self) -> Seq<bool> {
        bits_of(self.buf as nat, self.bits_in_buf as nat)
    }

    pub(crate) fn new() -> (r: HeldBits)
        ensures
            r.wf(),
            r.pending() == Seq::<bool>::empty(),
    {
        proof {
            vstd::arithmetic::power2::lemma2_to64();
        }
        HeldBits { bits_in_buf: 0, buf: 0 }
    }

    /// Appends the `len` low bits of `data`, storing bytes at `out[at..]` while more
    /// than a byte is held; returns the index after the last byte stored.
    pub(crate) fn write_bits_into(&mut self, out: &mut [u8], at: usize, data: u64, len: usize) -> (r: usize)
        requires
            old(self).wf(),
            len <= 25,
            data < pow2(len as nat),
            at + 4 <= old(out)@.len(),
        ensures
            final(self).wf(),
            at <= r <= at + 4,
            final(out)@.len() == old(out)@.len(),
            forall|i: int|
                0 <= i < old(out)@.len() && !(at <= i < r) ==> #[trigger] final(out)@[i] == old(
                    out,
                )@[i],
            bytes_bits(final(out)@.subrange(at as int, r as int)) + final(self).pending() == old(
                self,
            ).pending() + bits_of(data as nat, len as nat),
    {
        let ghost out0 = out@;
        let ghost target = self.pending() + bits_of(data as nat, len as nat);
        let len = len as u64;
        proof {
            lemma_pow2_adds(self.bits_in_buf as nat, len as nat);
            lemma_u64_pow2_no_overflow(len as nat);
            lemma_pow2_pos(len as nat);
            lemma_mul_strict_inequality(
                self.buf as int,
                pow2(self.bits_in_buf as nat) as int,
                pow2(len as nat) as int,
            );
            assert(pow2(self.bits_in_buf as nat + len as nat) <= 0x2_0000_0000) by {
                vstd::arithmetic::power2::lemma2_to64();
                vstd::arithmetic::power2::lemma2_to64_rest();
                if self.bits_in_buf + len < 33 {
                    vstd::arithmetic::power2::lemma_pow2_strictly_increases(
                        (self.bits_in_buf + len) as nat,
                        33,
                    );
                }
            }
            lemma_u64_shl_is_mul(self.buf, len);
            lemma_u64_shl_is_mul(1, len);
            let b = self.buf;
            let sh = b << len;
            assert((sh | data) == sh + data) by (bit_vector)
                requires
                    sh == b << len,
                    data < (1u64 << len),
                    len < 64,
            ;
            lemma_bits_append(self.buf as nat, data as nat, self.bits_in_buf as nat, len as nat);
            lemma_append_bound(self.buf as nat, data as nat, self.bits_in_buf as nat, len as nat);
        }
        self.buf = (self.buf << len) | data;
        self.bits_in_buf = self.bits_in_buf + len;
        let mut pos = at;
        proof {
            assert(bytes_bits(out@.subrange(at as int, at as int)) =~= Seq::<bool>::empty());
            assert(Seq::<bool>::empty() + self.pending() =~= self.pending());
        }
        while self.bits_in_buf > 8
            invariant
                self.bits_in_buf <= 33,
                self.buf < pow2(self.bits_in_buf as nat),
                at <= pos,
                8 * (pos - at) + self.bits_in_buf <= 33,
                at + 4 <= out0.len(),
                out@.len() == out0.len(),
                forall|i: int|
                    0 <= i < out0.len() && !(at <= i < pos) ==> #[trigger] out@[i] == out0[i],
                bytes_bits(out@.subrange(at as int, pos as int)) + self.pending() == target,
            decreases self.bits_in_buf,
        {
            let k = self.bits_in_buf - 8;
            let ghost prev = out@;
            proof {
                lemma_u64_shr_is_div(self.buf, k);
                lemma_div_below(self.buf as nat, k as nat, 8);
                lemma_pow2_unfold(8);
                vstd::arithmetic::power2::lemma2_to64();
                lemma_u64_pow2_no_overflow(k as nat);
                lemma_u64_shl_is_mul(1, k);
                vstd::bits::lemma_low_bits_mask_values();
                lemma_u64_low_bits_mask_is_mod(self.buf, k as nat);
                lemma_bits_split(self.buf as nat, 8, k as nat);
            }
            let byte = (self.buf >> k) as u8;
            out[pos] = byte;
            proof {
                assert(low_bits_mask(k as nat) == pow2(k as nat) - 1);
                assert(((1u64 << k) - 1) as u64 == low_bits_mask(k as nat) as u64);
                assert(out@.subrange(at as int, pos + 1) =~= prev.subrange(at as int, pos as int).push(
                    byte,
                ));
                lemma_bytes_bits_push(prev.subrange(at as int, pos as int), byte);
                vstd::arithmetic::div_mod::lemma_mod_bound(self.buf as int, pow2(k as nat) as int);
            }
            self.buf = self.buf & ((1u64 << k) - 1);
            self.bits_in_buf = k;
            pos = pos + 1;
        }
        pos
    }

    /// Stores the held-back bits, padded with zeros, at `out[at]` if there are any;
    /// returns the index after what was stored.
    pub(crate) fn flush_into(&mut self, out: &mut [u8], at: usize) -> (r: usize)
        requires
            old(self).wf(),
            at + 1 <= old(out)@.len(),
        ensures
            at <= r <= at + 1,
            final(out)@.len() == old(out)@.len(),
            forall|i: int|
                0 <= i < old(out)@.len() && !(at <= i < r) ==> #[trigger] final(out)@[i] == old(
                    out,
                )@[i],
            bytes_bits(final(out)@.subrange(at as int, r as int)) == old(self).pending() + padding(
                old(self).bits_in_buf as nat,
            ),
    {
        if self.bits_in_buf > 0 {
            let k = 8 - self.bits_in_buf;
            proof {
                lemma_pow2_adds(self.bits_in_buf as nat, k as nat);
                lemma_pow2_unfold(8);
                vstd::arithmetic::power2::lemma2_to64();
                lemma_pow2_pos(k as nat);
                lemma_mul_strict_inequality(
                    self.buf as int,
                    pow2(self.bits_in_buf as nat) as int,
                    pow2(k as nat) as int,
                );
                lemma_u64_shl_is_mul(self.buf, k);
                lemma_bits_append(self.buf as nat, 0, self.bits_in_buf as nat, k as nat);
                lemma_bits_zero(k as nat);
            }
            let byte = (self.buf << k) as u8;
            out[at] = byte;
            proof {
                assert(out@.subrange(at as int, at + 1) =~= seq![byte]);
                lemma_bytes_bits_push(Seq::<u8>::empty(), byte);
                assert(seq![byte] =~= Seq::<u8>::empty().push(byte));
                assert(bytes_bits(Seq::<u8>::empty()) =~= Seq::<bool>::empty());
                assert(padding(self.bits_in_buf as nat) =~= bits_of(0, k as nat));
                assert(bits_of(byte as nat, 8) =~= self.pending() + padding(self.bits_in_buf as nat));
            }
            self.bits_in_buf = 0;
            self.buf = 0;
            at + 1
        } else {
            proof {
                assert(bytes_bits(out@.subrange(at as int, at as int)) =~= Seq::<bool>::empty());
                assert(self.pending() =~= Seq::<bool>::empty());
                assert(padding(0) =~= Seq::<bool>::empty());
            }
            at
        }
    }

}

/// Takes bit fields out of bytes, most significant bit first.
pub(crate) struct BitReader {
    pub(crate) bits_in_buf: u32,
    pub(crate) buf: u32,
}

impl BitReader {
    pub(crate) open spec fn wf(&self) -> bool {
        self.bits_in_buf < 8 && self.buf < pow2(self.bits_in_buf as nat)
    }

    /// The bits read from the source and not yet handed out.
    pub(crate) open spec fn pending(&self) -> Seq<bool> {
        bits_of(self.buf as nat, self.bits_in_buf as nat)
    }

    pub(crate) fn new() -> (r: BitReader)
        ensures
            r.wf(),
            r.pending() == Seq::<bool>::empty(),
    {
        proof {
            vstd::arithmetic::power2::lemma2_to64();
        }
        BitReader { bits_in_buf: 0, buf: 0 }
    }

    /// Takes the next `len` bits, reading bytes from `reader` as needed; `None` when
    /// the source ends first.
    pub(crate) fn read_bits<R: Read>(&mut self, reader: &mut R, len: usize) -> (r: Result<
        Option<u32>,
        R::Error,
    >)
        requires
            old(self).wf(),
            len <= 24,
        ensures
            r is Ok ==> {
                let before = old(reader).consumed();
                let after = final(reader).consumed();
                let got = bytes_bits(after.subrange(before.len() as int, after.len() as int));
                &&& before.len() <= after.len()
                &&& after.subrange(0, before.len() as int) == before
                &&& final(reader).remaining() + (after.len() - before.len()) <= old(reader).remaining()
                &&& (r matches Ok(Some(v)) ==> {
                    &&& final(self).wf()
                    &&& v < pow2(len as nat)
                    &&& old(self).pending() + got == bits_of(v as nat, len as nat)
                        + final(self).pending()
                })
                &&& after.subrange(before.len() as int, after.len() as int) + final(reader).rest()
                    == old(reader).rest()
                &&& (r matches Ok(None) ==> old(self).pending().len() + got.len() < len
                    && final(reader).rest().len() == 0)
            },
            old(reader).never_fails() ==> r is Ok && final(reader).never_fails(),
            r matches Err(e) ==> final(reader).error() == Some(e),
    {
        let ghost before = reader.consumed();
        let ghost start = self.pending();
        let ghost rem0 = reader.remaining();
        let ghost nf0 = reader.never_fails();
        let ghost rest0 = reader.rest();
        let len = len as u32;
        proof {
            assert(reader.consumed().subrange(0, before.len() as int) =~= before);
            assert(bytes_bits(reader.consumed().subrange(before.len() as int, before.len() as int))
                =~= Seq::<bool>::empty());
            assert(start + Seq::<bool>::empty() =~= start);
            assert(reader.consumed().subrange(before.len() as int, before.len() as int) + rest0
                =~= rest0);
        }
        let mut ended = false;
        while !ended && self.bits_in_buf < len
            invariant
                self.bits_in_buf < 32,
                self.bits_in_buf < 8 + len,
                len <= 24,
                self.buf < pow2(self.bits_in_buf as nat),
                before.len() <= reader.consumed().len(),
                reader.consumed().subrange(0, before.len() as int) == before,
                reader.remaining() + (reader.consumed().len() - before.len()) <= rem0,
                nf0 == old(reader).never_fails(),
                nf0 ==> reader.never_fails(),
                start + bytes_bits(reader.consumed().subrange(before.len() as int, reader.consumed().len() as int))
                    == self.pending(),
                ended ==> start.len() + bytes_bits(reader.consumed().subrange(before.len() as int, reader.consumed().len() as int)).len() < len,
                rest0 == old(reader).rest(),
                before == old(reader).consumed(),
                reader.consumed().subrange(before.len() as int, reader.consumed().len() as int)
                    + reader.rest() == rest0,
                ended ==> reader.rest().len() == 0,
            decreases len + 8 - self.bits_in_buf + if ended { 0int } else { 1int },
        {
            let ghost prev = reader.consumed();
            let ghost prest = reader.rest();
            let got = match reader.read() {
                Ok(g) => g,
                Err(e) => {
                    return Err(e);
                },
            };
            match got {
                Some(val) => {
                    proof {
                        let nowc = reader.consumed();
                        assert(nowc.subrange(before.len() as int, nowc.len() as int) + reader.rest()
                            =~= prev.subrange(before.len() as int, prev.len() as int) + prest) by {
                            assert(nowc == prev.push(val));
                            assert(prest[0] == val);
                            assert(reader.rest() == prest.drop_first());
                            assert(nowc.subrange(before.len() as int, nowc.len() as int) =~= prev.subrange(
                                before.len() as int,
                                prev.len() as int,
                            ).push(val));
                            assert(prest =~= seq![val] + prest.drop_first());
                        }
                        lemma_pow2_unfold(8);
                        vstd::arithmetic::power2::lemma2_to64();
                        lemma_pow2_pos(8);
                        lemma_append_bound(self.buf as nat, val as nat, self.bits_in_buf as nat, 8);
                        lemma_bits_append(self.buf as nat, val as nat, self.bits_in_buf as nat, 8);
                        if self.bits_in_buf + 8 < 32 {
                            vstd::arithmetic::power2::lemma_pow2_strictly_increases(
                                (self.bits_in_buf + 8) as nat,
                                32,
                            );
                        }
                        lemma_u32_shl_is_mul(self.buf, 8);
                        let b = self.buf;
                        let sh = b << 8;
                        let v32 = val as u32;
                        assert((sh | v32) == sh + v32) by (bit_vector)
                            requires
                                sh == b << 8,
                                v32 < 256,
                        ;
                        let now = reader.consumed();
                        assert(now.subrange(0, before.len() as int) =~= before);
                        assert(now.subrange(before.len() as int, now.len() as int) =~= prev.subrange(
                            before.len() as int,
                            prev.len() as int,
                        ).push(val));
                        lemma_bytes_bits_push(prev.subrange(before.len() as int, prev.len() as int), val);
                    }
                    self.buf = (self.buf << 8) | (val as u32);
                    self.bits_in_buf = self.bits_in_buf + 8;
                },
                None => {
                    proof {
                        assert(reader.consumed() == prev);
                        assert(reader.rest() =~= prest);
                        lemma_bits_of_len(self.buf as nat, self.bits_in_buf as nat);
                        assert(self.pending().len() == self.bits_in_buf);
                        assert(reader.consumed().subrange(0, before.len() as int) == before);
                        let got = bytes_bits(reader.consumed().subrange(before.len() as int, reader.consumed().len() as int));
                        assert((start + got).len() == start.len() + got.len());
                        assert(start.len() + got.len() < len);
                    }
                    ended = true;
                },
            }
        }
        if ended {
            return Ok(None);
        }
        let k = self.bits_in_buf - len;
        proof {
            lemma_u32_shr_is_div(self.buf, k);
            lemma_div_below(self.buf as nat, k as nat, len as nat);
            lemma_u32_pow2_no_overflow(k as nat);
            lemma_u32_shl_is_mul(1, k);
            vstd::bits::lemma_low_bits_mask_values();
            lemma_u32_low_bits_mask_is_mod(self.buf, k as nat);
            lemma_bits_split(self.buf as nat, len as nat, k as nat);
            assert(low_bits_mask(k as nat) == pow2(k as nat) - 1);
            assert(((1u32 << k) - 1) as u32 == low_bits_mask(k as nat) as u32);
            lemma_pow2_pos(k as nat);
            vstd::arithmetic::div_mod::lemma_mod_bound(self.buf as int, pow2(k as nat) as int);
        }
        let v = self.buf >> k;
        self.buf = self.buf & ((1u32 << k) - 1);
        self.bits_in_buf = k;
        Ok(Some(v))
    }
}

pub proof fn lemma_append_bound(a: nat, b: nat, n: nat, m: nat)
    requires
        a < pow2(n),
        b < pow2(m),
    ensures
        a * pow2(m) + b < pow2(n + m),
{
    lemma_pow2_adds(n, m);
    assert(a * pow2(m) + b < pow2(n) * pow2(m)) by (nonlinear_arith)
        requires
            a < pow2(n),
            b < pow2(m),
    ;
}

pub proof fn lemma_bytes_bits_concat(a: Seq<u8>, b: Seq<u8>)
    ensures
        bytes_bits(a + b) == bytes_bits(a) + bytes_bits(b),
    decreases b.len(),
{
    if b.len() == 0 {
        assert(a + b =~= a);
        assert(bytes_bits(a) + bytes_bits(b) =~= bytes_bits(a));
    } else {
        lemma_bytes_bits_concat(a, b.drop_last());
        assert((a + b).drop_last() =~= a + b.drop_last());
        assert(bytes_bits(a + b) =~= bytes_bits(a) + bytes_bits(b));
    }
}

/// The bits of `s` written back from its value are `s`.
pub proof fn lemma_bits_of_value(s: Seq<bool>)
    ensures
        bits_of(value_of(s), s.len()) == s,
    decreases s.len(),
{
    if s.len() > 0 {
        lemma_bits_of_value(s.drop_last());
        let v = value_of(s);
        assert(v / 2 == value_of(s.drop_last()));
        assert(bits_of(v, s.len()) =~= s);
    }
}

/// Different byte sequences have different bits.
pub proof fn lemma_bytes_bits_injective(a: Seq<u8>, b: Seq<u8>)
    requires
        bytes_bits(a) == bytes_bits(b),
    ensures
        a == b,
    decreases a.len(),
{
    lemma_bytes_bits_len(a);
    lemma_bytes_bits_len(b);
    if a.len() > 0 {
        let n = bytes_bits(a).len() as int;
        lemma_bits_of_len(a.last() as nat, 8);
        lemma_bits_of_len(b.last() as nat, 8);
        lemma_bytes_bits_len(a.drop_last());
        lemma_bytes_bits_len(b.drop_last());
        assert(bytes_bits(a.drop_last()) =~= bytes_bits(a).subrange(0, n - 8));
        assert(bytes_bits(b.drop_last()) =~= bytes_bits(b).subrange(0, n - 8));
        assert(bits_of(a.last() as nat, 8) =~= bytes_bits(a).subrange(n - 8, n));
        assert(bits_of(b.last() as nat, 8) =~= bytes_bits(b).subrange(n - 8, n));
        lemma_value_of_bits(a.last() as nat, 8);
        lemma_value_of_bits(b.last() as nat, 8);
        vstd::arithmetic::power2::lemma2_to64();
        lemma_bytes_bits_injective(a.drop_last(), b.drop_last());
        assert(a =~= a.drop_last().push(a.last()));
        assert(b =~= b.drop_last().push(b.last()));
    }
}

/// Zero written in `n` bits is `n` false bits.
pub proof fn lemma_bits_zero(n: nat)
    ensures
        bits_of(0, n) == Seq::new(n, |i: int| false),
    decreases n,
{
    if n > 0 {
        lemma_bits_zero((n - 1) as nat);
        assert(bits_of(0, n) =~= Seq::new(n, |i: int| false));
    } else {
        assert(bits_of(0, n) =~= Seq::new(n, |i: int| false));
    }
}

} // verus!
