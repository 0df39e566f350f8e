//! The compressed format and the parse that produces it, as mathematical
//! definitions over byte and bit sequences.
use vstd::arithmetic::power2::pow2;
use vstd::prelude::*;

use crate::bits::{
    bits_of, bytes_bits, lemma_bits_of_value, lemma_bytes_bits_concat, lemma_bytes_bits_injective,
    lemma_value_of_bound, padding, value_of,
};
use crate::params::LzssDyn;

verus! {

/// `n` copies of the fill byte `c`.
pub open spec fn fill_run(c: u8, n: nat) -> Seq<u8> {
    Seq::new(n, |i: int| c)
}

/// The stream the compressor walks: `N - F` fill bytes, then the input.
pub open spec fn virtual_input(p: LzssDyn, d: Seq<u8>) -> Seq<u8> {
    fill_run(p.fill(), (p.n_spec() - p.f_spec()) as nat) + d
}

/// The bytes available for a match that starts at `r`.
pub open spec fn lookahead_at(p: LzssDyn, v: Seq<u8>, r: int) -> nat {
    let rest = v.len() - r;
    if rest < p.f_spec() {
        rest as nat
    } else {
        p.f_spec()
    }
}

/// Extends a match of `i` against `r` from length `j` while bytes agree, up to `f1`.
pub open spec fn extend(v: Seq<u8>, i: int, r: int, j: nat, f1: nat) -> nat
    decreases f1 - j,
{
    if j < f1 && v[i + j] == v[r + j] {
        extend(v, i, r, j + 1, f1)
    } else {
        j
    }
}

/// The length of the match of the bytes at `i` against those at `r`, at most `f1`;
/// zero where the first bytes differ.
pub open spec fn match_len(v: Seq<u8>, i: int, r: int, f1: nat) -> nat {
    if v[i] == v[r] {
        extend(v, i, r, 1, f1)
    } else {
        0
    }
}

/// The best match for position `r` among the candidates `[i, r)`, scanned from the
/// most recent: `(position, length)`, with `(0, 1)` where nothing beats one byte.
/// A candidate replaces the best so far only when strictly longer.
pub open spec fn best_from(v: Seq<u8>, i: int, r: int, f1: nat) -> (int, nat)
    decreases r - i,
{
    if i >= r {
        (0, 1)
    } else {
        let prev = best_from(v, i + 1, r, f1);
        let j = match_len(v, i, r, f1);
        if j > prev.1 {
            (i, j)
        } else {
            prev
        }
    }
}

/// The match chosen at `r`: the window is the `N - F` bytes before `r`.
pub open spec fn choice(p: LzssDyn, v: Seq<u8>, r: int) -> (int, nat) {
    best_from(v, r - (p.n_spec() - p.f_spec()), r, lookahead_at(p, v, r))
}

/// Whether the token at `r` is a literal.
pub open spec fn is_literal(p: LzssDyn, v: Seq<u8>, r: int) -> bool {
    choice(p, v, r).1 <= p.p_spec()
}

/// How many input bytes the token at `r` covers.
pub open spec fn advance(p: LzssDyn, v: Seq<u8>, r: int) -> nat {
    if is_literal(p, v, r) {
        1
    } else {
        choice(p, v, r).1
    }
}

/// The token at `r` as a number and its width in bits: a literal is a set flag bit
/// and the byte; a match is a clear flag bit, the window offset (`ei` bits) and the
/// length less `P + 1` (`ej` bits).
pub open spec fn token_code(p: LzssDyn, v: Seq<u8>, r: int) -> (nat, nat) {
    code_of(p, choice(p, v, r).0, choice(p, v, r).1, v[r])
}

/// The code of the token for a best match `(x, y)` at a position that holds `c`.
pub open spec fn code_of(p: LzssDyn, x: int, y: nat, c: u8) -> (nat, nat) {
    if y <= p.p_spec() {
        ((256 + c) as nat, 9)
    } else {
        (
            (x % (p.n_spec() as int)) as nat * pow2(p.ej_nat()) + (y - p.p_spec() - 1) as nat,
            1 + p.ei_nat() + p.ej_nat(),
        )
    }
}

/// The bits of the token at `r`.
pub open spec fn token_bits(p: LzssDyn, v: Seq<u8>, r: int) -> Seq<bool> {
    bits_of(token_code(p, v, r).0, token_code(p, v, r).1)
}

/// The bits of the tokens from position `r` to the end of `v`.
pub open spec fn encode_from(p: LzssDyn, v: Seq<u8>, r: int) -> Seq<bool>
    decreases v.len() - r,
{
    if 0 <= r < v.len() && 1 <= advance(p, v, r) <= v.len() - r {
        token_bits(p, v, r) + encode_from(p, v, r + advance(p, v, r))
    } else {
        Seq::empty()
    }
}

/// The first `k` tokens' bits and the position after them.
pub open spec fn parse_n(p: LzssDyn, v: Seq<u8>, k: nat) -> (Seq<bool>, int)
    decreases k,
{
    if k == 0 {
        (Seq::empty(), (p.n_spec() - p.f_spec()) as int)
    } else {
        let prev = parse_n(p, v, (k - 1) as nat);
        if prev.1 < v.len() {
            (prev.0 + token_bits(p, v, prev.1), prev.1 + advance(p, v, prev.1))
        } else {
            prev
        }
    }
}

/// The token bits of the compressed form of `d`.
pub open spec fn compressed_bits(p: LzssDyn, d: Seq<u8>) -> Seq<bool> {
    encode_from(p, virtual_input(p, d), (p.n_spec() - p.f_spec()) as int)
}

/// Packs bits into bytes, most significant first, padding the last byte with zeros.
pub open spec fn pack(bits: Seq<bool>) -> Seq<u8>
    decreases bits.len(),
{
    if bits.len() == 0 {
        Seq::empty()
    } else if bits.len() < 8 {
        seq![value_of(bits + Seq::new((8 - bits.len()) as nat, |i: int| false)) as u8]
    } else {
        seq![value_of(bits.subrange(0, 8)) as u8] + pack(bits.subrange(8, bits.len() as int))
    }
}

/// The compressed form of `d`.
pub open spec fn compressed(p: LzssDyn, d: Seq<u8>) -> Seq<u8> {
    pack(compressed_bits(p, d))
}

/// The bytes a match copies: byte `k` is the byte at `src + k` of the history
/// extended by the bytes copied before it.
pub open spec fn copy_run(h: Seq<u8>, src: int, l: nat) -> Seq<u8>
    decreases l,
{
    if l == 0 {
        Seq::empty()
    } else {
        let first = copy_run(h, src, (l - 1) as nat);
        first.push((h + first)[src + l - 1])
    }
}

/// Where in the history `h` (`N` fill bytes, then the output so far) a match with
/// window offset `off` starts.
pub open spec fn match_source(p: LzssDyn, h: Seq<u8>, off: nat) -> int {
    let t = h.len() - p.n_spec();
    t + (off + p.f_spec() - t) % (p.n_spec() as int)
}

/// The output decoded from `bits` at `pos`, after the history `h`.
pub open spec fn decode_from(p: LzssDyn, bits: Seq<bool>, pos: int, h: Seq<u8>) -> Seq<u8>
    decreases bits.len() - pos,
{
    if pos < 0 || pos + 9 > bits.len() {
        Seq::empty()
    } else {
        let head = value_of(bits.subrange(pos, pos + 9));
        if head >= 256 {
            let b = (head - 256) as u8;
            seq![b] + decode_from(p, bits, pos + 9, h.push(b))
        } else {
            let w = 1 + p.ei_nat() + p.ej_nat();
            if pos + w > bits.len() || w < 9 {
                Seq::empty()
            } else {
                let code = value_of(bits.subrange(pos, pos + w));
                let off = code / pow2(p.ej_nat());
                let l = code % pow2(p.ej_nat()) + p.p_spec() + 1;
                let run = copy_run(h, match_source(p, h, off), l);
                run + decode_from(p, bits, pos + w, h + run)
            }
        }
    }
}

/// The output decoded from the bytes `c`.
pub open spec fn decompressed(p: LzssDyn, c: Seq<u8>) -> Seq<u8> {
    decode_from(p, crate::bits::bytes_bits(c), 0, fill_run(p.fill(), p.n_spec()))
}

/// A token covers at least one byte and no more than remain.
pub proof fn lemma_advance_bounds(p: LzssDyn, v: Seq<u8>, r: int)
    requires
        p.wf(),
        0 <= r < v.len(),
    ensures
        1 <= advance(p, v, r) <= v.len() - r,
        1 <= choice(p, v, r).1 <= lookahead_at(p, v, r),
        lookahead_at(p, v, r) <= p.f_spec(),
        choice(p, v, r).1 > 1 ==> r - (p.n_spec() - p.f_spec()) <= choice(p, v, r).0 < r,
{
    p.lemma_sizes();
    vstd::arithmetic::power2::lemma_pow2_pos(p.ej_nat());
    crate::search::lemma_best_bounds(
        v,
        r - (p.n_spec() - p.f_spec()),
        r,
        lookahead_at(p, v, r),
    );
}

/// The first `k` tokens followed by the tokens from where they end are all the tokens.
pub proof fn lemma_parse_n_encode(p: LzssDyn, v: Seq<u8>, k: nat)
    requires
        p.wf(),
        v.len() >= p.n_spec() - p.f_spec(),
    ensures
        encode_from(p, v, (p.n_spec() - p.f_spec()) as int) == parse_n(p, v, k).0 + encode_from(
            p,
            v,
            parse_n(p, v, k).1,
        ),
        p.n_spec() - p.f_spec() <= parse_n(p, v, k).1 <= v.len(),
    decreases k,
{
    p.lemma_sizes();
    if k == 0 {
        assert(Seq::<bool>::empty() + encode_from(p, v, (p.n_spec() - p.f_spec()) as int)
            =~= encode_from(p, v, (p.n_spec() - p.f_spec()) as int));
    } else {
        lemma_parse_n_encode(p, v, (k - 1) as nat);
        let prev = parse_n(p, v, (k - 1) as nat);
        if prev.1 < v.len() {
            lemma_advance_bounds(p, v, prev.1);
            assert(prev.0 + (token_bits(p, v, prev.1) + encode_from(
                p,
                v,
                prev.1 + advance(p, v, prev.1),
            )) =~= (prev.0 + token_bits(p, v, prev.1)) + encode_from(
                p,
                v,
                prev.1 + advance(p, v, prev.1),
            ));
        }
    }
}

/// Packing gives the bits followed by the zero padding.
pub proof fn lemma_pack(bits: Seq<bool>)
    ensures
        bytes_bits(pack(bits)) == bits + padding(bits.len()),
    decreases bits.len(),
{
    vstd::arithmetic::power2::lemma2_to64();
    if bits.len() == 0 {
        assert(bits + padding(0) =~= Seq::<bool>::empty());
    } else if bits.len() < 8 {
        let full = bits + Seq::new((8 - bits.len()) as nat, |i: int| false);
        lemma_value_of_bound(full);
        lemma_bits_of_value(full);
        let b = value_of(full) as u8;
        assert(seq![b].drop_last() =~= Seq::<u8>::empty());
        assert(bytes_bits(Seq::<u8>::empty()) =~= Seq::<bool>::empty());
        assert(b as nat == value_of(full));
        assert(full.len() == 8);
        assert(bytes_bits(seq![b]) == bytes_bits(Seq::<u8>::empty()) + bits_of(b as nat, 8));
        assert(bytes_bits(pack(bits)) =~= full);
        assert(full =~= bits + padding(bits.len()));
    } else {
        let head = bits.subrange(0, 8);
        let rest = bits.subrange(8, bits.len() as int);
        lemma_pack(rest);
        lemma_value_of_bound(head);
        lemma_bits_of_value(head);
        let b = value_of(head) as u8;
        assert(seq![b].drop_last() =~= Seq::<u8>::empty());
        assert(bytes_bits(Seq::<u8>::empty()) =~= Seq::<bool>::empty());
        assert(b as nat == value_of(head));
        assert(bytes_bits(seq![b]) == bytes_bits(Seq::<u8>::empty()) + bits_of(b as nat, 8));
        assert(bytes_bits(seq![b]) =~= head);
        lemma_bytes_bits_concat(seq![b], pack(rest));
        assert(padding(rest.len()) =~= padding(bits.len()));
        assert(bytes_bits(pack(bits)) =~= bits + padding(bits.len()));
    }
}

/// The only bytes whose bits are `bits` and then the zero padding are `pack(bits)`.
pub proof fn lemma_pack_unique(bits: Seq<bool>, out: Seq<u8>)
    requires
        bytes_bits(out) == bits + padding(bits.len()),
    ensures
        out == pack(bits),
{
    lemma_pack(bits);
    lemma_bytes_bits_injective(out, pack(bits));
}

} // verus!
