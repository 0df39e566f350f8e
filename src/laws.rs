//! What holds of the format across calls: decoding undoes encoding, the parse is
//! greedy and optimal, and short matches are never sent.
use vstd::arithmetic::power2::{lemma_pow2_pos, pow2};
use vstd::prelude::*;

use crate::bits::{
    bits_of, bytes_bits, lemma_append_bound, lemma_bits_of_len, lemma_bits_split, lemma_div_below,
    lemma_value_of_bits, padding,
};
use crate::model::{
    advance, best_from, choice, compressed, compressed_bits, copy_run, decode_from, decompressed,
    encode_from, extend, fill_run, is_literal, lemma_advance_bounds, lemma_pack, lookahead_at,
    match_len, match_source, pack, parse_n, token_bits, token_code, virtual_input,
};
use crate::bits::value_of;
use crate::params::LzssDyn;

verus! {

/// The history the decoder holds when the encoder stands at `q`: `F` fill bytes,
/// then the stream up to `q`.
pub open spec fn history_at(p: LzssDyn, v: Seq<u8>, q: int) -> Seq<u8> {
    fill_run(p.fill(), p.f_spec()) + v.subrange(0, q)
}

/// The stream starts with `N - F` fill bytes.
pub open spec fn seeded(p: LzssDyn, v: Seq<u8>) -> bool {
    &&& v.len() >= p.n_spec() - p.f_spec()
    &&& v.subrange(0, (p.n_spec() - p.f_spec()) as int) == fill_run(
        p.fill(),
        (p.n_spec() - p.f_spec()) as nat,
    )
}

/// Extending a match only passes over equal bytes.
pub proof fn lemma_extend_matches(v: Seq<u8>, i: int, r: int, j0: nat, f1: nat)
    requires
        j0 <= f1,
    ensures
        forall|j: int|
            j0 <= j < extend(v, i, r, j0, f1) ==> #[trigger] v[i + j] == v[r + j],
        extend(v, i, r, j0, f1) < f1 ==> v[i + extend(v, i, r, j0, f1)] != v[r + extend(
            v,
            i,
            r,
            j0,
            f1,
        )],
    decreases f1 - j0,
{
    if j0 < f1 && v[i + j0] == v[r + j0] {
        lemma_extend_matches(v, i, r, j0 + 1, f1);
    }
}

/// The match length of a candidate is the length of the longest common prefix,
/// capped at `f1`: the bytes agree below it and, short of the cap, differ at it.
pub proof fn lemma_match_len_exact(v: Seq<u8>, i: int, r: int, f1: nat)
    requires
        1 <= f1,
    ensures
        forall|j: int| 0 <= j < match_len(v, i, r, f1) ==> #[trigger] v[i + j] == v[r + j],
        match_len(v, i, r, f1) < f1 ==> v[i + match_len(v, i, r, f1)] != v[r + match_len(
            v,
            i,
            r,
            f1,
        )],
        match_len(v, i, r, f1) <= f1,
{
    if v[i] == v[r] {
        lemma_extend_matches(v, i, r, 1, f1);
        crate::search::lemma_extend_bounds(v, i, r, 1, f1);
    }
}

/// The length the scan picks is the match length of the position it picks.
pub proof fn lemma_best_is_match(v: Seq<u8>, i: int, r: int, f1: nat)
    ensures
        best_from(v, i, r, f1).1 > 1 ==> match_len(v, best_from(v, i, r, f1).0, r, f1)
            == best_from(v, i, r, f1).1,
    decreases r - i,
{
    if i < r {
        lemma_best_is_match(v, i + 1, r, f1);
    }
}

/// No candidate in `[i, r)` matches longer than the pick, and none that matches as
/// long lies after it.
pub proof fn lemma_best_optimal(v: Seq<u8>, i: int, r: int, f1: nat)
    ensures
        forall|c: int|
            i <= c < r ==> #[trigger] match_len(v, c, r, f1) <= best_from(v, i, r, f1).1,
        forall|c: int|
            i <= c < r && match_len(v, c, r, f1) == best_from(v, i, r, f1).1 && best_from(
                v,
                i,
                r,
                f1,
            ).1 > 1 ==> c <= #[trigger] best_from(v, i, r, f1).0,
    decreases r - i,
{
    if i < r {
        lemma_best_optimal(v, i + 1, r, f1);
        crate::search::lemma_best_bounds(v, i + 1, r, if f1 == 0 { 1 } else { f1 });
    }
}

/// Matching optimality: at every position the chosen match is a longest match
/// against the window `[q - (N - F), q)`, within the lookahead, and the most recent
/// one among the longest; where it is longer than one byte, its bytes agree.
pub proof fn lemma_choice_optimal(p: LzssDyn, v: Seq<u8>, q: int)
    requires
        p.wf(),
        p.n_spec() - p.f_spec() <= q < v.len(),
    ensures
        ({
            let lo = q - (p.n_spec() - p.f_spec());
            let f1 = lookahead_at(p, v, q);
            let (x, y) = choice(p, v, q);
            &&& forall|c: int| lo <= c < q ==> #[trigger] match_len(v, c, q, f1) <= y
            &&& forall|c: int|
                lo <= c < q && match_len(v, c, q, f1) == y && y > 1 ==> c <= x
            &&& y > 1 ==> lo <= x < q && forall|j: int| 0 <= j < y ==> #[trigger] v[x + j] == v[q
                + j]
        }),
{
    p.lemma_sizes();
    let lo = q - (p.n_spec() - p.f_spec());
    let f1 = lookahead_at(p, v, q);
    lemma_best_optimal(v, lo, q, f1);
    lemma_best_is_match(v, lo, q, f1);
    lemma_advance_bounds(p, v, q);
    let (x, y) = choice(p, v, q);
    if y > 1 {
        lemma_extend_matches(v, x, q, 1, f1);
    }
}

/// Threshold law: a position is sent as a match only when its match is longer than
/// `P`, and the length field of a match token then reads back as that length.
pub proof fn lemma_threshold(p: LzssDyn, v: Seq<u8>, q: int)
    requires
        p.wf(),
        p.n_spec() - p.f_spec() <= q < v.len(),
    ensures
        !is_literal(p, v, q) ==> advance(p, v, q) > p.p_spec() && token_code(p, v, q).0
            % pow2(p.ej_nat()) + p.p_spec() + 1 == advance(p, v, q),
        is_literal(p, v, q) ==> advance(p, v, q) == 1,
{
    if !is_literal(p, v, q) {
        lemma_advance_bounds(p, v, q);
        p.lemma_sizes();
        lemma_pow2_pos(p.ej_nat());
        let (x, y) = choice(p, v, q);
        let nn = p.n_spec() as int;
        vstd::arithmetic::div_mod::lemma_mod_bound(x, nn);
        vstd::arithmetic::div_mod::lemma_fundamental_div_mod_converse(
            token_code(p, v, q).0 as int,
            pow2(p.ej_nat()) as int,
            x % nn,
            (y - p.p_spec() - 1) as int,
        );
    }
}

/// A match copies its run from the stream itself.
proof fn lemma_copy_run_eq(h: Seq<u8>, src: int, t: Seq<u8>, l: nat)
    requires
        l <= t.len(),
        0 <= src < h.len(),
        forall|k: int| 0 <= k < l ==> #[trigger] (h + t)[src + k] == t[k],
    ensures
        copy_run(h, src, l) == t.subrange(0, l as int),
    decreases l,
{
    if l > 0 {
        let l1 = (l - 1) as nat;
        lemma_copy_run_eq(h, src, t, l1);
        crate::decompress::lemma_copy_run_push(h, src, l1);
        let first = t.subrange(0, l1 as int);
        assert(first.len() == l1);
        assert((h + first)[src + l1] == (h + t)[src + l1]);
        assert(copy_run(h, src, l) =~= t.subrange(0, l as int));
    }
}

proof fn lemma_source_arith(x: int, q: int, nn: int, ff: int)
    requires
        0 < ff < nn,
        0 <= q - (nn - ff) <= x < q,
    ensures
        (x % nn + ff - (q - (nn - ff))) % nn == x - q + nn,
{
    vstd::arithmetic::div_mod::lemma_fundamental_div_mod(x, nn);
    let e = x % nn + ff - (q - (nn - ff));
    assert(e == (x - q + nn) + nn * (-(x / nn))) by (nonlinear_arith)
        requires
            x == nn * (x / nn) + x % nn,
            e == x % nn + ff - (q - (nn - ff)),
    ;
    vstd::arithmetic::div_mod::lemma_mod_multiples_vanish(-(x / nn), x - q + nn, nn);
    assert(nn * (-(x / nn)) + (x - q + nn) == e);
    vstd::arithmetic::div_mod::lemma_small_mod((x - q + nn) as nat, nn as nat);
}

/// Decoding one token of the stream, from where it stands after any prefix of bits,
/// gives the bytes it covers and leaves the decoder at the next token.
pub proof fn lemma_decode_token(p: LzssDyn, v: Seq<u8>, q: int, pre: Seq<bool>, tail: Seq<bool>)
    requires
        p.wf(),
        seeded(p, v),
        p.n_spec() - p.f_spec() <= q < v.len(),
    ensures
        ({
            let tb = token_bits(p, v, q);
            let a = advance(p, v, q);
            let b = pre + tb + tail;
            decode_from(p, b, pre.len() as int, history_at(p, v, q)) == v.subrange(q, q + a)
                + decode_from(p, b, (pre.len() + tb.len()) as int, history_at(p, v, q + a))
        }),
{
    p.lemma_sizes();
    lemma_advance_bounds(p, v, q);
    vstd::arithmetic::power2::lemma2_to64();
    let nn = p.n_spec() as int;
    let ff = p.f_spec() as int;
    let nf = nn - ff;
    let tb = token_bits(p, v, q);
    let a = advance(p, v, q);
    let b = pre + tb + tail;
    let pos = pre.len() as int;
    let h = history_at(p, v, q);
    let (code, w) = token_code(p, v, q);
    lemma_bits_of_len(code, w);
    assert(b.subrange(pos, pos + w) =~= tb);
    if is_literal(p, v, q) {
        lemma_value_of_bits(code, 9);
        vstd::arithmetic::div_mod::lemma_small_mod(code, 512);
        assert(h.push(v[q]) =~= history_at(p, v, q + 1));
        assert(v.subrange(q, q + 1) =~= seq![v[q]]);
    } else {
        let (x, y) = choice(p, v, q);
        let f1 = lookahead_at(p, v, q);
        let ej = p.ej_nat();
        let ei = p.ei_nat();
        lemma_pow2_pos(ej);
        let xm = (x % nn) as nat;
        vstd::arithmetic::div_mod::lemma_mod_bound(x, nn);
        let lc = (y - p.p_spec() - 1) as nat;
        lemma_append_bound(xm, lc, ei, ej);
        assert(code == xm * pow2(ej) + lc);
        // the first nine bits hold no flag
        let rest = (w - 9) as nat;
        lemma_bits_split(code, 9, rest);
        assert(9 + rest == w);
        assert(b.subrange(pos, pos + 9) =~= tb.subrange(0, 9));
        assert(tb.subrange(0, 9) =~= bits_of(code / pow2(rest), 9)) by {
            lemma_bits_of_len(code / pow2(rest), 9);
            lemma_bits_of_len(code % pow2(rest), rest);
        }
        assert(8 + rest == ei + ej);
        lemma_div_below(code, rest, 8);
        lemma_value_of_bits(code / pow2(rest), 9);
        vstd::arithmetic::div_mod::lemma_small_mod(code / pow2(rest), 512);
        // the whole token reads back as its code
        lemma_value_of_bits(code, w);
        vstd::arithmetic::power2::lemma_pow2_strictly_increases(ei + ej, w);
        vstd::arithmetic::div_mod::lemma_small_mod(code, pow2(w));
        vstd::arithmetic::div_mod::lemma_fundamental_div_mod_converse(
            code as int,
            pow2(ej) as int,
            xm as int,
            lc as int,
        );
        // the run is the stream from q on
        lemma_choice_optimal(p, v, q);
        let src = match_source(p, h, xm);
        lemma_source_arith(x, q, nn, ff);
        assert(src == x + ff);
        let t = v.subrange(q, v.len() as int);
        assert forall|k: int| 0 <= k < y implies #[trigger] (h + t)[src + k] == t[k] by {
            assert(v[x + k] == v[q + k]);
            if x + k < q {
                assert((h + t)[src + k] == h[x + ff + k]);
            } else {
                assert((h + t)[src + k] == t[x + k - q]);
            }
        }
        lemma_copy_run_eq(h, src, t, y);
        assert(t.subrange(0, y as int) =~= v.subrange(q, q + y));
        assert(h + v.subrange(q, q + y) =~= history_at(p, v, q + y));
    }
}

/// Decoding all the tokens from `q` on, followed by fewer than nine other bits,
/// gives the stream from `q` on.
pub proof fn lemma_decode_rest(p: LzssDyn, v: Seq<u8>, q: int, pre: Seq<bool>, pad: Seq<bool>)
    requires
        p.wf(),
        seeded(p, v),
        p.n_spec() - p.f_spec() <= q <= v.len(),
        pad.len() < 9,
    ensures
        decode_from(p, pre + encode_from(p, v, q) + pad, pre.len() as int, history_at(p, v, q))
            == v.subrange(q, v.len() as int),
    decreases v.len() - q,
{
    p.lemma_sizes();
    if q == v.len() {
        assert(encode_from(p, v, q) =~= Seq::<bool>::empty());
        assert(v.subrange(q, q) =~= Seq::<u8>::empty());
    } else {
        lemma_advance_bounds(p, v, q);
        let tb = token_bits(p, v, q);
        let a = advance(p, v, q);
        let rest = encode_from(p, v, q + a);
        assert(pre + encode_from(p, v, q) + pad =~= pre + tb + (rest + pad));
        lemma_decode_token(p, v, q, pre, rest + pad);
        lemma_decode_rest(p, v, q + a, pre + tb, pad);
        assert(pre + tb + rest + pad =~= pre + tb + (rest + pad));
        assert(v.subrange(q, q + a) + v.subrange(q + a, v.len() as int) =~= v.subrange(
            q,
            v.len() as int,
        ));
    }
}

proof fn lemma_virtual_seeded(p: LzssDyn, d: Seq<u8>)
    requires
        p.wf(),
    ensures
        seeded(p, virtual_input(p, d)),
        history_at(p, virtual_input(p, d), (p.n_spec() - p.f_spec()) as int) == fill_run(
            p.fill(),
            p.n_spec(),
        ),
        virtual_input(p, d).subrange(
            (p.n_spec() - p.f_spec()) as int,
            virtual_input(p, d).len() as int,
        ) == d,
{
    p.lemma_sizes();
    let v = virtual_input(p, d);
    let nf = (p.n_spec() - p.f_spec()) as int;
    assert(v.subrange(0, nf) =~= fill_run(p.fill(), nf as nat));
    assert(history_at(p, v, nf) =~= fill_run(p.fill(), p.n_spec()));
    assert(v.subrange(nf, v.len() as int) =~= d);
}

/// Round trip: decompressing the compressed form of any input gives the input.
pub proof fn lemma_round_trip(p: LzssDyn, d: Seq<u8>)
    requires
        p.wf(),
    ensures
        decompressed(p, compressed(p, d)) == d,
{
    p.lemma_sizes();
    let v = virtual_input(p, d);
    let nf = (p.n_spec() - p.f_spec()) as int;
    let bits = compressed_bits(p, d);
    lemma_pack(bits);
    lemma_virtual_seeded(p, d);
    let pad = padding(bits.len());
    assert(Seq::<bool>::empty() + bits + pad =~= bits + pad);
    lemma_decode_rest(p, v, nf, Seq::<bool>::empty(), pad);
}

/// After the first `k` tokens, decoding has produced the stream up to where they
/// end, whatever bits follow them.
#[verifier::rlimit(40)]
pub proof fn lemma_decode_prefix(p: LzssDyn, v: Seq<u8>, k: nat, tail: Seq<bool>)
    requires
        p.wf(),
        seeded(p, v),
    ensures
        ({
            let (bits, q) = parse_n(p, v, k);
            let nf = (p.n_spec() - p.f_spec()) as int;
            decode_from(p, bits + tail, 0, fill_run(p.fill(), p.n_spec())) == v.subrange(nf, q)
                + decode_from(p, bits + tail, bits.len() as int, history_at(p, v, q))
        }),
    decreases k,
{
    p.lemma_sizes();
    let nf = (p.n_spec() - p.f_spec()) as int;
    crate::model::lemma_parse_n_encode(p, v, k);
    if k == 0 {
        assert(history_at(p, v, nf) =~= fill_run(p.fill(), p.n_spec()));
        assert(v.subrange(nf, nf) =~= Seq::<u8>::empty());
        assert(Seq::<bool>::empty() + tail =~= tail);
        assert(Seq::<u8>::empty() + decode_from(p, tail, 0, fill_run(p.fill(), p.n_spec()))
            =~= decode_from(p, tail, 0, fill_run(p.fill(), p.n_spec())));
    } else {
        let (bits0, q0) = parse_n(p, v, (k - 1) as nat);
        crate::model::lemma_parse_n_encode(p, v, (k - 1) as nat);
        if q0 < v.len() {
            let tb = token_bits(p, v, q0);
            let a = advance(p, v, q0);
            lemma_decode_prefix(p, v, (k - 1) as nat, tb + tail);
            lemma_decode_token(p, v, q0, bits0, tail);
            assert(bits0 + (tb + tail) =~= bits0 + tb + tail);
            assert(v.subrange(nf, q0) + v.subrange(q0, q0 + a) =~= v.subrange(nf, q0 + a));
            assert(v.subrange(nf, q0) + (v.subrange(q0, q0 + a) + decode_from(
                p,
                bits0 + tb + tail,
                (bits0.len() + tb.len()) as int,
                history_at(p, v, q0 + a),
            )) =~= v.subrange(nf, q0 + a) + decode_from(
                p,
                bits0 + tb + tail,
                (bits0.len() + tb.len()) as int,
                history_at(p, v, q0 + a),
            ));
        } else {
            lemma_decode_prefix(p, v, (k - 1) as nat, tail);
        }
    }
}

/// In-place resumability: the packed bits of the first `k` tokens decompress to the
/// input up to where those tokens end, so that output followed by the input from
/// there is the whole input again.
pub proof fn lemma_in_place_resumable(p: LzssDyn, d: Seq<u8>, k: nat)
    requires
        p.wf(),
    ensures
        ({
            let (bits, q) = parse_n(p, virtual_input(p, d), k);
            let nf = (p.n_spec() - p.f_spec()) as int;
            &&& nf <= q <= nf + d.len()
            &&& decompressed(p, pack(bits)) + d.subrange(q - nf, d.len() as int) == d
        }),
{
    p.lemma_sizes();
    let v = virtual_input(p, d);
    let nf = (p.n_spec() - p.f_spec()) as int;
    lemma_virtual_seeded(p, d);
    let (bits, q) = parse_n(p, v, k);
    crate::model::lemma_parse_n_encode(p, v, k);
    let pad = padding(bits.len());
    lemma_pack(bits);
    lemma_decode_prefix(p, v, k, pad);
    assert(v.subrange(nf, q) =~= d.subrange(0, q - nf));
    assert(d.subrange(0, q - nf) + d.subrange(q - nf, d.len() as int) =~= d);
    assert(v.subrange(nf, q) + Seq::<u8>::empty() =~= v.subrange(nf, q));
}

/// A token costs at most nine bits per byte it covers.
pub proof fn lemma_token_cost(p: LzssDyn, v: Seq<u8>, q: int)
    requires
        p.wf(),
        p.n_spec() - p.f_spec() <= q < v.len(),
    ensures
        token_bits(p, v, q).len() <= 9 * advance(p, v, q),
        token_bits(p, v, q).len() == token_code(p, v, q).1,
{
    p.lemma_sizes();
    lemma_advance_bounds(p, v, q);
    lemma_bits_of_len(token_code(p, v, q).0, token_code(p, v, q).1);
}

/// The tokens from `q` on take at most nine bits per byte.
pub proof fn lemma_encode_len(p: LzssDyn, v: Seq<u8>, q: int)
    requires
        p.wf(),
        p.n_spec() - p.f_spec() <= q <= v.len(),
    ensures
        encode_from(p, v, q).len() <= 9 * (v.len() - q),
    decreases v.len() - q,
{
    p.lemma_sizes();
    if q < v.len() {
        lemma_advance_bounds(p, v, q);
        lemma_token_cost(p, v, q);
        lemma_encode_len(p, v, q + advance(p, v, q));
    }
}

/// Output bound: the compressed form of `d` has at most `ceil(9 * |d| / 8)` bytes.
pub proof fn lemma_compressed_len(p: LzssDyn, d: Seq<u8>)
    requires
        p.wf(),
    ensures
        8 * compressed(p, d).len() <= 9 * d.len() + 7,
{
    p.lemma_sizes();
    let bits = compressed_bits(p, d);
    lemma_encode_len(p, virtual_input(p, d), (p.n_spec() - p.f_spec()) as int);
    lemma_pack(bits);
    crate::bits::lemma_bytes_bits_len(pack(bits));
}

/// `a` is a prefix of `b`.
pub open spec fn is_prefix(a: Seq<u8>, b: Seq<u8>) -> bool {
    a.len() <= b.len() && b.subrange(0, a.len() as int) == a
}

/// Decoding more bits only extends the output.
pub proof fn lemma_decode_extends(p: LzssDyn, a: Seq<bool>, e: Seq<bool>, pos: int, h: Seq<u8>)
    ensures
        is_prefix(decode_from(p, a, pos, h), decode_from(p, a + e, pos, h)),
    decreases a.len() - pos,
{
    let b = a + e;
    if pos < 0 || pos + 9 > a.len() {
        assert(decode_from(p, b, pos, h).subrange(0, 0) =~= Seq::<u8>::empty());
    } else {
        assert(b.subrange(pos, pos + 9) =~= a.subrange(pos, pos + 9));
        let head = value_of(a.subrange(pos, pos + 9));
        if head >= 256 {
            let c = (head - 256) as u8;
            lemma_decode_extends(p, a, e, pos + 9, h.push(c));
            let ra = decode_from(p, a, pos + 9, h.push(c));
            let rb = decode_from(p, b, pos + 9, h.push(c));
            assert((seq![c] + rb).subrange(0, (seq![c] + ra).len() as int) =~= seq![c] + ra);
        } else {
            let w = 1 + p.ei_nat() + p.ej_nat();
            if pos + w > a.len() || w < 9 {
                assert(decode_from(p, b, pos, h).subrange(0, 0) =~= Seq::<u8>::empty());
            } else {
                assert(b.subrange(pos, pos + w) =~= a.subrange(pos, pos + w));
                let code = value_of(a.subrange(pos, pos + w));
                let off = code / pow2(p.ej_nat());
                let l = code % pow2(p.ej_nat()) + p.p_spec() + 1;
                let run = copy_run(h, match_source(p, h, off), l);
                lemma_decode_extends(p, a, e, pos + w, h + run);
                let ra = decode_from(p, a, pos + w, h + run);
                let rb = decode_from(p, b, pos + w, h + run);
                assert((run + rb).subrange(0, (run + ra).len() as int) =~= run + ra);
            }
        }
    }
}

/// Truncated input: decompressing the first `k` bytes of `c` gives a prefix of what
/// decompressing all of `c` gives; truncation shortens the output and is no error.
pub proof fn lemma_truncation(p: LzssDyn, c: Seq<u8>, k: int)
    requires
        0 <= k <= c.len(),
    ensures
        is_prefix(decompressed(p, c.subrange(0, k)), decompressed(p, c)),
{
    let a = c.subrange(0, k);
    let t = c.subrange(k, c.len() as int);
    assert(a + t =~= c);
    crate::bits::lemma_bytes_bits_concat(a, t);
    lemma_decode_extends(
        p,
        bytes_bits(a),
        bytes_bits(t),
        0,
        fill_run(p.fill(), p.n_spec()),
    );
}

/// Empty input: nothing compresses to nothing, and nothing decompresses to nothing.
pub proof fn lemma_empty(p: LzssDyn)
    requires
        p.wf(),
    ensures
        compressed(p, Seq::<u8>::empty()) == Seq::<u8>::empty(),
        decompressed(p, Seq::<u8>::empty()) == Seq::<u8>::empty(),
{
    p.lemma_sizes();
    let v = virtual_input(p, Seq::<u8>::empty());
    assert(encode_from(p, v, v.len() as int) =~= Seq::<bool>::empty());
    assert(v.len() == p.n_spec() - p.f_spec());
    assert(compressed_bits(p, Seq::<u8>::empty()) =~= Seq::<bool>::empty());
    assert(bytes_bits(Seq::<u8>::empty()) =~= Seq::<bool>::empty());
}

} // verus!
