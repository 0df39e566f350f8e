//! Reading a byte value written in decimal or, after `0x`, in hexadecimal.
use vstd::prelude::*;

verus! {

/// The value of the digit `b` in base `radix` (10 or 16), or -1 where `b` is no
/// such digit. Hexadecimal digits may be upper or lower case.
pub open spec fn digit_value(b: u8, radix: nat) -> int {
    if 48 <= b <= 57 && b - 48 < radix {
        b - 48
    } else if radix == 16 && 97 <= b <= 102 {
        b - 87
    } else if radix == 16 && 65 <= b <= 70 {
        b - 55
    } else {
        -1
    }
}

/// Every byte of `s` is a digit in base `radix`.
pub open spec fn all_digits(s: Seq<u8>, radix: nat) -> bool {
    forall|i: int| 0 <= i < s.len() ==> #[trigger] digit_value(s[i], radix) >= 0
}

/// The number the digits `s` spell in base `radix`.
pub open spec fn digits_value(s: Seq<u8>, radix: nat) -> int
    decreases s.len(),
{
    if s.len() == 0 {
        0
    } else {
        digits_value(s.drop_last(), radix) * radix + digit_value(s.last(), radix)
    }
}

/// A byte value written in base `radix`: an optional `+`, then at least one digit.
pub open spec fn byte_in_radix(s: Seq<u8>, radix: nat) -> Option<u8> {
    let body = if s.len() > 0 && s[0] == 43 {
        s.subrange(1, s.len() as int)
    } else {
        s
    };
    if body.len() > 0 && all_digits(body, radix) && digits_value(body, radix) <= 255 {
        Some(digits_value(body, radix) as u8)
    } else {
        None
    }
}

/// A byte value in hexadecimal after a `0x` prefix, else in decimal.
pub open spec fn dec_or_hex_byte(s: Seq<u8>) -> Option<u8> {
    if s.len() >= 2 && s[0] == 48 && s[1] == 120 {
        byte_in_radix(s.subrange(2, s.len() as int), 16)
    } else {
        byte_in_radix(s, 10)
    }
}

proof fn lemma_digits_nonneg(s: Seq<u8>, radix: nat)
    requires
        all_digits(s, radix),
    ensures
        digits_value(s, radix) >= 0,
    decreases s.len(),
{
    if s.len() > 0 {
        assert(all_digits(s.drop_last(), radix)) by {
            assert forall|i: int| 0 <= i < s.drop_last().len() implies #[trigger] digit_value(
                s.drop_last()[i],
                radix,
            ) >= 0 by {
                assert(s.drop_last()[i] == s[i]);
            }
        }
        lemma_digits_nonneg(s.drop_last(), radix);
        assert(digit_value(s[s.len() - 1], radix) >= 0);
        assert(digits_value(s.drop_last(), radix) * radix >= 0) by (nonlinear_arith)
            requires
                digits_value(s.drop_last(), radix) >= 0,
        ;
    }
}

/// Reads `s[from..]` as a byte value in base `radix` (10 or 16).
fn parse_radix(s: &[u8], from: usize, radix: u8) -> (r: Option<u8>)
    requires
        from <= s@.len(),
        radix == 10 || radix == 16,
    ensures
        r == byte_in_radix(s@.subrange(from as int, s@.len() as int), radix as nat),
{
    let ghost t = s@.subrange(from as int, s@.len() as int);
    let len = s.len();
    let mut i = from;
    if i < len && s[i] == 43 {
        i = i + 1;
    }
    let start = i;
    let ghost body = s@.subrange(start as int, len as int);
    proof {
        if from < len && s@[from as int] == 43 {
            assert(body =~= t.subrange(1, t.len() as int));
        } else {
            assert(body =~= t);
        }
    }
    if start == len {
        return None;
    }
    let mut value: u32 = 0;
    while i < len
        invariant
            from <= start <= i <= len,
            len == s@.len(),
            t == s@.subrange(from as int, len as int),
            body.len() > 0,
            t.len() > 0 && t[0] == 43 ==> body == t.subrange(1, t.len() as int),
            !(t.len() > 0 && t[0] == 43) ==> body == t,
            radix == 10 || radix == 16,
            body == s@.subrange(start as int, len as int),
            all_digits(s@.subrange(start as int, i as int), radix as nat),
            value as int == digits_value(s@.subrange(start as int, i as int), radix as nat),
            value <= 255,
        decreases len - i,
    {
        let b = s[i];
        let d: u32 = if 48 <= b && b <= 57 && ((b - 48) as u32) < (radix as u32) {
            (b - 48) as u32
        } else if radix == 16 && 97 <= b && b <= 102 {
            (b - 87) as u32
        } else if radix == 16 && 65 <= b && b <= 70 {
            (b - 55) as u32
        } else {
            proof {
                assert(digit_value(body[i - start], radix as nat) < 0);
            }
            return None;
        };
        let ghost prefix = s@.subrange(start as int, i as int);
        let ghost next = s@.subrange(start as int, i + 1);
        proof {
            assert(next.drop_last() =~= prefix);
            assert(next.last() == b);
            assert(digit_value(b, radix as nat) == d);
            assert(all_digits(next, radix as nat)) by {
                assert forall|j: int| 0 <= j < next.len() implies #[trigger] digit_value(
                    next[j],
                    radix as nat,
                ) >= 0 by {
                    if j < prefix.len() {
                        assert(next[j] == prefix[j]);
                    }
                }
            }
        }
        let nv = value * (radix as u32) + d;
        if nv > 255 {
            proof {
                assert(body.subrange(0, (i + 1 - start) as int) =~= next);
                lemma_digits_grow(body, (i + 1 - start) as nat, radix as nat);
            }
            return None;
        }
        value = nv;
        i = i + 1;
    }
    proof {
        assert(s@.subrange(start as int, i as int) =~= body);
    }
    Some(value as u8)
}

/// Once a prefix of the digits spells more than 255, so do all the digits, or some
/// byte is no digit.
proof fn lemma_digits_grow(s: Seq<u8>, k: nat, radix: nat)
    requires
        k <= s.len(),
        radix >= 1,
        all_digits(s.subrange(0, k as int), radix),
        digits_value(s.subrange(0, k as int), radix) > 255,
    ensures
        all_digits(s, radix) ==> digits_value(s, radix) > 255,
    decreases s.len() - k,
{
    if k < s.len() && all_digits(s, radix) {
        let a = s.subrange(0, k as int);
        let b = s.subrange(0, k as int + 1);
        assert(b.drop_last() =~= a);
        assert(digit_value(s[k as int], radix) >= 0);
        assert(all_digits(b, radix)) by {
            assert forall|j: int| 0 <= j < b.len() implies #[trigger] digit_value(b[j], radix)
                >= 0 by {
                assert(b[j] == s[j]);
            }
        }
        assert(digits_value(b, radix) > 255) by (nonlinear_arith)
            requires
                digits_value(b, radix) == digits_value(a, radix) * radix + digit_value(
                    s[k as int],
                    radix,
                ),
                digits_value(a, radix) > 255,
                radix >= 1,
                digit_value(s[k as int], radix) >= 0,
        ;
        lemma_digits_grow(s, k + 1, radix);
    } else if k == s.len() {
        assert(s.subrange(0, k as int) =~= s);
    }
}

/// Reads a byte value written in decimal, or in hexadecimal after `0x`; `None`
/// where `s` is no such value.
pub fn parse_dec_or_hex_u8(s: &[u8]) -> (r: Option<u8>)
    ensures
        r == dec_or_hex_byte(s@),
{
    if s.len() >= 2 && s[0] == 48 && s[1] == 120 {
        parse_radix(s, 2, 16)
    } else {
        proof {
            assert(s@.subrange(0, s@.len() as int) =~= s@);
        }
        parse_radix(s, 0, 10)
    }
}

} // verus!
