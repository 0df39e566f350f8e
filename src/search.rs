//! The longest-match search over a window of bytes.
use vstd::prelude::*;

use crate::model::{best_from, extend, match_len};

verus! {

pub proof fn lemma_extend_bounds(v: Seq<u8>, i: int, r: int, j: nat, f1: nat)
    requires
        j <= f1,
    ensures
        j <= extend(v, i, r, j, f1) <= f1,
    decreases f1 - j,
{
    if j < f1 && v[i + j] == v[r + j] {
        lemma_extend_bounds(v, i, r, j + 1, f1);
    }
}

/// What the scan over `[i, r)` picks is a candidate, and its length is within bounds.
pub proof fn lemma_best_bounds(v: Seq<u8>, i: int, r: int, f1: nat)
    requires
        1 <= f1,
    ensures
        1 <= best_from(v, i, r, f1).1 <= f1,
        best_from(v, i, r, f1).1 > 1 ==> i <= best_from(v, i, r, f1).0 < r,
    decreases r - i,
{
    if i < r {
        lemma_best_bounds(v, i + 1, r, f1);
        if v[i] == v[r] {
            lemma_extend_bounds(v, i, r, 1, f1);
        }
    }
}

proof fn lemma_extend_shift(a: Seq<u8>, b: Seq<u8>, d: int, i: int, r: int, j: nat, f1: nat)
    requires
        j <= f1,
        i < r,
        forall|k: int| i <= k < r + f1 ==> a[k] == b[k + d],
    ensures
        extend(a, i, r, j, f1) == extend(b, i + d, r + d, j, f1),
    decreases f1 - j,
{
    if j < f1 {
        assert(a[i + j] == b[i + j + d]);
        assert(a[r + j] == b[r + j + d]);
        assert(i + d + j == i + j + d);
        assert(r + d + j == r + j + d);
        lemma_extend_shift(a, b, d, i, r, j + 1, f1);
    }
}

/// The scan reads only the bytes in `[i, r + f1)`: moved by `d` in another sequence
/// that holds the same bytes there, it picks the same length at the moved position.
pub proof fn lemma_best_shift(a: Seq<u8>, b: Seq<u8>, d: int, i: int, r: int, f1: nat)
    requires
        1 <= f1,
        i <= r,
        forall|k: int| i <= k < r + f1 ==> a[k] == b[k + d],
    ensures
        best_from(b, i + d, r + d, f1).1 == best_from(a, i, r, f1).1,
        best_from(a, i, r, f1).1 > 1 ==> best_from(b, i + d, r + d, f1).0 == best_from(
            a,
            i,
            r,
            f1,
        ).0 + d,
    decreases r - i,
{
    if i < r {
        lemma_best_shift(a, b, d, i + 1, r, f1);
        assert(i + 1 + d == i + d + 1);
        assert(a[i] == b[i + d]);
        assert(a[r] == b[r + d]);
        lemma_extend_shift(a, b, d, i, r, 1, f1);
        assert(match_len(a, i, r, f1) == match_len(b, i + d, r + d, f1));
        lemma_best_bounds(a, i + 1, r, f1);
    }
}

/// Finds the longest earlier match for the bytes at `r` among the positions
/// `[s, r)`, looking at most `f1` bytes ahead; ties go to the most recent position.
pub(crate) fn find_match(buf: &[u8], s: usize, r: usize, f1: usize) -> (res: (usize, usize))
    requires
        s <= r,
        1 <= f1,
        r + f1 <= buf@.len(),
    ensures
        res.0 as int == best_from(buf@, s as int, r as int, f1 as nat).0,
        res.1 as nat == best_from(buf@, s as int, r as int, f1 as nat).1,
{
    let c = buf[r];
    let len = buf.len();
    let mut x: usize = 0;
    let mut y: usize = 1;
    let mut i: usize = r;
    while i > s
        invariant
            s <= i <= r,
            r + f1 <= buf@.len(),
            len == buf@.len(),
            1 <= f1,
            c == buf@[r as int],
            x as int == best_from(buf@, i as int, r as int, f1 as nat).0,
            y as nat == best_from(buf@, i as int, r as int, f1 as nat).1,
        decreases i,
    {
        i = i - 1;
        proof {
            lemma_best_bounds(buf@, i as int + 1, r as int, f1 as nat);
        }
        if buf[i] == c {
            let mut j: usize = 1;
            while j < f1 && buf[i + j] == buf[r + j]
                invariant
                    1 <= j <= f1,
                    i < r,
                    len == buf@.len(),
                    r + f1 <= buf@.len(),
                    extend(buf@, i as int, r as int, 1, f1 as nat) == extend(
                        buf@,
                        i as int,
                        r as int,
                        j as nat,
                        f1 as nat,
                    ),
                decreases f1 - j,
            {
                j = j + 1;
            }
            if j > y {
                x = i;
                y = j;
            }
        }
    }
    (x, y)
}

} // verus!
