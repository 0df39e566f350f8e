use vstd::arithmetic::power2::{lemma_pow2_pos, lemma_pow2_strictly_increases, pow2};
use vstd::bits::lemma_usize_shl_is_mul;
use vstd::bits::lemma_usize_pow2_no_overflow;
use vstd::prelude::*;

verus! {

/// Whether `ei` offset bits and `ej` length bits form a usable parameter set.
pub open spec fn params_ok(ei: nat, ej: nat) -> bool {
    &&& 1 <= ej
    &&& ej < ei
    &&& 8 <= ei + ej <= 24
    &&& ei + 1 < usize::BITS
}

/// Window size `N = 2^ei`.
pub open spec fn window_size(ei: nat) -> nat {
    pow2(ei)
}

/// Threshold `P`: matches of this length or shorter are sent as literals.
pub open spec fn threshold(ei: nat, ej: nat) -> nat {
    (1 + ei + ej) / 9
}

/// Lookahead size `F = 2^ej + P`, also the longest match.
pub open spec fn lookahead(ei: nat, ej: nat) -> nat {
    pow2(ej) + threshold(ei, ej)
}

/// Runtime parameters of the coder: offset bits, length bits and fill byte.
#[derive(Copy, Clone, PartialEq, Eq, Structural)]
pub struct LzssDyn {
    pub(crate) ei: usize,
    pub(crate) ej: usize,
    pub(crate) c: u8,
}

/// Why a parameter set was refused by [`LzssDyn::new`].
#[derive(Debug, Copy, Clone, PartialEq, Eq, Structural)]
pub enum LzssDynError {
    /// `ej` is zero.
    EjIsZero,
    /// `ei` is not larger than `ej`.
    EiNotLargerThanEj,
    /// `ei + ej` is less than 8.
    EiEjToSmall,
    /// `ei + ej` is more than 24, or `ei` does not fit the index width.
    EiEjToLarge,
}

impl LzssDynError {
    /// A sentence that describes the error.
    pub fn message(&self) -> (r: &'static str)
        ensures
            *self == LzssDynError::EjIsZero ==> r@ == "Invalid EJ, must be larger than 0"@,
            *self == LzssDynError::EiNotLargerThanEj ==> r@ == "Invalid EI, must be larger than EJ"@,
            *self == LzssDynError::EiEjToSmall ==> r@
                == "Invalid EI, EJ, both together must be 8 or more"@,
            *self == LzssDynError::EiEjToLarge ==> r@
                == "Invalid EI, EJ, both together must be 24 or less"@,
    {
        match self {
            LzssDynError::EjIsZero => {
                proof { reveal_strlit("Invalid EJ, must be larger than 0"); }
                "Invalid EJ, must be larger than 0"
            },
            LzssDynError::EiNotLargerThanEj => {
                proof { reveal_strlit("Invalid EI, must be larger than EJ"); }
                "Invalid EI, must be larger than EJ"
            },
            LzssDynError::EiEjToSmall => {
                proof { reveal_strlit("Invalid EI, EJ, both together must be 8 or more"); }
                "Invalid EI, EJ, both together must be 8 or more"
            },
            LzssDynError::EiEjToLarge => {
                proof { reveal_strlit("Invalid EI, EJ, both together must be 24 or less"); }
                "Invalid EI, EJ, both together must be 24 or less"
            },
        }
    }
}

impl LzssDyn {
    /// Offset bits as a number.
    pub open(crate) spec fn ei_nat(&self) -> nat {
        self.ei as nat
    }

    /// Length bits as a number.
    pub open(crate) spec fn ej_nat(&self) -> nat {
        self.ej as nat
    }

    /// The fill byte.
    pub open(crate) spec fn fill(&self) -> u8 {
        self.c
    }

    /// The parameters satisfy every restriction.
    pub open(crate) spec fn wf(&self) -> bool {
        params_ok(self.ei as nat, self.ej as nat)
    }

    pub open(crate) spec fn n_spec(&self) -> nat {
        window_size(self.ei as nat)
    }

    pub open(crate) spec fn p_spec(&self) -> nat {
        threshold(self.ei as nat, self.ej as nat)
    }

    pub open(crate) spec fn f_spec(&self) -> nat {
        lookahead(self.ei as nat, self.ej as nat)
    }

    /// Checks the parameters and builds the set.
    pub fn new(ei: usize, ej: usize, c: u8) -> (r: Result<Self, LzssDynError>)
        ensures
            ej == 0 ==> r == Err::<Self, LzssDynError>(LzssDynError::EjIsZero),
            ej != 0 && ej >= ei ==> r == Err::<Self, LzssDynError>(
                LzssDynError::EiNotLargerThanEj,
            ),
            ej != 0 && ej < ei && ei + ej < 8 ==> r == Err::<Self, LzssDynError>(
                LzssDynError::EiEjToSmall,
            ),
            ej != 0 && ej < ei && ei + ej >= 8 && !params_ok(ei as nat, ej as nat) ==> r
                == Err::<Self, LzssDynError>(LzssDynError::EiEjToLarge),
            params_ok(ei as nat, ej as nat) ==> (r matches Ok(p) && p.wf() && p.ei_nat() == ei
                && p.ej_nat() == ej && p.fill() == c),
    {
        if ej == 0 {
            Err(LzssDynError::EjIsZero)
        } else if ej >= ei {
            Err(LzssDynError::EiNotLargerThanEj)
        } else if ei > 24 {
            Err(LzssDynError::EiEjToLarge)
        } else if ei + ej < 8 {
            Err(LzssDynError::EiEjToSmall)
        } else if ei + ej > 24 || (ei as u32) + 1 >= usize::BITS {
            Err(LzssDynError::EiEjToLarge)
        } else {
            Ok(LzssDyn { ei, ej, c })
        }
    }

    /// The offset bits.
    pub fn ei(&self) -> (r: usize)
        ensures
            r == self.ei_nat(),
    {
        self.ei
    }

    /// The length bits.
    pub fn ej(&self) -> (r: usize)
        ensures
            r == self.ej_nat(),
    {
        self.ej
    }

    /// The fill byte.
    pub fn c(&self) -> (r: u8)
        ensures
            r == self.fill(),
    {
        self.c
    }

    /// The window size `2^ei`.
    pub(crate) fn n(&self) -> (r: usize)
        requires
            self.wf(),
        ensures
            r == self.n_spec(),
    {
        proof {
            self.lemma_sizes();
            lemma_usize_pow2_no_overflow(self.ei as nat);
            lemma_usize_shl_is_mul(1, self.ei);
        }
        1usize << self.ei
    }

    /// The literal threshold `(1 + ei + ej) / 9`.
    pub(crate) fn p(&self) -> (r: usize)
        requires
            self.wf(),
        ensures
            r == self.p_spec(),
    {
        (1 + self.ei + self.ej) / 9
    }

    /// The lookahead size `2^ej + p`.
    pub(crate) fn f(&self) -> (r: usize)
        requires
            self.wf(),
        ensures
            r == self.f_spec(),
    {
        proof {
            self.lemma_sizes();
            lemma_usize_pow2_no_overflow(self.ej as nat);
            lemma_usize_shl_is_mul(1, self.ej);
        }
        (1usize << self.ej) + self.p()
    }

    /// Size relations between the derived constants.
    pub(crate) proof fn lemma_sizes(&self)
        requires
            self.wf(),
        ensures
            self.p_spec() <= 2,
            self.f_spec() + self.p_spec() + 4 < self.n_spec(),
            2 * self.n_spec() < usize::MAX,
            self.n_spec() == 2 * pow2((self.ei - 1) as nat),
            pow2(self.ej as nat) * 2 <= self.n_spec(),
            self.n_spec() <= 0x80_0000,
            self.n_spec() >= 32,
    {
        lemma_pow2_strictly_increases(self.ej as nat, self.ei as nat);
        lemma_pow2_pos(self.ej as nat);
        vstd::arithmetic::power2::lemma_pow2_unfold(self.ei as nat);
        vstd::arithmetic::power2::lemma_pow2_adds(self.ej as nat, (self.ei - self.ej) as nat);
        vstd::arithmetic::power2::lemma2_to64();
        if self.ei < 23 {
            lemma_pow2_strictly_increases(self.ei as nat, 23);
        }
        if self.ei > 5 {
            lemma_pow2_strictly_increases(5, self.ei as nat);
        }
        lemma_usize_pow2_no_overflow((self.ei + 1) as nat);
        vstd::arithmetic::power2::lemma_pow2_unfold((self.ei + 1) as nat);
        assert(pow2(self.ej as nat) * 2 <= self.n_spec()) by {
            vstd::arithmetic::power2::lemma_pow2_adds(self.ej as nat, 1);
            if self.ej + 1 < self.ei {
                lemma_pow2_strictly_increases((self.ej + 1) as nat, self.ei as nat);
            }
        }
    }
}

} // verus!
