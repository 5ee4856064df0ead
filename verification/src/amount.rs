//! 256-bit unsigned token amounts.

use vstd::prelude::*;

verus! {

/// 2^128, the weight of the high half of an [`Amount`].
pub open spec fn half_base() -> nat {
    0x1_0000_0000_0000_0000_0000_0000_0000_0000nat
}

/// 2^256 - 1, the largest amount.
pub open spec fn amount_max() -> nat {
    0xffff_ffff_ffff_ffff_ffff_ffff_ffff_ffff_ffff_ffff_ffff_ffff_ffff_ffff_ffff_ffffnat
}

/// The smaller of two naturals.
pub open spec fn nat_min(a: nat, b: nat) -> nat {
    if a <= b {
        a
    } else {
        b
    }
}

/// A 256-bit unsigned amount of a token (or of wei), held as its high and
/// low 128-bit halves; its value is `hi * 2^128 + lo`.
#[derive(Clone, Copy, Debug, PartialEq, Eq, Structural)]
pub struct Amount {
    pub hi: u128,
    pub lo: u128,
}

impl Amount {
    /// The number this amount stands for.
    pub open spec fn value(self) -> nat {
        (self.hi as nat) * half_base() + (self.lo as nat)
    }

    /// Every amount lies in `0..=2^256 - 1`.
    pub proof fn lemma_value_bounded(self)
        ensures
            self.value() <= amount_max(),
    {
    }

    /// Two amounts with one value are the same amount.
    pub proof fn lemma_value_injective(self, other: Amount)
        ensures
            self.value() == other.value() <==> self == other,
    {
    }

    /// The amount zero.
    pub fn zero() -> (r: Amount)
        ensures
            r.value() == 0,
    {
        Amount { hi: 0, lo: 0 }
    }

    /// The largest amount, `2^256 - 1`.
    pub fn max_value() -> (r: Amount)
        ensures
            r.value() == amount_max(),
    {
        Amount { hi: u128::MAX, lo: u128::MAX }
    }

    /// The amount of a 128-bit number.
    pub fn from_u128(lo: u128) -> (r: Amount)
        ensures
            r.value() == lo,
    {
        Amount { hi: 0, lo }
    }

    /// Adds two amounts, staying at the largest amount instead of
    /// overflowing.
    pub fn saturating_add(self, other: Amount) -> (r: Amount)
        ensures
            r.value() == nat_min(self.value() + other.value(), amount_max()),
    {
        let (lo, carry): (u128, u128) = match self.lo.checked_add(other.lo) {
            Some(sum) => (sum, 0),
            None => (self.lo - (u128::MAX - other.lo) - 1, 1),
        };
        assert(self.lo + other.lo == lo + carry * half_base());
        let ghost total = self.value() + other.value();
        assert(total == (self.hi + other.hi + carry) * half_base() + lo);
        match self.hi.checked_add(other.hi) {
            Some(high) => match high.checked_add(carry) {
                Some(hi) => {
                    let r = Amount { hi, lo };
                    assert(r.value() == total);
                    r
                },
                None => {
                    assert(total >= 0x1_0000_0000_0000_0000_0000_0000_0000_0000 * half_base());
                    Amount::max_value()
                },
            },
            None => {
                assert(total >= 0x1_0000_0000_0000_0000_0000_0000_0000_0000 * half_base());
                Amount::max_value()
            },
        }
    }

    /// Whether this amount is smaller than `other`.
    pub fn less_than(&self, other: &Amount) -> (r: bool)
        ensures
            r == (self.value() < other.value()),
    {
        self.hi < other.hi || (self.hi == other.hi && self.lo < other.lo)
    }
}

} // verus!
