//! Account identifiers and escrow balances as plain integers.
//!
//! An account identifier is a 160-bit value, held as a 32-bit high part and a
//! 128-bit low part of its big-endian numeric value; an escrow balance is a
//! 256-bit value held as two 128-bit halves.  Both are ordered numerically,
//! which for the identifier agrees with the lexicographic order of its bytes.

use vstd::prelude::*;

verus! {

/// A 160-bit account identifier (sender, allocation or indexer).
#[derive(Clone, Copy, Debug, PartialEq, Eq, Hash, Structural)]
pub struct Address {
    /// Bits 159..128 of the big-endian value.
    pub hi: u32,
    /// Bits 127..0 of the big-endian value.
    pub lo: u128,
}

impl Address {
    /// The identifier as the mathematical value `hi * 2^128 + lo`.
    pub open spec fn as_int(self) -> int {
        self.hi * 0x1_0000_0000_0000_0000_0000_0000_0000_0000 + self.lo
    }

    pub fn new(hi: u32, lo: u128) -> (r: Address)
        ensures
            r.hi == hi,
            r.lo == lo,
    {
        Address { hi, lo }
    }

    /// The identifier whose numeric value is a small integer.
    pub fn from_u64(v: u64) -> (r: Address)
        ensures
            r.as_int() == v,
    {
        Address { hi: 0, lo: v as u128 }
    }

    /// Numeric (equivalently, lexicographic byte) order.
    pub fn lt(&self, other: &Address) -> (r: bool)
        ensures
            r == (self.as_int() < other.as_int()),
    {
        if self.hi != other.hi {
            self.hi < other.hi
        } else {
            self.lo < other.lo
        }
    }
}

/// A 256-bit escrow balance in token units.
#[derive(Clone, Copy, Debug, PartialEq, Eq, Structural)]
pub struct Balance {
    /// Bits 255..128 of the value.
    pub hi: u128,
    /// Bits 127..0 of the value.
    pub lo: u128,
}

impl Balance {
    /// The balance as the mathematical value `hi * 2^128 + lo`.
    pub open spec fn as_int(self) -> int {
        self.hi * 0x1_0000_0000_0000_0000_0000_0000_0000_0000 + self.lo
    }

    pub fn new(hi: u128, lo: u128) -> (r: Balance)
        ensures
            r.hi == hi,
            r.lo == lo,
    {
        Balance { hi, lo }
    }

    /// The balance that is a plain 128-bit amount.
    pub fn from_u128(v: u128) -> (r: Balance)
        ensures
            r.as_int() == v,
    {
        Balance { hi: 0, lo: v }
    }

    pub open spec fn spec_zero() -> Balance {
        Balance { hi: 0, lo: 0 }
    }

    pub fn zero() -> (r: Balance)
        ensures
            r == Balance::spec_zero(),
            r.as_int() == 0,
    {
        Balance { hi: 0, lo: 0 }
    }
}

/// Whether `a + b`, a sum of two fee totals, reaches the balance `bal`.
///
/// The sum is formed exactly (it may exceed 128 bits) and compared against
/// the full 256-bit balance.
pub fn fee_sum_reaches_balance(a: u128, b: u128, bal: &Balance) -> (r: bool)
    ensures
        r == (a + b >= bal.as_int()),
{
    let carry: bool = b > u128::MAX - a;
    let low: u128 = if carry {
        b - (u128::MAX - a) - 1
    } else {
        a + b
    };
    proof {
        if carry {
            assert(a + b == low + 0x1_0000_0000_0000_0000_0000_0000_0000_0000);
        } else {
            assert(a + b == low);
        }
    }
    if bal.hi > 1 {
        false
    } else if bal.hi == 1 {
        carry && low >= bal.lo
    } else {
        carry || low >= bal.lo
    }
}

/// Whether `a + b`, a sum of two fee totals, reaches the 128-bit cap `cap`.
pub fn fee_sum_reaches_cap(a: u128, b: u128, cap: u128) -> (r: bool)
    ensures
        r == (a + b >= cap),
{
    if b > u128::MAX - a {
        true
    } else {
        a + b >= cap
    }
}

/// Escrow still available to a sender once the value already claimed by
/// pending vouchers is set aside: `max(0, balance - pending)`.
pub fn available_escrow(balance: &Balance, pending: u128) -> (r: Balance)
    ensures
        r.as_int() == if balance.as_int() >= pending {
            balance.as_int() - pending
        } else {
            0
        },
{
    if balance.hi == 0 {
        if balance.lo >= pending {
            Balance { hi: 0, lo: balance.lo - pending }
        } else {
            Balance { hi: 0, lo: 0 }
        }
    } else {
        if balance.lo >= pending {
            Balance { hi: balance.hi, lo: balance.lo - pending }
        } else {
            let low: u128 = u128::MAX - (pending - balance.lo) + 1;
            proof {
                assert((balance.hi - 1) * 0x1_0000_0000_0000_0000_0000_0000_0000_0000
                    == balance.hi * 0x1_0000_0000_0000_0000_0000_0000_0000_0000
                        - 0x1_0000_0000_0000_0000_0000_0000_0000_0000) by (nonlinear_arith);
            }
            Balance { hi: balance.hi - 1, lo: low }
        }
    }
}

} // verus!
