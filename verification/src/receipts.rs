//! Plain data carried by the messages: reconciled receipt totals and
//! aggregate vouchers.

use vstd::prelude::*;
use crate::address::Address;

verus! {

/// Totals of the receipts of one allocation that no voucher covers yet.
#[derive(Clone, Copy, Debug, PartialEq, Eq, Structural)]
pub struct UnaggregatedReceipts {
    /// Sum of the receipt values.
    pub value: u128,
    /// Identifier of the newest receipt in the sum.
    pub last_id: u64,
    /// Number of receipts in the sum.
    pub counter: u64,
}

impl UnaggregatedReceipts {
    pub open spec fn spec_zero() -> UnaggregatedReceipts {
        UnaggregatedReceipts { value: 0, last_id: 0, counter: 0 }
    }

    /// The empty total: no receipts at all.
    pub fn zero() -> (r: UnaggregatedReceipts)
        ensures
            r == UnaggregatedReceipts::spec_zero(),
    {
        UnaggregatedReceipts { value: 0, last_id: 0, counter: 0 }
    }
}

/// A receipt aggregate voucher: one signed value commitment that replaces
/// the receipts of one allocation.  Only the fields the accounting reads are
/// held; the signature stays with the runtime that obtained it.
#[derive(Clone, Copy, Debug, PartialEq, Eq, Structural)]
pub struct Rav {
    /// The allocation the voucher covers.
    pub allocation_id: Address,
    /// Timestamp bound of the covered receipts, in nanoseconds.
    pub timestamp_ns: u64,
    /// The aggregated value.
    pub value_aggregate: u128,
}

/// A failed voucher request.  The cause stays with the runtime; the
/// accounting only needs to know that the request ended without a voucher.
#[derive(Clone, Copy, Debug, PartialEq, Eq, Structural)]
pub struct RavRequestError {
}

impl RavRequestError {
    pub fn new() -> RavRequestError {
        RavRequestError {  }
    }
}

} // verus!
