//! Messages into the sender supervisor and the actions it hands back.
//!
//! The supervisor is a state machine: a runtime feeds it one message at a
//! time together with the current clock, and performs the returned actions
//! (spawn or stop an allocation worker, trigger a voucher request, write the
//! deny list, schedule or cancel a retry).

use vstd::prelude::*;
use crate::account_model::MessageModel;
use crate::address::{Address, Balance};
use crate::receipts::{Rav, RavRequestError, UnaggregatedReceipts};

verus! {

/// What an allocation reports about its receipt fees.
#[derive(Clone, Copy, Debug)]
pub enum ReceiptFees {
    /// One new valid receipt of the given value arrived.
    NewReceipt(u128),
    /// The allocation reconciled its totals; overwrite them.
    UpdateValue(UnaggregatedReceipts),
    /// A voucher request ended: with the remaining unaggregated totals and
    /// the voucher obtained, or with an error.
    RavRequestResponse(Result<(UnaggregatedReceipts, Option<Rav>), RavRequestError>),
    /// No news; re-run the trigger and deny checks.
    Retry,
}

/// One inbound message for a sender supervisor.
#[derive(Clone, Debug)]
pub enum SenderAccountMessage {
    /// A fresh escrow balance together with the still unredeemed last
    /// vouchers, as `(allocation, value)` pairs with distinct allocations.
    UpdateBalanceAndLastRavs(Balance, Vec<(Address, u128)>),
    /// The full set of open allocations, as a duplicate-free list.
    UpdateAllocationIds(Vec<Address>),
    /// One allocation opened.
    NewAllocationId(Address),
    /// An allocation reports about its receipt fees.
    UpdateReceiptFees(Address, ReceiptFees),
    /// An allocation reports the cumulative value of its invalid receipts.
    UpdateInvalidReceiptFees(Address, UnaggregatedReceipts),
    /// A voucher was observed elsewhere; overwrite its pending value.
    UpdateRav(Rav),
}

impl View for SenderAccountMessage {
    type V = MessageModel;

    open spec fn view(&self) -> MessageModel {
        match self {
            SenderAccountMessage::UpdateBalanceAndLastRavs(b, ravs) => {
                MessageModel::UpdateBalanceAndLastRavs(*b, ravs@)
            },
            SenderAccountMessage::UpdateAllocationIds(ids) => {
                MessageModel::UpdateAllocationIds(ids@)
            },
            SenderAccountMessage::NewAllocationId(id) => MessageModel::NewAllocationId(*id),
            SenderAccountMessage::UpdateReceiptFees(id, fees) => {
                MessageModel::UpdateReceiptFees(*id, *fees)
            },
            SenderAccountMessage::UpdateInvalidReceiptFees(id, fees) => {
                MessageModel::UpdateInvalidReceiptFees(*id, *fees)
            },
            SenderAccountMessage::UpdateRav(rav) => MessageModel::UpdateRav(*rav),
        }
    }
}

/// One action the runtime must perform after a message was handled, in the
/// order returned.
#[derive(Clone, Copy, Debug, PartialEq, Eq, Structural)]
pub enum Action {
    /// Start an allocation worker for this allocation.
    SpawnAllocation(Address),
    /// Ask the worker of this allocation to finalise and stop.
    StopAllocation(Address),
    /// Ask the worker of this allocation to request a voucher.
    TriggerRavRequest(Address),
    /// Insert the sender into the persisted deny list (idempotently).
    AddToDenyList,
    /// Delete the sender from the persisted deny list.
    RemoveFromDenyList,
    /// Abort the scheduled retry timer.
    CancelRetry,
    /// After the retry interval, feed back
    /// `UpdateReceiptFees(allocation, Retry)`.
    ScheduleRetry(Address),
    /// Feed back `UpdateReceiptFees(allocation, UpdateValue(zero))` to
    /// reconcile a terminated allocation.
    ResetAllocationFees(Address),
}

/// The configuration a sender supervisor runs under.
#[derive(Clone, Copy, Debug, PartialEq, Eq, Structural)]
pub struct SenderAccountConfig {
    /// Voucher request threshold on the total value outside the buffer.
    pub rav_request_trigger_value: u128,
    /// Voucher request threshold on one allocation's receipt count outside
    /// the buffer.
    pub rav_request_receipt_limit: u64,
    /// Width of the timestamp buffer, in milliseconds.
    pub rav_request_timestamp_buffer_ms: u64,
    /// Deadline handed to the runtime for one voucher request, in seconds.
    pub rav_request_timeout_secs: u64,
    /// Hard cap: deny once unaggregated plus invalid fees reach it.
    pub max_unaggregated_fees_per_sender: u128,
    /// Spacing of retries while the sender stays denied, in milliseconds;
    /// also the backoff after a failed voucher request.
    pub retry_interval_ms: u64,
}

} // verus!
