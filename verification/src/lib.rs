//! Per-sender accounting agent for a receipt-aggregation protocol.
//!
//! For one sender, the library tracks unaggregated receipt fees, pending
//! aggregate-voucher values and invalid-receipt fees across allocations,
//! decides when to request a new aggregate voucher, and decides when to deny
//! or re-allow the sender.  The whole decision core is a verified state
//! machine: a handler takes the current state, one inbound message and the
//! current time, mutates the state and returns the actions (spawn or stop an
//! allocation worker, trigger a voucher request, write the deny list,
//! schedule a retry) that a runtime must perform.

pub mod address;
pub mod account_model;
pub mod fee_model;
pub mod laws;
pub mod messages;
pub mod receipts;
pub mod sender_account;
pub mod sender_fee_tracker;
pub mod signers;
pub mod watchers;
