//! Tests for the fee tracker, the identifier arithmetic and the signer
//! reconciliation.

use tap_agent::address::{Address, Balance, available_escrow, fee_sum_reaches_balance,
    fee_sum_reaches_cap};
use tap_agent::messages::{SenderAccountConfig, SenderAccountMessage};
use tap_agent::receipts::UnaggregatedReceipts;
use tap_agent::sender_account::{SenderAccount, SenderAccountArgs};
use tap_agent::sender_fee_tracker::SenderFeeTracker;
use tap_agent::signers::signer_update_plan;

const BUFFER_MS: u64 = 100;

fn addr(v: u64) -> Address {
    Address::from_u64(v)
}

#[test]
fn test_add_and_totals() {
    let mut tracker = SenderFeeTracker::new(BUFFER_MS);
    tracker.add(addr(1), 10, 1000);
    tracker.add(addr(1), 20, 1000);
    tracker.add(addr(2), 5, 1000);
    assert_eq!(tracker.get_total_fee(), 35);
    assert_eq!(tracker.get_fee_for_allocation(addr(1)), 30);
    assert_eq!(tracker.get_counter_for_allocation(addr(1)), 2);
    assert_eq!(tracker.get_fee_for_allocation(addr(3)), 0);
}

#[test]
fn test_buffer_excludes_recent_receipts() {
    let mut tracker = SenderFeeTracker::new(BUFFER_MS);
    tracker.add(addr(1), 10, 1000);
    // Inside the buffer the receipt counts towards nothing.
    assert_eq!(tracker.get_total_fee_outside_buffer(1000), 0);
    assert_eq!(
        tracker.get_total_counter_outside_buffer_for_allocation(addr(1), 1000),
        0
    );
    // The unconditional total always sees it.
    assert_eq!(tracker.get_total_fee(), 10);
    // Once the buffer has drained, the trigger totals see it too.
    assert_eq!(tracker.get_total_fee_outside_buffer(1000 + BUFFER_MS), 10);
    assert_eq!(
        tracker.get_total_counter_outside_buffer_for_allocation(addr(1), 1000 + BUFFER_MS),
        1
    );
}

#[test]
fn test_update_counts_as_outside_buffer() {
    let mut tracker = SenderFeeTracker::new(BUFFER_MS);
    tracker.update(addr(1), 40, 3);
    assert_eq!(tracker.get_total_fee_outside_buffer(0), 40);
    assert_eq!(
        tracker.get_total_counter_outside_buffer_for_allocation(addr(1), 0),
        3
    );
}

#[test]
fn test_heaviest_allocation_and_tie_break() {
    let mut tracker = SenderFeeTracker::new(BUFFER_MS);
    let now: u64 = 10_000;
    tracker.add(addr(5), 30, 0);
    tracker.add(addr(2), 50, 0);
    tracker.add(addr(9), 50, 0);
    // Ties are broken towards the smaller identifier.
    assert_eq!(tracker.get_heaviest_allocation_id(now), Some(addr(2)));

    // An outstanding request excludes the allocation.
    tracker.start_rav_request(addr(2));
    assert_eq!(tracker.get_heaviest_allocation_id(now), Some(addr(9)));

    // A closing allocation is excluded too.
    tracker.block_allocation_id(addr(9));
    assert_eq!(tracker.get_heaviest_allocation_id(now), Some(addr(5)));

    // Backoff excludes until the deadline passes.
    tracker.failed_rav_backoff(addr(5), 500, now);
    assert_eq!(tracker.get_heaviest_allocation_id(now), None);
    assert_eq!(tracker.get_heaviest_allocation_id(now + 501), Some(addr(5)));

    // Unblocking and finishing bring the others back.
    tracker.unblock_allocation_id(addr(9));
    tracker.finish_rav_request(addr(2));
    assert_eq!(tracker.get_heaviest_allocation_id(now), Some(addr(2)));
}

#[test]
fn test_in_flight_excluded_from_trigger_total() {
    let mut tracker = SenderFeeTracker::new(BUFFER_MS);
    let now: u64 = 10_000;
    tracker.add(addr(1), 30, 0);
    tracker.add(addr(2), 20, 0);
    assert_eq!(tracker.get_total_fee_outside_buffer(now), 50);
    tracker.start_rav_request(addr(1));
    assert_eq!(tracker.get_total_fee_outside_buffer(now), 20);
    // The unconditional total is unaffected.
    assert_eq!(tracker.get_total_fee(), 50);
    tracker.finish_rav_request(addr(1));
    assert_eq!(tracker.get_total_fee_outside_buffer(now), 50);
}

#[test]
fn test_fee_sum_against_cap_and_balance() {
    // The cap trips at equality.
    assert!(fee_sum_reaches_cap(600, 400, 1000));
    assert!(!fee_sum_reaches_cap(600, 399, 1000));
    assert!(fee_sum_reaches_cap(u128::MAX, 1, u128::MAX));

    // The balance guard trips at equality too, over the full 256-bit range.
    let balance = Balance::from_u128(1000);
    assert!(fee_sum_reaches_balance(500, 500, &balance));
    assert!(!fee_sum_reaches_balance(500, 499, &balance));

    // A balance above 2^128 is out of reach of two 128-bit fees only when
    // it exceeds their largest possible sum.
    let big = Balance::new(1, 5);
    assert!(!fee_sum_reaches_balance(u128::MAX, 4, &big));
    assert!(fee_sum_reaches_balance(u128::MAX, 6, &big));
    let huge = Balance::new(2, 0);
    assert!(!fee_sum_reaches_balance(u128::MAX, u128::MAX, &huge));
}

#[test]
fn test_available_escrow() {
    let balance = Balance::from_u128(1000);
    assert_eq!(available_escrow(&balance, 300).lo, 700);
    assert_eq!(available_escrow(&balance, 1000).lo, 0);
    // Pending value above the balance leaves nothing, never underflows.
    assert_eq!(available_escrow(&balance, 2000).lo, 0);
    // Borrow across the 128-bit halves.
    let tall = Balance::new(1, 0);
    let rest = available_escrow(&tall, 1);
    assert_eq!(rest.hi, 0);
    assert_eq!(rest.lo, u128::MAX);
}

#[test]
fn test_address_order_matches_numeric_order() {
    let small = Address::new(0, 7);
    let large = Address::new(1, 0);
    assert!(small.lt(&large));
    assert!(!large.lt(&small));
    assert!(!small.lt(&small));
}

#[test]
fn test_signer_update_plan() {
    let a0 = addr(1);
    let a1 = addr(2);
    let a2 = addr(3);

    // An empty set of allocations leads to an empty set of signers.
    let (keep, create) = signer_update_plan(&vec![a0, a1], &Vec::new());
    assert!(keep.is_empty());
    assert!(create.is_empty());

    // A fresh set of allocations gets a signer for each of them, while
    // signers for departed allocations are dropped.
    let (keep, create) = signer_update_plan(&vec![a0, a1], &vec![a1, a2]);
    assert_eq!(keep, vec![a1]);
    assert_eq!(create, vec![a2]);

    // A second reconciliation with the same allocations changes nothing.
    let mut signers = keep;
    signers.extend(create);
    let (keep, create) = signer_update_plan(&signers, &vec![a1, a2]);
    assert_eq!(keep, signers);
    assert!(create.is_empty());
}

#[test]
fn test_invalid_receipts_monotone_by_reports() {
    let args = SenderAccountArgs {
        sender_id: addr(99),
        allocation_ids: Vec::new(),
        denied: false,
        sender_balance: Balance::from_u128(u128::MAX),
        config: SenderAccountConfig {
            rav_request_trigger_value: u128::MAX,
            rav_request_receipt_limit: 10000,
            rav_request_timestamp_buffer_ms: BUFFER_MS,
            rav_request_timeout_secs: 5,
            max_unaggregated_fees_per_sender: u128::MAX,
            retry_interval_ms: 30,
        },
    };
    let (mut account, _) = SenderAccount::new(args);
    let mut last: u128 = 0;
    let reports: Vec<u128> = vec![10, 10, 25, 300];
    let mut now: u64 = 0;
    for value in reports {
        account.handle(
            SenderAccountMessage::UpdateInvalidReceiptFees(
                addr(1),
                UnaggregatedReceipts { value, last_id: 0, counter: 0 },
            ),
            now,
        );
        let current = account
            .get_invalid_receipts_tracker()
            .get_fee_for_allocation(addr(1));
        assert!(current >= last);
        last = current;
        now += 1;
    }
    assert_eq!(last, 300);
}
