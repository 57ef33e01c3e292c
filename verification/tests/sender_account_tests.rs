//! Scenario tests for the sender supervisor, driven message by message.

use tap_agent::address::{Address, Balance};
use tap_agent::messages::{Action, ReceiptFees, SenderAccountConfig, SenderAccountMessage};
use tap_agent::receipts::{Rav, RavRequestError, UnaggregatedReceipts};
use tap_agent::sender_account::{SenderAccount, SenderAccountArgs};

const TRIGGER_VALUE: u128 = 500;
const ESCROW_VALUE: u128 = 1000;
const BUFFER_MS: u64 = 100;
const RECEIPT_LIMIT: u64 = 10000;
const RETRY_MS: u64 = 30;

fn sender() -> Address {
    Address::from_u64(9000)
}

fn allocation_0() -> Address {
    Address::from_u64(1)
}

fn allocation_1() -> Address {
    Address::from_u64(2)
}

fn config(trigger_value: u128, max_fees: u128, receipt_limit: u64) -> SenderAccountConfig {
    SenderAccountConfig {
        rav_request_trigger_value: trigger_value,
        rav_request_receipt_limit: receipt_limit,
        rav_request_timestamp_buffer_ms: BUFFER_MS,
        rav_request_timeout_secs: 5,
        max_unaggregated_fees_per_sender: max_fees,
        retry_interval_ms: RETRY_MS,
    }
}

fn create_sender_account(
    trigger_value: u128,
    max_fees: u128,
    receipt_limit: u64,
) -> SenderAccount {
    let args = SenderAccountArgs {
        sender_id: sender(),
        allocation_ids: Vec::new(),
        denied: false,
        sender_balance: Balance::from_u128(ESCROW_VALUE),
        config: config(trigger_value, max_fees, receipt_limit),
    };
    let (account, actions) = SenderAccount::new(args);
    assert!(actions.is_empty());
    account
}

fn new_receipt(allocation: Address, value: u128) -> SenderAccountMessage {
    SenderAccountMessage::UpdateReceiptFees(allocation, ReceiptFees::NewReceipt(value))
}

fn update_value(allocation: Address, value: u128) -> SenderAccountMessage {
    SenderAccountMessage::UpdateReceiptFees(
        allocation,
        ReceiptFees::UpdateValue(UnaggregatedReceipts { value, last_id: 11, counter: 0 }),
    )
}

fn retry(allocation: Address) -> SenderAccountMessage {
    SenderAccountMessage::UpdateReceiptFees(allocation, ReceiptFees::Retry)
}

fn rav_ok(allocation: Address, remaining: u128, rav_value: u128) -> SenderAccountMessage {
    SenderAccountMessage::UpdateReceiptFees(
        allocation,
        ReceiptFees::RavRequestResponse(Ok((
            UnaggregatedReceipts { value: remaining, last_id: 0, counter: 0 },
            Some(Rav {
                allocation_id: allocation,
                timestamp_ns: 4,
                value_aggregate: rav_value,
            }),
        ))),
    )
}

fn has_trigger(actions: &[Action], allocation: Address) -> bool {
    actions.contains(&Action::TriggerRavRequest(allocation))
}

#[test]
fn test_update_allocation_ids() {
    let mut account = create_sender_account(TRIGGER_VALUE, TRIGGER_VALUE, RECEIPT_LIMIT);
    let a0 = allocation_0();

    let actions = account.handle(SenderAccountMessage::UpdateAllocationIds(vec![a0]), 0);
    assert!(actions.contains(&Action::SpawnAllocation(a0)));
    assert_eq!(account.get_allocation_ids().as_slice(), &[a0]);

    let actions = account.handle(SenderAccountMessage::UpdateAllocationIds(Vec::new()), 10);
    assert!(actions.contains(&Action::StopAllocation(a0)));
    assert!(account.get_allocation_ids().is_empty());

    // The worker stops after its last voucher; the supervision event
    // reconciles the fees to zero through the returned action.
    let actions = account.handle_child_terminated(a0);
    assert_eq!(actions, vec![Action::ResetAllocationFees(a0)]);
}

#[test]
fn test_new_allocation_id() {
    let mut account = create_sender_account(TRIGGER_VALUE, TRIGGER_VALUE, RECEIPT_LIMIT);
    let a0 = allocation_0();

    let actions = account.handle(SenderAccountMessage::NewAllocationId(a0), 0);
    assert!(actions.contains(&Action::SpawnAllocation(a0)));

    // Nothing should change: the allocation is already open.
    let actions = account.handle(SenderAccountMessage::UpdateAllocationIds(vec![a0]), 5);
    assert!(actions.is_empty());

    let actions = account.handle(SenderAccountMessage::UpdateAllocationIds(Vec::new()), 10);
    assert!(actions.contains(&Action::StopAllocation(a0)));
    assert!(account.get_allocation_ids().is_empty());
}

#[test]
fn test_update_receipt_fees_no_rav() {
    let mut account = create_sender_account(TRIGGER_VALUE, TRIGGER_VALUE, RECEIPT_LIMIT);
    let a0 = allocation_0();
    account.handle(SenderAccountMessage::NewAllocationId(a0), 0);

    let actions = account.handle(new_receipt(a0, TRIGGER_VALUE - 1), 0);
    assert!(!has_trigger(&actions, a0));

    // Even well past the buffer the total stays below the trigger value.
    let actions = account.handle(retry(a0), 3 * BUFFER_MS);
    assert!(!has_trigger(&actions, a0));
    assert_eq!(
        account.get_sender_fee_tracker().get_fee_for_allocation(a0),
        TRIGGER_VALUE - 1
    );
    assert!(!account.get_deny());
}

#[test]
fn test_update_receipt_fees_trigger_rav() {
    let mut account = create_sender_account(TRIGGER_VALUE, u128::MAX, RECEIPT_LIMIT);
    let a0 = allocation_0();
    account.handle(SenderAccountMessage::NewAllocationId(a0), 0);

    // At arrival the receipt still lies inside the timestamp buffer.
    let actions = account.handle(new_receipt(a0, TRIGGER_VALUE), 0);
    assert!(!has_trigger(&actions, a0));

    // Once the buffer has drained, the value trigger fires.
    let actions = account.handle(retry(a0), BUFFER_MS + 1);
    assert!(has_trigger(&actions, a0));
    assert!(account
        .get_sender_fee_tracker()
        .check_allocation_has_rav_request_running(a0));

    // The response clears the fees into the pending-voucher tracker.
    let actions = account.handle(rav_ok(a0, 0, TRIGGER_VALUE), BUFFER_MS + 2);
    assert!(!has_trigger(&actions, a0));
    assert_eq!(account.get_sender_fee_tracker().get_fee_for_allocation(a0), 0);
    assert_eq!(
        account.get_rav_tracker().get_fee_for_allocation(a0),
        TRIGGER_VALUE
    );
    assert!(!account
        .get_sender_fee_tracker()
        .check_allocation_has_rav_request_running(a0));
}

#[test]
fn test_counter_greater_limit_trigger_rav() {
    let mut account = create_sender_account(TRIGGER_VALUE, TRIGGER_VALUE, 2);
    let a0 = allocation_0();
    account.handle(SenderAccountMessage::NewAllocationId(a0), 0);

    let actions = account.handle(new_receipt(a0, 1), 0);
    assert!(!has_trigger(&actions, a0));
    let actions = account.handle(new_receipt(a0, 1), 0);
    assert!(!has_trigger(&actions, a0));

    // Past the buffer, two receipts reach the limit of two.
    let actions = account.handle(retry(a0), BUFFER_MS + 1);
    assert!(has_trigger(&actions, a0));
}

#[test]
fn test_create_with_initial_allocations() {
    let a0 = allocation_0();
    let a1 = allocation_1();
    let args = SenderAccountArgs {
        sender_id: sender(),
        allocation_ids: vec![a0, a1],
        denied: false,
        sender_balance: Balance::from_u128(ESCROW_VALUE),
        config: config(TRIGGER_VALUE, TRIGGER_VALUE, RECEIPT_LIMIT),
    };
    let (account, actions) = SenderAccount::new(args);
    assert_eq!(
        actions,
        vec![Action::SpawnAllocation(a0), Action::SpawnAllocation(a1)]
    );
    assert_eq!(account.get_allocation_ids().as_slice(), &[a0, a1]);
}

#[test]
fn test_init_deny() {
    // The deny status is loaded from the store at start-up and kept.
    let args = SenderAccountArgs {
        sender_id: sender(),
        allocation_ids: Vec::new(),
        denied: true,
        sender_balance: Balance::from_u128(ESCROW_VALUE),
        config: config(TRIGGER_VALUE, TRIGGER_VALUE, RECEIPT_LIMIT),
    };
    let (account, _actions) = SenderAccount::new(args);
    assert!(account.get_deny());
}

#[test]
fn test_retry_unaggregated_fees() {
    // A cap of zero blocks the sender whatever the fee.
    let mut account = create_sender_account(TRIGGER_VALUE, 0, RECEIPT_LIMIT);
    let a0 = allocation_0();
    account.handle(SenderAccountMessage::NewAllocationId(a0), 0);

    let actions = account.handle(new_receipt(a0, TRIGGER_VALUE), 0);
    assert!(actions.contains(&Action::AddToDenyList));
    assert!(actions.contains(&Action::ScheduleRetry(a0)));
    assert!(account.get_deny());
    assert!(account.is_scheduler_enabled());

    // Each retry re-arms the timer while the condition holds, and once the
    // buffer has drained it also re-drives the voucher trigger.
    let actions = account.handle(retry(a0), BUFFER_MS + 1);
    assert!(actions.contains(&Action::CancelRetry));
    assert!(has_trigger(&actions, a0));
    assert!(actions.contains(&Action::ScheduleRetry(a0)));
    assert!(account.is_scheduler_enabled());
}

#[test]
fn test_deny_allow() {
    let max: u128 = 1000;
    // Make sure no voucher request is triggered during the test.
    let mut account = create_sender_account(u128::MAX, max, RECEIPT_LIMIT);
    let a0 = allocation_0();

    account.handle(update_value(a0, max - 1), 0);
    assert!(!account.get_deny());

    account.handle(update_value(a0, max), 1);
    assert!(account.get_deny());

    account.handle(update_value(a0, max - 1), 2);
    assert!(!account.get_deny());

    account.handle(update_value(a0, max + 1), 3);
    assert!(account.get_deny());

    account.handle(update_value(a0, max - 1), 4);
    assert!(!account.get_deny());

    account.handle(update_value(a0, 0), 5);

    let invalid = |value: u128| {
        SenderAccountMessage::UpdateInvalidReceiptFees(
            a0,
            UnaggregatedReceipts { value, last_id: 11, counter: 0 },
        )
    };

    let mut account2 = create_sender_account(u128::MAX, max, RECEIPT_LIMIT);
    account2.handle(invalid(max - 1), 6);
    assert!(!account2.get_deny());

    account2.handle(invalid(max), 7);
    assert!(account2.get_deny());

    // Invalid receipts should not go down; the handler never re-allows on
    // its own account.
    account2.handle(invalid(0), 8);
    assert!(account2.get_deny());

    // The next fee reconciliation re-evaluates the condition and allows.
    account2.handle(update_value(a0, 0), 9);
    assert!(!account2.get_deny());
}

#[test]
fn test_initialization_with_pending_ravs_over_the_limit() {
    let mut account = create_sender_account(TRIGGER_VALUE, u128::MAX, RECEIPT_LIMIT);
    let a0 = allocation_0();

    // The escrow watcher reports the stored last, non-final voucher at
    // start-up: the full escrow is already claimed.
    let actions = account.handle(
        SenderAccountMessage::UpdateBalanceAndLastRavs(
            Balance::from_u128(ESCROW_VALUE),
            vec![(a0, ESCROW_VALUE)],
        ),
        0,
    );
    assert!(actions.contains(&Action::AddToDenyList));
    assert!(account.get_deny());
}

#[test]
fn test_unaggregated_fees_over_balance() {
    let half: u128 = ESCROW_VALUE / 2;
    let trigger: u128 = ESCROW_VALUE * 2;
    let mut account = create_sender_account(trigger, u128::MAX, RECEIPT_LIMIT);
    let a0 = allocation_0();
    account.handle(SenderAccountMessage::NewAllocationId(a0), 0);
    account.handle(
        SenderAccountMessage::UpdateBalanceAndLastRavs(
            Balance::from_u128(ESCROW_VALUE),
            vec![(a0, half)],
        ),
        0,
    );
    assert!(!account.get_deny());

    account.handle(update_value(a0, half), 1);
    assert!(account.get_deny());

    account.handle(update_value(a0, half - 1), 2);
    assert!(!account.get_deny());

    account.handle(update_value(a0, half + 1), 3);
    assert!(account.get_deny());

    account.handle(update_value(a0, half + 2), 4);
    assert!(account.get_deny());

    // The voucher response moves the whole value into the pending tracker:
    // the sender stays denied, because nothing was redeemed yet.
    account.handle(update_value(a0, trigger), 5);
    account.handle(rav_ok(a0, 0, trigger), 6);
    account.handle(update_value(a0, 0), 7);
    assert!(account.get_deny());
}

#[test]
fn test_pending_rav_already_redeemed_and_redeem() {
    let a0 = allocation_0();
    let a1 = allocation_1();
    let mut account = create_sender_account(TRIGGER_VALUE, u128::MAX, RECEIPT_LIMIT);

    // One of the two stored vouchers was already redeemed on chain: only
    // the other one still counts against the escrow.
    let stored = vec![(a0, ESCROW_VALUE), (a1, ESCROW_VALUE - 1)];
    let pending = tap_agent::watchers::non_redeemed_ravs(&stored, &vec![a0]);
    assert_eq!(pending, vec![(a1, ESCROW_VALUE - 1)]);
    account.handle(
        SenderAccountMessage::UpdateBalanceAndLastRavs(
            Balance::from_u128(ESCROW_VALUE),
            pending,
        ),
        0,
    );
    assert!(!account.get_deny());

    // Later both are redeemed, and the balance drops to one token unit:
    // with no pending voucher left the sender stays allowed.
    let pending = tap_agent::watchers::non_redeemed_ravs(&stored, &vec![a0, a1]);
    assert!(pending.is_empty());
    account.handle(
        SenderAccountMessage::UpdateBalanceAndLastRavs(Balance::from_u128(1), pending),
        1,
    );
    assert!(!account.get_deny());
}

#[test]
fn test_thawing_deposit_process() {
    let mut account = create_sender_account(TRIGGER_VALUE, u128::MAX, RECEIPT_LIMIT);
    let a0 = allocation_0();

    account.handle(
        SenderAccountMessage::UpdateBalanceAndLastRavs(
            Balance::from_u128(ESCROW_VALUE),
            vec![(a0, ESCROW_VALUE / 2)],
        ),
        0,
    );
    assert!(!account.get_deny());

    // The sender thaws half of its deposit: the escrow no longer covers the
    // pending voucher.
    account.handle(
        SenderAccountMessage::UpdateBalanceAndLastRavs(
            Balance::from_u128(ESCROW_VALUE / 2),
            vec![(a0, ESCROW_VALUE / 2)],
        ),
        1,
    );
    assert!(account.get_deny());

    // A fresh deposit restores the cover within one message round.
    let actions = account.handle(
        SenderAccountMessage::UpdateBalanceAndLastRavs(
            Balance::from_u128(ESCROW_VALUE),
            vec![(a0, ESCROW_VALUE / 2)],
        ),
        2,
    );
    assert!(actions.contains(&Action::RemoveFromDenyList));
    assert!(!account.get_deny());
}

#[test]
fn test_sender_denied_close_allocation_stop_retry() {
    // A cap of one blocks the sender on a really low value.
    let mut account = create_sender_account(TRIGGER_VALUE, 1, RECEIPT_LIMIT);
    let a0 = allocation_0();
    account.handle(SenderAccountMessage::NewAllocationId(a0), 0);

    account.handle(new_receipt(a0, TRIGGER_VALUE), 0);
    assert!(account.get_deny());
    assert!(account.is_scheduler_enabled());

    // Close the allocation: the worker performs its last voucher and stops;
    // the supervision event feeds the reconciling zero back in.
    let actions = account.handle(SenderAccountMessage::UpdateAllocationIds(Vec::new()), 10);
    assert!(actions.contains(&Action::StopAllocation(a0)));
    let actions = account.handle_child_terminated(a0);
    assert_eq!(actions, vec![Action::ResetAllocationFees(a0)]);

    let actions = account.handle(update_value(a0, 0), 20);
    assert!(actions.contains(&Action::RemoveFromDenyList));
    assert!(!account.get_deny());
    assert!(!account.is_scheduler_enabled());
}

#[test]
fn test_denied_flag_tracks_condition() {
    let mut account = create_sender_account(u128::MAX, 1000, RECEIPT_LIMIT);
    let a0 = allocation_0();
    account.handle(SenderAccountMessage::NewAllocationId(a0), 0);
    let messages: Vec<(SenderAccountMessage, u64)> = vec![
        (update_value(a0, 999), 1),
        (update_value(a0, 1000), 2),
        (new_receipt(a0, 5), 3),
        (
            SenderAccountMessage::UpdateBalanceAndLastRavs(Balance::from_u128(4000), Vec::new()),
            4,
        ),
        (update_value(a0, 0), 5),
    ];
    for (message, now) in messages {
        account.handle(message, now);
        assert_eq!(account.get_deny(), account.deny_condition_reached());
    }
}

#[test]
fn test_single_rav_request_per_allocation() {
    let mut account = create_sender_account(TRIGGER_VALUE, u128::MAX, RECEIPT_LIMIT);
    let a0 = allocation_0();
    account.handle(SenderAccountMessage::NewAllocationId(a0), 0);
    account.handle(new_receipt(a0, TRIGGER_VALUE), 0);

    let actions = account.handle(retry(a0), BUFFER_MS + 1);
    assert!(has_trigger(&actions, a0));

    // While the request is outstanding, no second one is triggered for the
    // same allocation.
    let actions = account.handle(retry(a0), BUFFER_MS + 2);
    assert!(!has_trigger(&actions, a0));

    // After the response, fresh receipts can trigger again.
    account.handle(rav_ok(a0, 0, TRIGGER_VALUE), BUFFER_MS + 3);
    account.handle(new_receipt(a0, TRIGGER_VALUE), BUFFER_MS + 4);
    let actions = account.handle(retry(a0), 3 * BUFFER_MS);
    assert!(has_trigger(&actions, a0));
}

#[test]
fn test_failed_rav_request_backs_off() {
    let mut account = create_sender_account(TRIGGER_VALUE, u128::MAX, RECEIPT_LIMIT);
    let a0 = allocation_0();
    account.handle(SenderAccountMessage::NewAllocationId(a0), 0);
    account.handle(new_receipt(a0, TRIGGER_VALUE), 0);
    let actions = account.handle(retry(a0), BUFFER_MS + 1);
    assert!(has_trigger(&actions, a0));

    // The request fails: the allocation backs off for the retry interval.
    let failure = SenderAccountMessage::UpdateReceiptFees(
        a0,
        ReceiptFees::RavRequestResponse(Err(RavRequestError::new())),
    );
    let actions = account.handle(failure, BUFFER_MS + 2);
    assert!(!has_trigger(&actions, a0));
    let actions = account.handle(retry(a0), BUFFER_MS + 3);
    assert!(!has_trigger(&actions, a0));

    // Once the backoff has passed, the trigger fires again.
    let actions = account.handle(retry(a0), BUFFER_MS + 2 + RETRY_MS + 1);
    assert!(has_trigger(&actions, a0));
}

#[test]
fn test_children_follow_allocations() {
    let mut account = create_sender_account(TRIGGER_VALUE, TRIGGER_VALUE, RECEIPT_LIMIT);
    let a0 = allocation_0();

    // Opening spawns exactly one worker; re-opening spawns none.
    let actions = account.handle(SenderAccountMessage::UpdateAllocationIds(vec![a0]), 0);
    assert_eq!(actions, vec![Action::SpawnAllocation(a0)]);
    let actions = account.handle(SenderAccountMessage::NewAllocationId(a0), 1);
    assert!(actions.is_empty());

    // Closing stops the worker but keeps it alive (blocked) until the
    // termination event; only then may the allocation open afresh.
    let actions = account.handle(SenderAccountMessage::UpdateAllocationIds(Vec::new()), 2);
    assert_eq!(actions, vec![Action::StopAllocation(a0)]);
    account.handle_child_terminated(a0);
    let actions = account.handle(SenderAccountMessage::NewAllocationId(a0), 3);
    assert_eq!(actions, vec![Action::SpawnAllocation(a0)]);
}

#[test]
fn test_at_most_one_retry_scheduled() {
    let mut account = create_sender_account(TRIGGER_VALUE, 0, RECEIPT_LIMIT);
    let a0 = allocation_0();
    let actions = account.handle(new_receipt(a0, 10), 0);
    let schedules = actions
        .iter()
        .filter(|a| matches!(a, Action::ScheduleRetry(_)))
        .count();
    assert_eq!(schedules, 1);

    // A later report first cancels the pending timer, then re-arms at most
    // one new timer.
    let actions = account.handle(retry(a0), 1);
    assert_eq!(actions[0], Action::CancelRetry);
    let schedules = actions
        .iter()
        .filter(|a| matches!(a, Action::ScheduleRetry(_)))
        .count();
    assert_eq!(schedules, 1);
    assert!(account.is_scheduler_enabled());
}

#[test]
fn test_update_allocation_ids_idempotent() {
    let mut account = create_sender_account(TRIGGER_VALUE, TRIGGER_VALUE, RECEIPT_LIMIT);
    let a0 = allocation_0();
    let a1 = allocation_1();

    let first = account.handle(SenderAccountMessage::UpdateAllocationIds(vec![a0, a1]), 0);
    assert_eq!(
        first,
        vec![Action::SpawnAllocation(a0), Action::SpawnAllocation(a1)]
    );
    let second = account.handle(SenderAccountMessage::UpdateAllocationIds(vec![a0, a1]), 1);
    assert!(second.is_empty());
    assert_eq!(account.get_allocation_ids().as_slice(), &[a0, a1]);
}

#[test]
fn test_new_then_update_equivalent_to_update() {
    let a0 = allocation_0();

    let mut left = create_sender_account(TRIGGER_VALUE, TRIGGER_VALUE, RECEIPT_LIMIT);
    let mut left_actions = left.handle(SenderAccountMessage::NewAllocationId(a0), 0);
    left_actions.extend(left.handle(SenderAccountMessage::UpdateAllocationIds(vec![a0]), 1));

    let mut right = create_sender_account(TRIGGER_VALUE, TRIGGER_VALUE, RECEIPT_LIMIT);
    let right_actions = right.handle(SenderAccountMessage::UpdateAllocationIds(vec![a0]), 1);

    assert_eq!(left_actions, right_actions);
    assert_eq!(left.get_allocation_ids(), right.get_allocation_ids());
    assert_eq!(left.get_deny(), right.get_deny());
}
