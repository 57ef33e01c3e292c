//! Mathematical model of the sender supervisor.
//!
//! `step` maps a supervisor state, one event and the clock to the successor
//! state and the actions handed to the runtime.  The executable supervisor
//! refines `step` exactly, so every property of the supervisor can be stated
//! and proved over this model.

use vstd::prelude::*;
use crate::address::{Address, Balance};
use crate::fee_model::{
    TrackerModel, counter_of, counter_outside_of, heaviest_of, in_flight_of, spec_add,
    spec_block, spec_failed_backoff, spec_finish_rav, spec_ok_rav, spec_start_rav, spec_unblock,
    spec_update, total_of, total_outside_of, tracker_wf, value_of,
};
use crate::messages::{Action, ReceiptFees, SenderAccountConfig};
use crate::receipts::{Rav, UnaggregatedReceipts};

verus! {

/// Model of one inbound message.
pub enum MessageModel {
    UpdateBalanceAndLastRavs(Balance, Seq<(Address, u128)>),
    UpdateAllocationIds(Seq<Address>),
    NewAllocationId(Address),
    UpdateReceiptFees(Address, ReceiptFees),
    UpdateInvalidReceiptFees(Address, UnaggregatedReceipts),
    UpdateRav(Rav),
}

/// Everything the supervisor reacts to: a message, or the supervision event
/// that one of its allocation workers ended.
pub enum EventModel {
    Message(MessageModel),
    /// A worker stopped in an orderly way.
    ChildTerminated(Address),
    /// A worker crashed.
    ChildPanicked(Address),
}

/// Model of the supervisor state.
#[verifier::ext_equal]
pub struct AccountModel {
    pub sender: Address,
    pub config: SenderAccountConfig,
    /// Unaggregated receipt fees per allocation.
    pub sender_fees: TrackerModel,
    /// Value already claimed by signed but unredeemed vouchers.
    pub ravs: TrackerModel,
    /// Cumulative value of invalid receipts.
    pub invalid: TrackerModel,
    /// The open allocations.
    pub allocation_ids: Seq<Address>,
    /// The allocations with a live worker.
    pub children: Seq<Address>,
    /// Whether the sender is currently denied service.
    pub denied: bool,
    /// The sender's escrow balance.
    pub balance: Balance,
    /// Whether a retry timer is pending.
    pub retry_scheduled: bool,
}

/// A list of addresses without duplicates.
pub open spec fn distinct_addrs(s: Seq<Address>) -> bool {
    forall|i: int, j: int| 0 <= i < j < s.len() ==> #[trigger] s[i] != #[trigger] s[j]
}

/// Index of the first occurrence of `a`, or `-1`.
pub open spec fn find_addr(s: Seq<Address>, a: Address) -> int
    decreases s.len(),
{
    if s.len() == 0 {
        -1
    } else if s[0] == a {
        0
    } else {
        let r = find_addr(s.drop_first(), a);
        if r < 0 {
            -1
        } else {
            r + 1
        }
    }
}

/// Characterisation of `find_addr`.
pub proof fn lemma_find_addr(s: Seq<Address>, a: Address)
    ensures
        find_addr(s, a) == -1 ==> !s.contains(a),
        find_addr(s, a) != -1 ==> {
            &&& 0 <= find_addr(s, a) < s.len()
            &&& s[find_addr(s, a)] == a
            &&& forall|i: int| 0 <= i < find_addr(s, a) ==> s[i] != a
        },
    decreases s.len(),
{
    if s.len() != 0 && s[0] != a {
        lemma_find_addr(s.drop_first(), a);
        if find_addr(s, a) == -1 {
            if s.contains(a) {
                let i = choose|i: int| 0 <= i < s.len() && s[i] == a;
                assert(s.drop_first()[i - 1] == s[i]);
                assert(s.drop_first().contains(a));
            }
        } else {
            assert forall|i: int| 0 <= i < find_addr(s, a) implies s[i] != a by {
                if i > 0 {
                    assert(s.drop_first()[i - 1] == s[i]);
                }
            }
            assert(s.drop_first()[find_addr(s.drop_first(), a)] == s[find_addr(s, a)]);
        }
    }
}

/// `s` with the first occurrence of `a` removed, or `s` when there is none.
pub open spec fn remove_addr(s: Seq<Address>, a: Address) -> Seq<Address> {
    if find_addr(s, a) >= 0 {
        s.remove(find_addr(s, a))
    } else {
        s
    }
}

/// `s` with `a` appended unless already present.
pub open spec fn push_if_absent(s: Seq<Address>, a: Address) -> Seq<Address> {
    if s.contains(a) {
        s
    } else {
        s.push(a)
    }
}

/// Whether `a` occurs among the keys of `(allocation, value)` pairs.
pub open spec fn rav_keys_contain(ravs: Seq<(Address, u128)>, a: Address) -> bool {
    exists|i: int| 0 <= i < ravs.len() && #[trigger] ravs[i].0 == a
}

/// The voucher keys are duplicate-free.
pub open spec fn distinct_rav_keys(ravs: Seq<(Address, u128)>) -> bool {
    forall|i: int, j: int| 0 <= i < j < ravs.len() ==> #[trigger] ravs[i].0 != #[trigger] ravs[j].0
}

/// Sum of the values of `(allocation, value)` pairs.
pub open spec fn sum_rav_values(ravs: Seq<(Address, u128)>) -> int
    decreases ravs.len(),
{
    if ravs.len() == 0 {
        0
    } else {
        sum_rav_values(ravs.drop_last()) + ravs.last().1
    }
}

/// Removing an address keeps a duplicate-free list duplicate-free and
/// removes the address for good.
pub proof fn lemma_remove_addr(s: Seq<Address>, a: Address)
    requires
        distinct_addrs(s),
    ensures
        distinct_addrs(remove_addr(s, a)),
        !remove_addr(s, a).contains(a),
        forall|b: Address| b != a ==> remove_addr(s, a).contains(b) == s.contains(b),
        s.contains(a) ==> remove_addr(s, a).len() == s.len() - 1,
        !s.contains(a) ==> remove_addr(s, a) == s,
{
    lemma_find_addr(s, a);
    let f = find_addr(s, a);
    if f >= 0 {
        let r = s.remove(f);
        assert(forall|i: int| 0 <= i < f ==> r[i] == s[i]);
        assert(forall|i: int| f <= i < r.len() ==> r[i] == s[i + 1]);
        assert(s.contains(a));
        if r.contains(a) {
            let i = choose|i: int| 0 <= i < r.len() && r[i] == a;
            if i < f {
                assert(s[i] == a);
            } else {
                assert(s[i + 1] == a);
            }
        }
        assert forall|b: Address| b != a implies r.contains(b) == s.contains(b) by {
            if r.contains(b) {
                let i = choose|i: int| 0 <= i < r.len() && r[i] == b;
                if i < f {
                    assert(s[i] == b);
                } else {
                    assert(s[i + 1] == b);
                }
            }
            if s.contains(b) {
                let i = choose|i: int| 0 <= i < s.len() && s[i] == b;
                if i < f {
                    assert(r[i] == b);
                } else {
                    assert(i != f);
                    assert(r[i - 1] == b);
                }
            }
        }
    } else {
        if s.contains(a) {
            let i = choose|i: int| 0 <= i < s.len() && s[i] == a;
        }
    }
}

/// Appending an absent address keeps a duplicate-free list duplicate-free.
pub proof fn lemma_push_if_absent(s: Seq<Address>, a: Address)
    requires
        distinct_addrs(s),
    ensures
        distinct_addrs(push_if_absent(s, a)),
        push_if_absent(s, a).contains(a),
        forall|b: Address| b != a ==> push_if_absent(s, a).contains(b) == s.contains(b),
{
    if !s.contains(a) {
        let r = s.push(a);
        assert(r[s.len() as int] == a);
        assert forall|b: Address| b != a implies r.contains(b) == s.contains(b) by {
            if r.contains(b) {
                let i = choose|i: int| 0 <= i < r.len() && r[i] == b;
                assert(s[i] == b);
            }
            if s.contains(b) {
                let i = choose|i: int| 0 <= i < s.len() && s[i] == b;
                assert(r[i] == b);
            }
        }
    }
}

/// Prefix sums of voucher values are bounded by the whole sum.
pub proof fn lemma_sum_rav_prefix(ravs: Seq<(Address, u128)>, i: int)
    requires
        0 <= i <= ravs.len(),
    ensures
        0 <= sum_rav_values(ravs.take(i)) <= sum_rav_values(ravs),
    decreases ravs.len() - i,
{
    if i == ravs.len() {
        assert(ravs.take(i) =~= ravs);
        lemma_sum_rav_nonneg(ravs);
    } else {
        lemma_sum_rav_prefix(ravs, i + 1);
        assert(ravs.take(i + 1).drop_last() =~= ravs.take(i));
        assert(ravs.take(i + 1).last() == ravs[i]);
        assert(sum_rav_values(ravs.take(i + 1)) == sum_rav_values(ravs.take(i)) + ravs[i].1);
        lemma_sum_rav_nonneg(ravs.take(i));
    }
}

/// Voucher value sums are non-negative.
pub proof fn lemma_sum_rav_nonneg(ravs: Seq<(Address, u128)>)
    ensures
        sum_rav_values(ravs) >= 0,
    decreases ravs.len(),
{
    if ravs.len() != 0 {
        lemma_sum_rav_nonneg(ravs.drop_last());
    }
}

/// Well-formedness of a supervisor state.
pub open spec fn model_wf(s: AccountModel) -> bool {
    &&& tracker_wf(s.sender_fees)
    &&& tracker_wf(s.ravs)
    &&& tracker_wf(s.invalid)
    &&& distinct_addrs(s.allocation_ids)
    &&& distinct_addrs(s.children)
}

/// The deny condition: the sender is to be denied service when its
/// unaggregated plus invalid fees reach the configured cap, or when its
/// unaggregated plus pending voucher value reaches its escrow balance.
pub open spec fn deny_condition(s: AccountModel) -> bool {
    ||| total_of(s.sender_fees) + total_of(s.invalid)
        >= s.config.max_unaggregated_fees_per_sender
    ||| total_of(s.sender_fees) + total_of(s.ravs) >= s.balance.as_int()
}

/// What each event demands of the state it is applied to: machine bounds on
/// the fee sums, duplicate-free identifier lists, and supervision events only
/// for live workers.
pub open spec fn event_requires(s: AccountModel, ev: EventModel) -> bool {
    match ev {
        EventModel::Message(m) => match m {
            MessageModel::UpdateReceiptFees(a, fees) => match fees {
                ReceiptFees::NewReceipt(v) => {
                    &&& total_of(s.sender_fees) + v <= u128::MAX
                    &&& counter_of(s.sender_fees, a) < u64::MAX
                },
                ReceiptFees::UpdateValue(u) => total_of(s.sender_fees) - value_of(
                    s.sender_fees,
                    a,
                ) + u.value <= u128::MAX,
                ReceiptFees::RavRequestResponse(res) => match res {
                    Ok((u, rav)) => {
                        let rav_value = match rav {
                            Some(r) => r.value_aggregate,
                            None => 0,
                        };
                        &&& total_of(s.sender_fees) - value_of(s.sender_fees, a) + u.value
                            <= u128::MAX
                        &&& total_of(s.ravs) - value_of(s.ravs, a) + rav_value <= u128::MAX
                    },
                    Err(_) => true,
                },
                ReceiptFees::Retry => true,
            },
            MessageModel::UpdateInvalidReceiptFees(a, u) => total_of(s.invalid) - value_of(
                s.invalid,
                a,
            ) + u.value <= u128::MAX,
            MessageModel::UpdateRav(r) => total_of(s.ravs) - value_of(s.ravs, r.allocation_id)
                + r.value_aggregate <= u128::MAX,
            MessageModel::UpdateAllocationIds(ids) => distinct_addrs(ids),
            MessageModel::NewAllocationId(_) => true,
            MessageModel::UpdateBalanceAndLastRavs(_b, ravs) => {
                &&& distinct_rav_keys(ravs)
                &&& total_of(s.ravs) + sum_rav_values(ravs) <= u128::MAX
            },
        },
        EventModel::ChildTerminated(id) => s.children.contains(id),
        EventModel::ChildPanicked(id) => s.children.contains(id),
    }
}

/// Step 1 of `UpdateReceiptFees`: drop any pending retry timer.
pub open spec fn cancel_retry(s: AccountModel) -> (AccountModel, Seq<Action>) {
    if s.retry_scheduled {
        (AccountModel { retry_scheduled: false, ..s }, seq![Action::CancelRetry])
    } else {
        (s, Seq::empty())
    }
}

/// Step 2 of `UpdateReceiptFees`: apply the report itself.
pub open spec fn dispatch_receipt_fees(
    s: AccountModel,
    a: Address,
    fees: ReceiptFees,
    now: u64,
) -> (AccountModel, Seq<Action>) {
    match fees {
        ReceiptFees::NewReceipt(v) => {
            // A receipt while denied means the deny list was tampered with:
            // re-assert it.
            let acts: Seq<Action> = if s.denied {
                seq![Action::AddToDenyList]
            } else {
                Seq::empty()
            };
            (AccountModel { sender_fees: spec_add(s.sender_fees, a, v, now), ..s }, acts)
        },
        ReceiptFees::UpdateValue(u) => {
            (
                AccountModel { sender_fees: spec_update(s.sender_fees, a, u.value, u.counter), ..s },
                Seq::empty(),
            )
        },
        ReceiptFees::RavRequestResponse(res) => {
            let t1 = spec_finish_rav(s.sender_fees, a);
            match res {
                Ok((u, rav)) => {
                    let rav_value = match rav {
                        Some(r) => r.value_aggregate,
                        None => 0,
                    };
                    let t2 = spec_update(spec_ok_rav(t1, a), a, u.value, u.counter);
                    (
                        AccountModel {
                            sender_fees: t2,
                            ravs: spec_update(s.ravs, a, rav_value, 0),
                            ..s
                        },
                        Seq::empty(),
                    )
                },
                Err(_) => {
                    (
                        AccountModel {
                            sender_fees: spec_failed_backoff(t1, a, s.config.retry_interval_ms, now),
                            ..s
                        },
                        Seq::empty(),
                    )
                },
            }
        },
        ReceiptFees::Retry => (s, Seq::empty()),
    }
}

/// Eager deny: before any voucher request, deny the sender as soon as the
/// condition holds.
pub open spec fn eager_deny(s: AccountModel) -> (AccountModel, Seq<Action>) {
    if !s.denied && deny_condition(s) {
        (AccountModel { denied: true, ..s }, seq![Action::AddToDenyList])
    } else {
        (s, Seq::empty())
    }
}

/// The trigger decision: request a voucher for `a` itself when its receipt
/// count outside the buffer reaches the limit (and none is in flight for it),
/// else for the heaviest eligible allocation when the total outside the
/// buffer reaches the trigger value.  A chosen allocation without a live
/// worker is skipped.
pub open spec fn rav_trigger(s: AccountModel, a: Address, now: u64) -> (AccountModel, Seq<Action>) {
    let counter_trigger = counter_outside_of(s.sender_fees, a, now as int)
        >= s.config.rav_request_receipt_limit && !in_flight_of(s.sender_fees, a);
    let value_trigger = total_outside_of(s.sender_fees, now as int)
        >= s.config.rav_request_trigger_value;
    let target: Option<Address> = if counter_trigger {
        Some(a)
    } else if value_trigger {
        heaviest_of(s.sender_fees, now as int)
    } else {
        None
    };
    match target {
        Some(t) => {
            if s.children.contains(t) {
                (
                    AccountModel { sender_fees: spec_start_rav(s.sender_fees, t), ..s },
                    seq![Action::TriggerRavRequest(t)],
                )
            } else {
                (s, Seq::empty())
            }
        },
        None => (s, Seq::empty()),
    }
}

/// The closing check of `UpdateReceiptFees`: allow the sender again once the
/// condition has cleared, or schedule a retry while it still holds.
pub open spec fn allow_or_retry(s: AccountModel, a: Address) -> (AccountModel, Seq<Action>) {
    if s.denied && !deny_condition(s) {
        (AccountModel { denied: false, ..s }, seq![Action::RemoveFromDenyList])
    } else if s.denied && deny_condition(s) {
        (AccountModel { retry_scheduled: true, ..s }, seq![Action::ScheduleRetry(a)])
    } else {
        (s, Seq::empty())
    }
}

/// The whole `UpdateReceiptFees` handler.
pub open spec fn step_receipt_fees(
    s: AccountModel,
    a: Address,
    fees: ReceiptFees,
    now: u64,
) -> (AccountModel, Seq<Action>) {
    let (s0, acts0) = cancel_retry(s);
    let (s1, acts1) = dispatch_receipt_fees(s0, a, fees, now);
    let (s2, acts2) = eager_deny(s1);
    let (s3, acts3) = rav_trigger(s2, a, now);
    let (s4, acts4) = allow_or_retry(s3, a);
    (s4, acts0 + acts1 + acts2 + acts3 + acts4)
}

/// The `UpdateInvalidReceiptFees` handler: overwrite the invalid-receipt
/// value and deny eagerly if the condition now holds.
pub open spec fn step_invalid_receipt_fees(
    s: AccountModel,
    a: Address,
    u: UnaggregatedReceipts,
) -> (AccountModel, Seq<Action>) {
    let s1 = AccountModel { invalid: spec_update(s.invalid, a, u.value, 0), ..s };
    eager_deny(s1)
}

/// The `UpdateRav` handler: overwrite the pending value of the voucher's
/// allocation and deny eagerly if the condition now holds.
pub open spec fn step_update_rav(s: AccountModel, rav: Rav) -> (AccountModel, Seq<Action>) {
    let s1 = AccountModel {
        ravs: spec_update(s.ravs, rav.allocation_id, rav.value_aggregate, 0),
        ..s
    };
    eager_deny(s1)
}

/// Spawn phase of `UpdateAllocationIds`: a worker for every incoming
/// allocation not open yet, in list order.
pub open spec fn spawn_new_from(
    s: AccountModel,
    ids: Seq<Address>,
    i: int,
) -> (AccountModel, Seq<Action>)
    decreases ids.len() - i,
{
    if i < 0 || i >= ids.len() {
        (s, Seq::empty())
    } else {
        let id = ids[i];
        let (s1, acts1): (AccountModel, Seq<Action>) = if s.allocation_ids.contains(id) {
            (s, Seq::empty())
        } else {
            (
                AccountModel { children: push_if_absent(s.children, id), ..s },
                seq![Action::SpawnAllocation(id)],
            )
        };
        let (s2, acts2) = spawn_new_from(s1, ids, i + 1);
        (s2, acts1 + acts2)
    }
}

/// Stop phase of `UpdateAllocationIds`: every open allocation that leaves the
/// set is blocked against further voucher requests and its worker asked to
/// stop, in list order.
pub open spec fn stop_removed_from(
    s: AccountModel,
    old_ids: Seq<Address>,
    new_ids: Seq<Address>,
    i: int,
) -> (AccountModel, Seq<Action>)
    decreases old_ids.len() - i,
{
    if i < 0 || i >= old_ids.len() {
        (s, Seq::empty())
    } else {
        let id = old_ids[i];
        let (s1, acts1): (AccountModel, Seq<Action>) = if !new_ids.contains(id)
            && s.children.contains(id) {
            (
                AccountModel { sender_fees: spec_block(s.sender_fees, id), ..s },
                seq![Action::StopAllocation(id)],
            )
        } else {
            (s, Seq::empty())
        };
        let (s2, acts2) = stop_removed_from(s1, old_ids, new_ids, i + 1);
        (s2, acts1 + acts2)
    }
}

/// The spawn phase touches only `children` and emits only spawn actions.
pub proof fn lemma_spawn_new_frame(s: AccountModel, ids: Seq<Address>, i: int)
    ensures
        ({
            let s2 = spawn_new_from(s, ids, i).0;
            &&& s2 == AccountModel { children: s2.children, ..s }
        }),
    decreases ids.len() - i,
{
    if 0 <= i < ids.len() {
        let id = ids[i];
        let s1 = if s.allocation_ids.contains(id) {
            s
        } else {
            AccountModel { children: push_if_absent(s.children, id), ..s }
        };
        lemma_spawn_new_frame(s1, ids, i + 1);
    }
}

/// The stop phase touches only the unaggregated-fee tracker.
pub proof fn lemma_stop_removed_frame(
    s: AccountModel,
    old_ids: Seq<Address>,
    new_ids: Seq<Address>,
    i: int,
)
    ensures
        ({
            let s2 = stop_removed_from(s, old_ids, new_ids, i).0;
            &&& s2 == AccountModel { sender_fees: s2.sender_fees, ..s }
        }),
    decreases old_ids.len() - i,
{
    if 0 <= i < old_ids.len() {
        let id = old_ids[i];
        let s1 = if !new_ids.contains(id) && s.children.contains(id) {
            AccountModel { sender_fees: spec_block(s.sender_fees, id), ..s }
        } else {
            s
        };
        lemma_stop_removed_frame(s1, old_ids, new_ids, i + 1);
    }
}

/// Which workers the spawn phase leaves alive: the old ones, and one for
/// every incoming allocation that was not open.
pub proof fn lemma_spawn_new_children(s: AccountModel, ids: Seq<Address>, i: int)
    requires
        distinct_addrs(s.children),
        0 <= i <= ids.len(),
    ensures
        ({
            let s2 = spawn_new_from(s, ids, i).0;
            &&& distinct_addrs(s2.children)
            &&& forall|b: Address| #[trigger] s2.children.contains(b) == (s.children.contains(b)
                || (ids.skip(i).contains(b) && !s.allocation_ids.contains(b)))
        }),
    decreases ids.len() - i,
{
    if i >= ids.len() {
        assert forall|b: Address| !ids.skip(i).contains(b) by {
            if ids.skip(i).contains(b) {
                let k = choose|k: int| 0 <= k < ids.skip(i).len() && #[trigger] ids.skip(i)[k] == b;
            }
        }
    } else {
        let id = ids[i];
        let s1 = if s.allocation_ids.contains(id) {
            s
        } else {
            AccountModel { children: push_if_absent(s.children, id), ..s }
        };
        lemma_push_if_absent(s.children, id);
        lemma_spawn_new_children(s1, ids, i + 1);
        assert forall|b: Address| ids.skip(i).contains(b)
            == (ids[i] == b || ids.skip(i + 1).contains(b)) by {
            if ids.skip(i).contains(b) {
                let k = choose|k: int| 0 <= k < ids.skip(i).len() && #[trigger] ids.skip(i)[k] == b;
                if k > 0 {
                    assert(ids.skip(i + 1)[k - 1] == b);
                }
            }
            if ids[i] == b {
                assert(ids.skip(i)[0] == b);
            }
            if ids.skip(i + 1).contains(b) {
                let k = choose|k: int| 0 <= k < ids.skip(i + 1).len() && #[trigger] ids.skip(i + 1)[k] == b;
                assert(ids.skip(i)[k + 1] == b);
            }
        }
    }
}

/// What the stop phase does to the fee tracker: values, counters and
/// outstanding-request marks are untouched, and an allocation ends up
/// blocked exactly when it was blocked before or is a live worker leaving
/// the set.
pub proof fn lemma_stop_removed_marks(
    s: AccountModel,
    old_ids: Seq<Address>,
    new_ids: Seq<Address>,
    i: int,
)
    requires
        tracker_wf(s.sender_fees),
        0 <= i <= old_ids.len(),
    ensures
        ({
            let s2 = stop_removed_from(s, old_ids, new_ids, i).0;
            &&& tracker_wf(s2.sender_fees)
            &&& total_of(s2.sender_fees) == total_of(s.sender_fees)
            &&& forall|b: Address| #[trigger] value_of(s2.sender_fees, b) == value_of(
                s.sender_fees,
                b,
            )
            &&& forall|b: Address| #[trigger] counter_of(s2.sender_fees, b) == counter_of(
                s.sender_fees,
                b,
            )
            &&& forall|b: Address| #[trigger] in_flight_of(s2.sender_fees, b) == in_flight_of(
                s.sender_fees,
                b,
            )
            &&& forall|b: Address| #[trigger] crate::fee_model::blocked_of(s2.sender_fees, b)
                == (crate::fee_model::blocked_of(s.sender_fees, b) || (old_ids.skip(i).contains(b)
                    && !new_ids.contains(b) && s.children.contains(b)))
        }),
    decreases old_ids.len() - i,
{
    if i >= old_ids.len() {
        assert forall|b: Address| !old_ids.skip(i).contains(b) by {
            if old_ids.skip(i).contains(b) {
                let k = choose|k: int|
                    0 <= k < old_ids.skip(i).len() && #[trigger] old_ids.skip(i)[k] == b;
            }
        }
    } else {
        let id = old_ids[i];
        let s1 = if !new_ids.contains(id) && s.children.contains(id) {
            AccountModel { sender_fees: spec_block(s.sender_fees, id), ..s }
        } else {
            s
        };
        if !new_ids.contains(id) && s.children.contains(id) {
            crate::fee_model::lemma_block_props(s.sender_fees, id);
        }
        lemma_stop_removed_marks(s1, old_ids, new_ids, i + 1);
        assert forall|b: Address| old_ids.skip(i).contains(b)
            == (old_ids[i] == b || old_ids.skip(i + 1).contains(b)) by {
            if old_ids.skip(i).contains(b) {
                let k = choose|k: int|
                    0 <= k < old_ids.skip(i).len() && #[trigger] old_ids.skip(i)[k] == b;
                if k > 0 {
                    assert(old_ids.skip(i + 1)[k - 1] == b);
                }
            }
            if old_ids[i] == b {
                assert(old_ids.skip(i)[0] == b);
            }
            if old_ids.skip(i + 1).contains(b) {
                let k = choose|k: int|
                    0 <= k < old_ids.skip(i + 1).len() && #[trigger] old_ids.skip(i + 1)[k] == b;
                assert(old_ids.skip(i)[k + 1] == b);
            }
        }
        let s2 = stop_removed_from(s, old_ids, new_ids, i).0;
        assert(s2 == stop_removed_from(s1, old_ids, new_ids, i + 1).0);
        assert forall|b: Address| #[trigger] crate::fee_model::blocked_of(s2.sender_fees, b)
            == (crate::fee_model::blocked_of(s.sender_fees, b) || (old_ids.skip(i).contains(b)
                && !new_ids.contains(b) && s.children.contains(b))) by {
            assert(value_of(s2.sender_fees, b) == value_of(s1.sender_fees, b));
            assert(crate::fee_model::blocked_of(s2.sender_fees, b)
                == (crate::fee_model::blocked_of(s1.sender_fees, b) || (old_ids.skip(
                i + 1,
            ).contains(b) && !new_ids.contains(b) && s1.children.contains(b))));
            if !new_ids.contains(id) && s.children.contains(id) {
                if b != id {
                    assert(value_of(s1.sender_fees, b) == value_of(s.sender_fees, b));
                }
            }
        }
        assert forall|b: Address| #[trigger] value_of(s2.sender_fees, b)
            == value_of(s.sender_fees, b) by {
            assert(value_of(s2.sender_fees, b) == value_of(s1.sender_fees, b));
            if !new_ids.contains(id) && s.children.contains(id) && b != id {
                assert(value_of(s1.sender_fees, b) == value_of(s.sender_fees, b));
            }
        }
        assert forall|b: Address| #[trigger] counter_of(s2.sender_fees, b)
            == counter_of(s.sender_fees, b) by {
            assert(counter_of(s2.sender_fees, b) == counter_of(s1.sender_fees, b));
            assert(value_of(s2.sender_fees, b) == value_of(s1.sender_fees, b));
            if !new_ids.contains(id) && s.children.contains(id) && b != id {
                assert(value_of(s1.sender_fees, b) == value_of(s.sender_fees, b));
            }
        }
        assert forall|b: Address| #[trigger] in_flight_of(s2.sender_fees, b)
            == in_flight_of(s.sender_fees, b) by {
            assert(in_flight_of(s2.sender_fees, b) == in_flight_of(s1.sender_fees, b));
            assert(value_of(s2.sender_fees, b) == value_of(s1.sender_fees, b));
            if !new_ids.contains(id) && s.children.contains(id) && b != id {
                assert(value_of(s1.sender_fees, b) == value_of(s.sender_fees, b));
            }
        }
    }
}

/// The spawn phase emits spawn actions only.
pub proof fn lemma_spawn_new_actions(s: AccountModel, ids: Seq<Address>, i: int)
    ensures
        forall|k: int| 0 <= k < spawn_new_from(s, ids, i).1.len()
            ==> #[trigger] spawn_new_from(s, ids, i).1[k] is SpawnAllocation,
    decreases ids.len() - i,
{
    if 0 <= i < ids.len() {
        let id = ids[i];
        let (s1, acts1): (AccountModel, Seq<Action>) = if s.allocation_ids.contains(id) {
            (s, Seq::empty())
        } else {
            (
                AccountModel { children: push_if_absent(s.children, id), ..s },
                seq![Action::SpawnAllocation(id)],
            )
        };
        lemma_spawn_new_actions(s1, ids, i + 1);
        assert forall|k: int| 0 <= k < spawn_new_from(s, ids, i).1.len()
            implies #[trigger] spawn_new_from(s, ids, i).1[k] is SpawnAllocation by {
            if k < acts1.len() {
                assert(spawn_new_from(s, ids, i).1[k] == acts1[k]);
            } else {
                assert(spawn_new_from(s, ids, i).1[k]
                    == spawn_new_from(s1, ids, i + 1).1[k - acts1.len()]);
            }
        }
    }
}

/// The stop phase emits stop actions only.
pub proof fn lemma_stop_removed_actions(
    s: AccountModel,
    old_ids: Seq<Address>,
    new_ids: Seq<Address>,
    i: int,
)
    ensures
        forall|k: int| 0 <= k < stop_removed_from(s, old_ids, new_ids, i).1.len()
            ==> #[trigger] stop_removed_from(s, old_ids, new_ids, i).1[k] is StopAllocation,
    decreases old_ids.len() - i,
{
    if 0 <= i < old_ids.len() {
        let id = old_ids[i];
        let (s1, acts1): (AccountModel, Seq<Action>) = if !new_ids.contains(id)
            && s.children.contains(id) {
            (
                AccountModel { sender_fees: spec_block(s.sender_fees, id), ..s },
                seq![Action::StopAllocation(id)],
            )
        } else {
            (s, Seq::empty())
        };
        lemma_stop_removed_actions(s1, old_ids, new_ids, i + 1);
        assert forall|k: int| 0 <= k < stop_removed_from(s, old_ids, new_ids, i).1.len()
            implies #[trigger] stop_removed_from(s, old_ids, new_ids, i).1[k] is StopAllocation by {
            if k < acts1.len() {
                assert(stop_removed_from(s, old_ids, new_ids, i).1[k] == acts1[k]);
            } else {
                assert(stop_removed_from(s, old_ids, new_ids, i).1[k]
                    == stop_removed_from(s1, old_ids, new_ids, i + 1).1[k - acts1.len()]);
            }
        }
    }
}

/// The spawn phase is the identity once every remaining allocation is open.
pub proof fn lemma_spawn_identity(s: AccountModel, ids: Seq<Address>, i: int)
    requires
        forall|j: int| i <= j < ids.len() ==> s.allocation_ids.contains(#[trigger] ids[j]),
    ensures
        spawn_new_from(s, ids, i).0 == s,
        spawn_new_from(s, ids, i).1 == Seq::<Action>::empty(),
    decreases ids.len() - i,
{
    if 0 <= i < ids.len() {
        lemma_spawn_identity(s, ids, i + 1);
        assert(spawn_new_from(s, ids, i).1 =~= Seq::<Action>::empty());
    }
}

/// The stop phase is the identity once every remaining old allocation is
/// also in the new set.
pub proof fn lemma_stop_identity(
    s: AccountModel,
    old_ids: Seq<Address>,
    new_ids: Seq<Address>,
    i: int,
)
    requires
        forall|j: int| i <= j < old_ids.len() ==> new_ids.contains(#[trigger] old_ids[j]),
    ensures
        stop_removed_from(s, old_ids, new_ids, i).0 == s,
        stop_removed_from(s, old_ids, new_ids, i).1 == Seq::<Action>::empty(),
    decreases old_ids.len() - i,
{
    if 0 <= i < old_ids.len() {
        lemma_stop_identity(s, old_ids, new_ids, i + 1);
        assert(stop_removed_from(s, old_ids, new_ids, i).1 =~= Seq::<Action>::empty());
    }
}

/// A trailing old allocation that stays in the new set adds nothing to the
/// stop phase.
pub proof fn lemma_stop_push_skip(
    s: AccountModel,
    old_ids: Seq<Address>,
    x: Address,
    new_ids: Seq<Address>,
    i: int,
)
    requires
        new_ids.contains(x),
        0 <= i,
    ensures
        stop_removed_from(s, old_ids.push(x), new_ids, i).0
            == stop_removed_from(s, old_ids, new_ids, i).0,
        stop_removed_from(s, old_ids.push(x), new_ids, i).1
            == stop_removed_from(s, old_ids, new_ids, i).1,
    decreases old_ids.len() + 1 - i,
{
    if i < old_ids.len() {
        assert(old_ids.push(x)[i] == old_ids[i]);
        let id = old_ids[i];
        let s1 = if !new_ids.contains(id) && s.children.contains(id) {
            AccountModel { sender_fees: spec_block(s.sender_fees, id), ..s }
        } else {
            s
        };
        lemma_stop_push_skip(s1, old_ids, x, new_ids, i + 1);
        assert(stop_removed_from(s, old_ids.push(x), new_ids, i).1
            =~= stop_removed_from(s, old_ids, new_ids, i).1);
    } else if i == old_ids.len() {
        assert(old_ids.push(x)[i] == x);
        assert(i + 1 >= old_ids.push(x).len());
        assert(stop_removed_from(s, old_ids.push(x), new_ids, i + 1).0 == s);
        assert(stop_removed_from(s, old_ids.push(x), new_ids, i + 1).1
            == Seq::<Action>::empty());
        assert(stop_removed_from(s, old_ids.push(x), new_ids, i).0 == s);
        assert(stop_removed_from(s, old_ids.push(x), new_ids, i).1
            =~= Seq::<Action>::empty());
        assert(stop_removed_from(s, old_ids, new_ids, i).0 == s);
        assert(stop_removed_from(s, old_ids, new_ids, i).1 == Seq::<Action>::empty());
    }
}

/// The stop phase never reads or writes the set of open allocations.
pub proof fn lemma_stop_alloc_ids_congruence(
    s: AccountModel,
    x: Seq<Address>,
    old_ids: Seq<Address>,
    new_ids: Seq<Address>,
    i: int,
)
    ensures
        stop_removed_from(AccountModel { allocation_ids: x, ..s }, old_ids, new_ids, i).0
            == (AccountModel {
            allocation_ids: x,
            ..stop_removed_from(s, old_ids, new_ids, i).0
        }),
        stop_removed_from(AccountModel { allocation_ids: x, ..s }, old_ids, new_ids, i).1
            == stop_removed_from(s, old_ids, new_ids, i).1,
    decreases old_ids.len() - i,
{
    if 0 <= i < old_ids.len() {
        let id = old_ids[i];
        let s1 = if !new_ids.contains(id) && s.children.contains(id) {
            AccountModel { sender_fees: spec_block(s.sender_fees, id), ..s }
        } else {
            s
        };
        lemma_stop_alloc_ids_congruence(s1, x, old_ids, new_ids, i + 1);
        assert(AccountModel { allocation_ids: x, ..s1 } == (if !new_ids.contains(id)
            && (AccountModel { allocation_ids: x, ..s }).children.contains(id) {
            AccountModel {
                sender_fees: spec_block((AccountModel { allocation_ids: x, ..s }).sender_fees, id),
                ..(AccountModel { allocation_ids: x, ..s })
            }
        } else {
            AccountModel { allocation_ids: x, ..s }
        }));
    }
}

/// The `UpdateAllocationIds` handler.
pub open spec fn step_allocation_ids(s: AccountModel, ids: Seq<Address>) -> (AccountModel, Seq<Action>) {
    let (s1, acts1) = spawn_new_from(s, ids, 0);
    let (s2, acts2) = stop_removed_from(s1, s.allocation_ids, ids, 0);
    (AccountModel { allocation_ids: ids, ..s2 }, acts1 + acts2)
}

/// The `NewAllocationId` handler: open one allocation, as a no-op when it is
/// open already.
pub open spec fn step_new_allocation_id(s: AccountModel, id: Address) -> (AccountModel, Seq<Action>) {
    if s.allocation_ids.contains(id) {
        (s, Seq::empty())
    } else {
        (
            AccountModel {
                allocation_ids: s.allocation_ids.push(id),
                children: push_if_absent(s.children, id),
                ..s
            },
            seq![Action::SpawnAllocation(id)],
        )
    }
}

/// Zero phase of `UpdateBalanceAndLastRavs`: the pending value of every
/// tracked allocation that is neither open nor among the incoming vouchers is
/// reset, in tracker order.  `ids` is the tracker's allocation list.
pub open spec fn zero_stale_from(
    m: TrackerModel,
    ids: Seq<Address>,
    alloc_ids: Seq<Address>,
    ravs: Seq<(Address, u128)>,
    i: int,
) -> TrackerModel
    decreases ids.len() - i,
{
    if i < 0 || i >= ids.len() {
        m
    } else {
        let id = ids[i];
        let m1 = if value_of(m, id) > 0 && !alloc_ids.contains(id) && !rav_keys_contain(ravs, id) {
            spec_update(m, id, 0, 0)
        } else {
            m
        };
        zero_stale_from(m1, ids, alloc_ids, ravs, i + 1)
    }
}

/// Set phase of `UpdateBalanceAndLastRavs`: each incoming voucher value is
/// written, in list order.
pub open spec fn set_ravs_from(m: TrackerModel, ravs: Seq<(Address, u128)>, i: int) -> TrackerModel
    decreases ravs.len() - i,
{
    if i < 0 || i >= ravs.len() {
        m
    } else {
        set_ravs_from(spec_update(m, ravs[i].0, ravs[i].1, 0), ravs, i + 1)
    }
}

/// The allocations of a tracker, in tracker order.
pub open spec fn allocations_of(m: TrackerModel) -> Seq<Address> {
    Seq::new(m.entries.len(), |i: int| m.entries[i].allocation)
}

/// The `UpdateBalanceAndLastRavs` handler: adopt the balance, reset stale
/// pending vouchers, write the incoming ones, then reconcile the deny state
/// in both directions.
pub open spec fn step_balance_and_last_ravs(
    s: AccountModel,
    balance: Balance,
    ravs: Seq<(Address, u128)>,
) -> (AccountModel, Seq<Action>) {
    let t1 = zero_stale_from(s.ravs, allocations_of(s.ravs), s.allocation_ids, ravs, 0);
    let t2 = set_ravs_from(t1, ravs, 0);
    let s1 = AccountModel { balance, ravs: t2, ..s };
    if s1.denied && !deny_condition(s1) {
        (AccountModel { denied: false, ..s1 }, seq![Action::RemoveFromDenyList])
    } else if !s1.denied && deny_condition(s1) {
        (AccountModel { denied: true, ..s1 }, seq![Action::AddToDenyList])
    } else {
        (s1, Seq::empty())
    }
}

/// The handler for an orderly worker stop: the allocation is unblocked, the
/// worker forgotten, and a reconciling `UpdateValue(zero)` is fed back.  The
/// pending voucher value is left alone: the voucher is still outstanding.
pub open spec fn step_child_terminated(s: AccountModel, id: Address) -> (AccountModel, Seq<Action>) {
    (
        AccountModel {
            sender_fees: spec_unblock(s.sender_fees, id),
            children: remove_addr(s.children, id),
            ..s
        },
        seq![Action::ResetAllocationFees(id)],
    )
}

/// The handler for a crashed worker: a fresh worker is spawned for the same
/// allocation; nothing else changes.
pub open spec fn step_child_panicked(s: AccountModel, id: Address) -> (AccountModel, Seq<Action>) {
    (s, seq![Action::SpawnAllocation(id)])
}

/// The whole supervisor transition: one event in, the successor state and
/// the actions out.
pub open spec fn step(s: AccountModel, ev: EventModel, now: u64) -> (AccountModel, Seq<Action>) {
    match ev {
        EventModel::Message(m) => match m {
            MessageModel::UpdateReceiptFees(a, fees) => step_receipt_fees(s, a, fees, now),
            MessageModel::UpdateInvalidReceiptFees(a, u) => step_invalid_receipt_fees(s, a, u),
            MessageModel::UpdateRav(rav) => step_update_rav(s, rav),
            MessageModel::UpdateAllocationIds(ids) => step_allocation_ids(s, ids),
            MessageModel::NewAllocationId(id) => step_new_allocation_id(s, id),
            MessageModel::UpdateBalanceAndLastRavs(b, ravs) => step_balance_and_last_ravs(
                s,
                b,
                ravs,
            ),
        },
        EventModel::ChildTerminated(id) => step_child_terminated(s, id),
        EventModel::ChildPanicked(id) => step_child_panicked(s, id),
    }
}

} // verus!
