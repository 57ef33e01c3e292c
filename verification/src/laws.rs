//! The supervisor's laws, proved over the model transition [`step`].
//!
//! Each proof function here is a statement about every reachable supervisor
//! state and every admissible event; the executable handlers refine `step`,
//! so these laws hold of the running code.

use vstd::prelude::*;
use crate::account_model::{
    AccountModel, EventModel, MessageModel, deny_condition, distinct_addrs, event_requires,
    lemma_push_if_absent, lemma_remove_addr, lemma_spawn_identity, lemma_spawn_new_actions,
    lemma_spawn_new_children, lemma_spawn_new_frame, lemma_stop_alloc_ids_congruence,
    lemma_stop_identity, lemma_stop_push_skip, lemma_stop_removed_actions,
    lemma_stop_removed_frame, lemma_stop_removed_marks, model_wf, push_if_absent,
    spawn_new_from, step, stop_removed_from,
};
use crate::address::Address;
use crate::fee_model::{
    blocked_of, in_flight_of, lemma_add_props, lemma_failed_backoff_props, lemma_finish_rav_props,
    lemma_heaviest_of_props, lemma_ok_rav_props, lemma_start_rav_props, lemma_unblock_props,
    lemma_update_props, total_of, tracker_wf, value_of,
};
use crate::messages::{Action, ReceiptFees};

verus! {

/// How many `ScheduleRetry` actions a run holds.
pub open spec fn count_schedule_retries(acts: Seq<Action>) -> int
    decreases acts.len(),
{
    if acts.len() == 0 {
        0
    } else {
        count_schedule_retries(acts.drop_last()) + if acts.last() is ScheduleRetry {
            1int
        } else {
            0int
        }
    }
}

/// How many `TriggerRavRequest` actions a run holds.
pub open spec fn count_rav_triggers(acts: Seq<Action>) -> int
    decreases acts.len(),
{
    if acts.len() == 0 {
        0
    } else {
        count_rav_triggers(acts.drop_last()) + if acts.last() is TriggerRavRequest {
            1int
        } else {
            0int
        }
    }
}

/// Both counts distribute over concatenation.
proof fn lemma_counts_concat(x: Seq<Action>, y: Seq<Action>)
    ensures
        count_schedule_retries(x + y) == count_schedule_retries(x) + count_schedule_retries(y),
        count_rav_triggers(x + y) == count_rav_triggers(x) + count_rav_triggers(y),
    decreases y.len(),
{
    if y.len() == 0 {
        assert(x + y =~= x);
    } else {
        lemma_counts_concat(x, y.drop_last());
        assert((x + y).drop_last() =~= x + y.drop_last());
        assert((x + y).last() == y.last());
    }
}

/// An element of a concatenation comes from one of the parts.
proof fn lemma_contains_concat(x: Seq<Action>, y: Seq<Action>, e: Action)
    ensures
        (x + y).contains(e) == (x.contains(e) || y.contains(e)),
{
    if (x + y).contains(e) {
        let i = choose|i: int| 0 <= i < (x + y).len() && (x + y)[i] == e;
        if i < x.len() {
            assert(x[i] == e);
        } else {
            assert(y[i - x.len()] == e);
        }
    }
    if x.contains(e) {
        let i = choose|i: int| 0 <= i < x.len() && x[i] == e;
        assert((x + y)[i] == e);
    }
    if y.contains(e) {
        let i = choose|i: int| 0 <= i < y.len() && y[i] == e;
        assert((x + y)[x.len() + i] == e);
    }
}

/// A run with no elements of the counted kinds counts zero; small helper
/// facts about the runs each stage emits.
proof fn lemma_counts_of_parts(acts: Seq<Action>)
    requires
        forall|k: int| 0 <= k < acts.len()
            ==> !(#[trigger] acts[k] is ScheduleRetry) && !(acts[k] is TriggerRavRequest),
    ensures
        count_schedule_retries(acts) == 0,
        count_rav_triggers(acts) == 0,
        forall|a: Address| !acts.contains(Action::ScheduleRetry(a)),
        forall|a: Address| !acts.contains(Action::TriggerRavRequest(a)),
    decreases acts.len(),
{
    if acts.len() != 0 {
        assert(forall|k: int| 0 <= k < acts.drop_last().len()
            ==> acts.drop_last()[k] == acts[k]);
        lemma_counts_of_parts(acts.drop_last());
        assert forall|a: Address| !acts.contains(Action::ScheduleRetry(a)) by {
            if acts.contains(Action::ScheduleRetry(a)) {
                let i = choose|i: int| 0 <= i < acts.len() && acts[i] == Action::ScheduleRetry(a);
            }
        }
        assert forall|a: Address| !acts.contains(Action::TriggerRavRequest(a)) by {
            if acts.contains(Action::TriggerRavRequest(a)) {
                let i = choose|i: int|
                    0 <= i < acts.len() && acts[i] == Action::TriggerRavRequest(a);
            }
        }
    } else {
        assert forall|a: Address| !acts.contains(Action::ScheduleRetry(a)) by {
            if acts.contains(Action::ScheduleRetry(a)) {
                let i = choose|i: int| 0 <= i < acts.len() && acts[i] == Action::ScheduleRetry(a);
            }
        }
        assert forall|a: Address| !acts.contains(Action::TriggerRavRequest(a)) by {
            if acts.contains(Action::TriggerRavRequest(a)) {
                let i = choose|i: int|
                    0 <= i < acts.len() && acts[i] == Action::TriggerRavRequest(a);
            }
        }
    }
}

/// Law: the cumulative value of invalid receipts never decreases, for any
/// allocation, across any event — provided the allocation reports, as it
/// does, a running (non-decreasing) total.
pub proof fn lemma_invalid_fees_monotone(s: AccountModel, ev: EventModel, now: u64)
    requires
        model_wf(s),
        event_requires(s, ev),
        ev matches EventModel::Message(MessageModel::UpdateInvalidReceiptFees(a, u))
            ==> u.value >= value_of(s.invalid, a),
    ensures
        forall|b: Address| #[trigger] value_of(step(s, ev, now).0.invalid, b) >= value_of(
            s.invalid,
            b,
        ),
{
    let s2 = step(s, ev, now).0;
    match ev {
        EventModel::Message(m) => match m {
            MessageModel::UpdateInvalidReceiptFees(a, u) => {
                lemma_update_props(s.invalid, a, u.value, 0);
            },
            MessageModel::UpdateAllocationIds(ids) => {
                lemma_spawn_new_frame(s, ids, 0);
                let s_mid = spawn_new_from(s, ids, 0).0;
                lemma_stop_removed_frame(s_mid, s.allocation_ids, ids, 0);
                assert(s2.invalid == s.invalid);
            },
            _ => {
                assert(s2.invalid == s.invalid);
            },
        },
        _ => {
            assert(s2.invalid == s.invalid);
        },
    }
}

/// Law: a handler run holds at most one retry timer: every
/// `UpdateReceiptFees` run begins by cancelling the old timer when one was
/// pending, at most one `ScheduleRetry` is emitted per run, a `ScheduleRetry`
/// leaves the pending flag set, and no other event sets the flag.
pub proof fn lemma_single_retry_timer(s: AccountModel, ev: EventModel, now: u64)
    requires
        model_wf(s),
        event_requires(s, ev),
    ensures
        ({
            let (s2, acts) = step(s, ev, now);
            &&& count_schedule_retries(acts) <= 1
            &&& forall|a: Address| acts.contains(Action::ScheduleRetry(a)) ==> s2.retry_scheduled
            &&& s2.retry_scheduled && !s.retry_scheduled ==> exists|a: Address|
                acts.contains(Action::ScheduleRetry(a))
            &&& (ev matches EventModel::Message(MessageModel::UpdateReceiptFees(aa, ff))
                && s.retry_scheduled) ==> acts.len() > 0 && acts[0] == Action::CancelRetry
        }),
{
    let (s2, acts) = step(s, ev, now);
    match ev {
        EventModel::Message(m) => match m {
            MessageModel::UpdateReceiptFees(a, fees) => {
                lemma_receipt_fees_parts(s, a, fees, now);
            },
            MessageModel::UpdateAllocationIds(ids) => {
                lemma_spawn_new_frame(s, ids, 0);
                let s_mid = spawn_new_from(s, ids, 0).0;
                lemma_stop_removed_frame(s_mid, s.allocation_ids, ids, 0);
                lemma_spawn_new_actions(s, ids, 0);
                lemma_stop_removed_actions(s_mid, s.allocation_ids, ids, 0);
                let x = spawn_new_from(s, ids, 0).1;
                let y = stop_removed_from(s_mid, s.allocation_ids, ids, 0).1;
                assert(forall|k: int| 0 <= k < acts.len()
                    ==> !(#[trigger] acts[k] is ScheduleRetry) && !(acts[k] is TriggerRavRequest))
                    by {
                    assert forall|k: int| 0 <= k < acts.len()
                        implies !(#[trigger] acts[k] is ScheduleRetry)
                            && !(acts[k] is TriggerRavRequest) by {
                        if k < x.len() {
                            assert(acts[k] == x[k]);
                        } else {
                            assert(acts[k] == y[k - x.len()]);
                        }
                    }
                }
                lemma_counts_of_parts(acts);
            },
            _ => {
                lemma_counts_of_parts(acts);
            },
        },
        _ => {
            lemma_counts_of_parts(acts);
        },
    }
}

/// The five runs of an `UpdateReceiptFees` handler, characterised: the
/// cancel run leads, `ScheduleRetry` and `TriggerRavRequest` appear at most
/// once each, and a `ScheduleRetry` run sets the pending flag.
proof fn lemma_receipt_fees_parts(s: AccountModel, a: Address, fees: ReceiptFees, now: u64)
    requires
        model_wf(s),
        event_requires(s, EventModel::Message(MessageModel::UpdateReceiptFees(a, fees))),
    ensures
        ({
            let (s2, acts) = crate::account_model::step_receipt_fees(s, a, fees, now);
            &&& count_schedule_retries(acts) <= 1
            &&& count_rav_triggers(acts) <= 1
            &&& forall|b: Address| acts.contains(Action::ScheduleRetry(b)) ==> s2.retry_scheduled
            &&& s2.retry_scheduled && !s.retry_scheduled ==> exists|b: Address|
                acts.contains(Action::ScheduleRetry(b))
            &&& s.retry_scheduled ==> acts.len() > 0 && acts[0] == Action::CancelRetry
        }),
{
    let (s0, acts0) = crate::account_model::cancel_retry(s);
    let (s1, acts1) = crate::account_model::dispatch_receipt_fees(s0, a, fees, now);
    let (s2m, acts2) = crate::account_model::eager_deny(s1);
    let (s3, acts3) = crate::account_model::rav_trigger(s2m, a, now);
    let (s4, acts4) = crate::account_model::allow_or_retry(s3, a);
    let acts = acts0 + acts1 + acts2 + acts3 + acts4;
    assert(crate::account_model::step_receipt_fees(s, a, fees, now).1 == acts);

    assert(count_schedule_retries(acts0) == 0 && count_rav_triggers(acts0) == 0) by {
        reveal_parts(acts0);
    }
    assert(count_schedule_retries(acts1) == 0 && count_rav_triggers(acts1) == 0) by {
        reveal_parts(acts1);
    }
    assert(count_schedule_retries(acts2) == 0 && count_rav_triggers(acts2) == 0) by {
        reveal_parts(acts2);
    }
    assert(count_schedule_retries(acts3) == 0 && count_rav_triggers(acts3) <= 1) by {
        reveal_parts_trigger(acts3);
    }
    assert(count_schedule_retries(acts4) <= 1 && count_rav_triggers(acts4) == 0) by {
        reveal_parts_schedule(acts4);
    }
    lemma_counts_concat(acts0, acts1);
    lemma_counts_concat(acts0 + acts1, acts2);
    lemma_counts_concat(acts0 + acts1 + acts2, acts3);
    lemma_counts_concat(acts0 + acts1 + acts2 + acts3, acts4);

    assert forall|b: Address| acts.contains(Action::ScheduleRetry(b))
        implies s4.retry_scheduled by {
        lemma_contains_concat(acts0 + acts1 + acts2 + acts3, acts4, Action::ScheduleRetry(b));
        lemma_contains_concat(acts0 + acts1 + acts2, acts3, Action::ScheduleRetry(b));
        lemma_contains_concat(acts0 + acts1, acts2, Action::ScheduleRetry(b));
        lemma_contains_concat(acts0, acts1, Action::ScheduleRetry(b));
        if acts4.contains(Action::ScheduleRetry(b)) {
            let i = choose|i: int| 0 <= i < acts4.len() && acts4[i] == Action::ScheduleRetry(b);
        }
        if acts0.contains(Action::ScheduleRetry(b)) {
            let i = choose|i: int| 0 <= i < acts0.len() && acts0[i] == Action::ScheduleRetry(b);
        }
        if acts1.contains(Action::ScheduleRetry(b)) {
            let i = choose|i: int| 0 <= i < acts1.len() && acts1[i] == Action::ScheduleRetry(b);
        }
        if acts2.contains(Action::ScheduleRetry(b)) {
            let i = choose|i: int| 0 <= i < acts2.len() && acts2[i] == Action::ScheduleRetry(b);
        }
        if acts3.contains(Action::ScheduleRetry(b)) {
            let i = choose|i: int| 0 <= i < acts3.len() && acts3[i] == Action::ScheduleRetry(b);
        }
    }
    if s4.retry_scheduled && !s.retry_scheduled {
        assert(acts4 == seq![Action::ScheduleRetry(a)]);
        assert(acts4[0] == Action::ScheduleRetry(a));
        assert(acts4.contains(Action::ScheduleRetry(a)));
        lemma_contains_concat(acts0 + acts1 + acts2 + acts3, acts4, Action::ScheduleRetry(a));
    }
    if s.retry_scheduled {
        assert(acts0 == seq![Action::CancelRetry]);
        assert(acts[0] == Action::CancelRetry) by {
            assert(acts0[0] == Action::CancelRetry);
            assert((acts0 + acts1)[0] == acts0[0]);
            assert((acts0 + acts1 + acts2)[0] == (acts0 + acts1)[0]);
            assert((acts0 + acts1 + acts2 + acts3)[0] == (acts0 + acts1 + acts2)[0]);
            assert(acts[0] == (acts0 + acts1 + acts2 + acts3)[0]);
        }
    }
}

/// The runs of the cancel, dispatch and deny stages hold neither retries nor
/// triggers.
proof fn reveal_parts(acts: Seq<Action>)
    requires
        acts == Seq::<Action>::empty() || acts == seq![Action::CancelRetry] || acts == seq![
            Action::AddToDenyList,
        ],
    ensures
        count_schedule_retries(acts) == 0,
        count_rav_triggers(acts) == 0,
{
    reveal_with_fuel(count_schedule_retries, 2);
    reveal_with_fuel(count_rav_triggers, 2);
    if acts.len() != 0 {
        assert(acts.drop_last() =~= Seq::<Action>::empty());
        assert(count_schedule_retries(acts)
            == count_schedule_retries(Seq::<Action>::empty()) + 0);
        assert(count_rav_triggers(acts) == count_rav_triggers(Seq::<Action>::empty()) + 0);
    }
}

/// The trigger stage's run holds at most one trigger and no retry.
proof fn reveal_parts_trigger(acts: Seq<Action>)
    requires
        acts == Seq::<Action>::empty() || exists|t: Address| acts == seq![
            Action::TriggerRavRequest(t),
        ],
    ensures
        count_schedule_retries(acts) == 0,
        count_rav_triggers(acts) <= 1,
{
    reveal_with_fuel(count_schedule_retries, 2);
    reveal_with_fuel(count_rav_triggers, 2);
    if acts.len() != 0 {
        let t = choose|t: Address| acts == seq![Action::TriggerRavRequest(t)];
        assert(acts.drop_last() =~= Seq::<Action>::empty());
        assert(count_schedule_retries(acts)
            == count_schedule_retries(Seq::<Action>::empty()) + 0);
        assert(count_rav_triggers(acts) == count_rav_triggers(Seq::<Action>::empty()) + 1);
    }
}

/// The closing stage's run holds at most one retry and no trigger.
proof fn reveal_parts_schedule(acts: Seq<Action>)
    requires
        acts == Seq::<Action>::empty() || acts == seq![Action::RemoveFromDenyList] || exists|
            t: Address,
        | acts == seq![Action::ScheduleRetry(t)],
    ensures
        count_schedule_retries(acts) <= 1,
        count_rav_triggers(acts) == 0,
{
    reveal_with_fuel(count_schedule_retries, 2);
    reveal_with_fuel(count_rav_triggers, 2);
    if acts.len() != 0 {
        if acts == seq![Action::RemoveFromDenyList] {
            assert(acts.drop_last() =~= Seq::<Action>::empty());
            assert(count_schedule_retries(acts)
                == count_schedule_retries(Seq::<Action>::empty()) + 0);
            assert(count_rav_triggers(acts) == count_rav_triggers(Seq::<Action>::empty()) + 0);
        } else {
            let t = choose|t: Address| acts == seq![Action::ScheduleRetry(t)];
            assert(acts.drop_last() =~= Seq::<Action>::empty());
            assert(count_schedule_retries(acts)
                == count_schedule_retries(Seq::<Action>::empty()) + 1);
            assert(count_rav_triggers(acts) == count_rav_triggers(Seq::<Action>::empty()) + 0);
        }
    }
}

/// Law: handling the same allocation set twice is idempotent — the second
/// run leaves the state untouched and performs nothing.
pub proof fn lemma_update_allocation_ids_idempotent(
    s: AccountModel,
    ids: Seq<Address>,
    now1: u64,
    now2: u64,
)
    requires
        model_wf(s),
        distinct_addrs(ids),
    ensures
        ({
            let s1 = step(s, EventModel::Message(MessageModel::UpdateAllocationIds(ids)), now1).0;
            let (s2, acts2) = step(
                s1,
                EventModel::Message(MessageModel::UpdateAllocationIds(ids)),
                now2,
            );
            &&& s2 == s1
            &&& acts2 == Seq::<Action>::empty()
        }),
{
    let s1 = step(s, EventModel::Message(MessageModel::UpdateAllocationIds(ids)), now1).0;
    let (s2, acts2) = step(s1, EventModel::Message(MessageModel::UpdateAllocationIds(ids)), now2);
    assert(s1.allocation_ids == ids);
    assert forall|j: int| 0 <= j < ids.len() implies s1.allocation_ids.contains(
        #[trigger] ids[j],
    ) by {
        assert(s1.allocation_ids[j] == ids[j]);
    }
    lemma_spawn_identity(s1, ids, 0);
    lemma_stop_identity(s1, ids, ids, 0);
    assert(s2 =~~= s1);
    assert(acts2 =~= Seq::<Action>::empty());
}

/// How the dispatch stage of `UpdateReceiptFees` moves the scheduling marks
/// of the fee tracker: a voucher response ends the outstanding request of
/// its allocation; nothing else touches an outstanding-request or closing
/// mark, and totals stay within bounds.
proof fn lemma_dispatch_marks(s: AccountModel, a: Address, fees: ReceiptFees, now: u64)
    requires
        model_wf(s),
        event_requires(s, EventModel::Message(MessageModel::UpdateReceiptFees(a, fees))),
        !s.retry_scheduled,
    ensures
        ({
            let s1 = crate::account_model::dispatch_receipt_fees(s, a, fees, now).0;
            &&& tracker_wf(s1.sender_fees)
            &&& tracker_wf(s1.ravs)
            &&& forall|b: Address| #[trigger] in_flight_of(s1.sender_fees, b) == if fees is RavRequestResponse
                && b == a {
                false
            } else {
                in_flight_of(s.sender_fees, b)
            }
            &&& forall|b: Address| #[trigger] blocked_of(s1.sender_fees, b) == blocked_of(
                s.sender_fees,
                b,
            )
        }),
{
    let s1 = crate::account_model::dispatch_receipt_fees(s, a, fees, now).0;
    match fees {
        ReceiptFees::NewReceipt(v) => {
            lemma_add_props(s.sender_fees, a, v, now);
        },
        ReceiptFees::UpdateValue(u) => {
            lemma_update_props(s.sender_fees, a, u.value, u.counter);
        },
        ReceiptFees::RavRequestResponse(res) => {
            let t1 = crate::fee_model::spec_finish_rav(s.sender_fees, a);
            lemma_finish_rav_props(s.sender_fees, a);
            match res {
                Ok((u, rav)) => {
                    let rav_value = match rav {
                        Some(r) => r.value_aggregate,
                        None => 0,
                    };
                    let t15 = crate::fee_model::spec_ok_rav(t1, a);
                    lemma_ok_rav_props(t1, a);
                    lemma_update_props(t15, a, u.value, u.counter);
                    lemma_update_props(s.ravs, a, rav_value, 0);
                },
                Err(_e) => {
                    lemma_failed_backoff_props(t1, a, s.config.retry_interval_ms, now);
                },
            }
        },
        ReceiptFees::Retry => {},
    }
}

/// The runs of the cancel, deny and closing stages hold no voucher trigger.
proof fn lemma_no_trigger_in(acts: Seq<Action>, b: Address)
    requires
        acts == Seq::<Action>::empty() || acts == seq![Action::CancelRetry] || acts == seq![
            Action::AddToDenyList,
        ] || acts == seq![Action::RemoveFromDenyList] || exists|t: Address| acts == seq![
            Action::ScheduleRetry(t),
        ],
    ensures
        !acts.contains(Action::TriggerRavRequest(b)),
{
    if acts.contains(Action::TriggerRavRequest(b)) {
        let i = choose|i: int| 0 <= i < acts.len() && acts[i] == Action::TriggerRavRequest(b);
        if acts.len() != 0 && !(acts == seq![Action::CancelRetry] || acts == seq![
            Action::AddToDenyList,
        ] || acts == seq![Action::RemoveFromDenyList]) {
            let t = choose|t: Address| acts == seq![Action::ScheduleRetry(t)];
            assert(acts[0] == Action::ScheduleRetry(t));
        }
    }
}

/// How one `UpdateReceiptFees` handler moves the outstanding-request marks,
/// with its trigger actions: the backbone of the single-flight law.
proof fn lemma_receipt_fees_flight(s: AccountModel, a: Address, fees: ReceiptFees, now: u64)
    requires
        model_wf(s),
        event_requires(s, EventModel::Message(MessageModel::UpdateReceiptFees(a, fees))),
    ensures
        ({
            let (s4, acts) = crate::account_model::step_receipt_fees(s, a, fees, now);
            &&& count_rav_triggers(acts) <= 1
            &&& forall|b: Address| acts.contains(Action::TriggerRavRequest(b)) ==> in_flight_of(
                s4.sender_fees,
                b,
            )
            &&& forall|b: Address| in_flight_of(s4.sender_fees, b) && !in_flight_of(
                s.sender_fees,
                b,
            ) ==> acts.contains(Action::TriggerRavRequest(b))
            &&& forall|b: Address| in_flight_of(s.sender_fees, b) && !in_flight_of(
                s4.sender_fees,
                b,
            ) ==> fees is RavRequestResponse && b == a
            &&& forall|b: Address| in_flight_of(s.sender_fees, b) && !(fees is RavRequestResponse
                && b == a) ==> !acts.contains(Action::TriggerRavRequest(b))
        }),
{
    let (s0, acts0) = crate::account_model::cancel_retry(s);
    let (s1, acts1) = crate::account_model::dispatch_receipt_fees(s0, a, fees, now);
    let (s2m, acts2) = crate::account_model::eager_deny(s1);
    let (s3, acts3) = crate::account_model::rav_trigger(s2m, a, now);
    let (s4, acts4) = crate::account_model::allow_or_retry(s3, a);
    let acts = acts0 + acts1 + acts2 + acts3 + acts4;
    assert(crate::account_model::step_receipt_fees(s, a, fees, now).1 == acts);
    assert(s0.sender_fees == s.sender_fees);
    lemma_dispatch_marks(s0, a, fees, now);
    assert(s2m.sender_fees == s1.sender_fees);

    let counter_trigger = crate::fee_model::counter_outside_of(s2m.sender_fees, a, now as int)
        >= s2m.config.rav_request_receipt_limit && !in_flight_of(s2m.sender_fees, a);
    let value_trigger = crate::fee_model::total_outside_of(s2m.sender_fees, now as int)
        >= s2m.config.rav_request_trigger_value;
    let target: Option<Address> = if counter_trigger {
        Some(a)
    } else if value_trigger {
        crate::fee_model::heaviest_of(s2m.sender_fees, now as int)
    } else {
        None
    };
    let triggered = target is Some && s2m.children.contains(target->0);
    if target is Some {
        lemma_heaviest_of_props(s2m.sender_fees, now as int);
        assert(!in_flight_of(s2m.sender_fees, target->0));
    }
    if triggered {
        lemma_start_rav_props(s2m.sender_fees, target->0);
        assert(acts3 == seq![Action::TriggerRavRequest(target->0)]);
    } else {
        assert(acts3 == Seq::<Action>::empty());
    }
    assert(s4.sender_fees == s3.sender_fees);

    assert(count_rav_triggers(acts) <= 1) by {
        assert(count_rav_triggers(acts0) == 0 && count_rav_triggers(acts1) == 0
            && count_rav_triggers(acts2) == 0 && count_rav_triggers(acts4) == 0) by {
            reveal_parts(acts0);
            reveal_parts(acts1);
            reveal_parts(acts2);
            reveal_parts_schedule(acts4);
        }
        assert(count_rav_triggers(acts3) <= 1) by {
            reveal_parts_trigger(acts3);
        }
        lemma_counts_concat(acts0, acts1);
        lemma_counts_concat(acts0 + acts1, acts2);
        lemma_counts_concat(acts0 + acts1 + acts2, acts3);
        lemma_counts_concat(acts0 + acts1 + acts2 + acts3, acts4);
    }

    assert forall|b: Address| #[trigger] acts.contains(Action::TriggerRavRequest(b))
        implies acts3.contains(Action::TriggerRavRequest(b)) by {
        lemma_contains_concat(acts0 + acts1 + acts2 + acts3, acts4, Action::TriggerRavRequest(b));
        lemma_contains_concat(acts0 + acts1 + acts2, acts3, Action::TriggerRavRequest(b));
        lemma_contains_concat(acts0 + acts1, acts2, Action::TriggerRavRequest(b));
        lemma_contains_concat(acts0, acts1, Action::TriggerRavRequest(b));
        lemma_no_trigger_in(acts0, b);
        lemma_no_trigger_in(acts1, b);
        lemma_no_trigger_in(acts2, b);
        lemma_no_trigger_in(acts4, b);
    }
    assert forall|b: Address| #[trigger] acts3.contains(Action::TriggerRavRequest(b))
        implies acts.contains(Action::TriggerRavRequest(b)) by {
        lemma_contains_concat(acts0 + acts1 + acts2, acts3, Action::TriggerRavRequest(b));
        lemma_contains_concat(acts0 + acts1 + acts2 + acts3, acts4, Action::TriggerRavRequest(b));
    }
    if triggered {
        let t = target->0;
        assert(acts3[0] == Action::TriggerRavRequest(t));
        assert(acts3.contains(Action::TriggerRavRequest(t)));
        assert forall|b: Address| #[trigger] acts3.contains(Action::TriggerRavRequest(b))
            implies b == t by {
            if b != t {
                let i = choose|i: int|
                    0 <= i < acts3.len() && acts3[i] == Action::TriggerRavRequest(b);
            }
        }
    } else {
        assert forall|b: Address| !#[trigger] acts3.contains(Action::TriggerRavRequest(b)) by {
            if acts3.contains(Action::TriggerRavRequest(b)) {
                let i = choose|i: int|
                    0 <= i < acts3.len() && acts3[i] == Action::TriggerRavRequest(b);
            }
        }
    }
}

/// Law: for every allocation, at most one voucher request is outstanding.
/// A handler run emits at most one trigger; a trigger leaves the mark set; a
/// mark appears only together with a trigger; only the response for the same
/// allocation clears a mark; and no trigger is emitted for an allocation
/// whose request is still outstanding, unless this very message was its
/// response.
pub proof fn lemma_single_rav_request(s: AccountModel, ev: EventModel, now: u64)
    requires
        model_wf(s),
        event_requires(s, ev),
    ensures
        ({
            let (s2, acts) = step(s, ev, now);
            &&& count_rav_triggers(acts) <= 1
            &&& forall|b: Address| acts.contains(Action::TriggerRavRequest(b)) ==> in_flight_of(
                s2.sender_fees,
                b,
            )
            &&& forall|b: Address| in_flight_of(s2.sender_fees, b) && !in_flight_of(
                s.sender_fees,
                b,
            ) ==> acts.contains(Action::TriggerRavRequest(b))
            &&& forall|b: Address| in_flight_of(s.sender_fees, b) && !in_flight_of(
                s2.sender_fees,
                b,
            ) ==> (ev matches EventModel::Message(MessageModel::UpdateReceiptFees(aa, ff))
                && ff is RavRequestResponse && aa == b)
            &&& forall|b: Address| in_flight_of(s.sender_fees, b) && !(ev matches
                EventModel::Message(MessageModel::UpdateReceiptFees(aa, ff))
                && ff is RavRequestResponse && aa == b) ==> !acts.contains(
                Action::TriggerRavRequest(b),
            )
        }),
{
    let (s2, acts) = step(s, ev, now);
    match ev {
        EventModel::Message(m) => match m {
            MessageModel::UpdateReceiptFees(a, fees) => {
                lemma_receipt_fees_flight(s, a, fees, now);
            },
            MessageModel::UpdateAllocationIds(ids) => {
                lemma_spawn_new_frame(s, ids, 0);
                let s_mid = spawn_new_from(s, ids, 0).0;
                lemma_stop_removed_marks(s_mid, s.allocation_ids, ids, 0);
                lemma_spawn_new_actions(s, ids, 0);
                lemma_stop_removed_actions(s_mid, s.allocation_ids, ids, 0);
                let x = spawn_new_from(s, ids, 0).1;
                let y = stop_removed_from(s_mid, s.allocation_ids, ids, 0).1;
                assert forall|k: int| 0 <= k < acts.len()
                    implies !(#[trigger] acts[k] is ScheduleRetry)
                        && !(acts[k] is TriggerRavRequest) by {
                    if k < x.len() {
                        assert(acts[k] == x[k]);
                    } else {
                        assert(acts[k] == y[k - x.len()]);
                    }
                }
                lemma_counts_of_parts(acts);
            },
            MessageModel::UpdateBalanceAndLastRavs(b, ravs) => {
                lemma_counts_of_parts(acts);
            },
            _ => {
                lemma_counts_of_parts(acts);
            },
        },
        EventModel::ChildTerminated(id) => {
            lemma_unblock_props(s.sender_fees, id);
            lemma_counts_of_parts(acts);
        },
        EventModel::ChildPanicked(id) => {
            lemma_counts_of_parts(acts);
        },
    }
}

/// Law: after every event from a consistent state — one whose deny flag
/// equals the deny condition — the flag again equals the condition, provided
/// invalid-receipt and voucher reports carry running (non-decreasing) values
/// for their allocation.
pub proof fn lemma_denied_matches_condition(s: AccountModel, ev: EventModel, now: u64)
    requires
        model_wf(s),
        event_requires(s, ev),
        s.denied == deny_condition(s),
        ev matches EventModel::Message(MessageModel::UpdateInvalidReceiptFees(a, u))
            ==> u.value >= value_of(s.invalid, a),
        ev matches EventModel::Message(MessageModel::UpdateRav(r)) ==> r.value_aggregate
            >= value_of(s.ravs, r.allocation_id),
    ensures
        step(s, ev, now).0.denied == deny_condition(step(s, ev, now).0),
{
    let s2 = step(s, ev, now).0;
    match ev {
        EventModel::Message(m) => match m {
            MessageModel::UpdateReceiptFees(a, fees) => {
                lemma_receipt_fees_deny(s, a, fees, now);
            },
            MessageModel::UpdateInvalidReceiptFees(a, u) => {
                lemma_update_props(s.invalid, a, u.value, 0);
                let s1 = AccountModel {
                    invalid: crate::fee_model::spec_update(s.invalid, a, u.value, 0),
                    ..s
                };
                assert(total_of(s1.invalid) >= total_of(s.invalid));
                if s.denied {
                    assert(deny_condition(s1));
                }
            },
            MessageModel::UpdateRav(r) => {
                lemma_update_props(s.ravs, r.allocation_id, r.value_aggregate, 0);
                let s1 = AccountModel {
                    ravs: crate::fee_model::spec_update(
                        s.ravs,
                        r.allocation_id,
                        r.value_aggregate,
                        0,
                    ),
                    ..s
                };
                assert(total_of(s1.ravs) >= total_of(s.ravs));
                if s.denied {
                    assert(deny_condition(s1));
                }
            },
            MessageModel::UpdateAllocationIds(ids) => {
                lemma_spawn_new_frame(s, ids, 0);
                let s_mid = spawn_new_from(s, ids, 0).0;
                lemma_stop_removed_frame(s_mid, s.allocation_ids, ids, 0);
                lemma_stop_removed_marks(s_mid, s.allocation_ids, ids, 0);
                assert(deny_condition(s2) == deny_condition(s));
            },
            MessageModel::NewAllocationId(id) => {
                assert(deny_condition(s2) == deny_condition(s));
            },
            MessageModel::UpdateBalanceAndLastRavs(b, ravs) => {},
        },
        EventModel::ChildTerminated(id) => {
            lemma_unblock_props(s.sender_fees, id);
            assert(deny_condition(s2) == deny_condition(s));
        },
        EventModel::ChildPanicked(id) => {},
    }
}

/// After `UpdateReceiptFees` the deny flag equals the condition — here even
/// without assuming a consistent pre-state, because the handler reconciles
/// in both directions.
proof fn lemma_receipt_fees_deny(s: AccountModel, a: Address, fees: ReceiptFees, now: u64)
    requires
        model_wf(s),
        event_requires(s, EventModel::Message(MessageModel::UpdateReceiptFees(a, fees))),
    ensures
        ({
            let s4 = crate::account_model::step_receipt_fees(s, a, fees, now).0;
            s4.denied == deny_condition(s4)
        }),
{
    let (s0, acts0) = crate::account_model::cancel_retry(s);
    let (s1, acts1) = crate::account_model::dispatch_receipt_fees(s0, a, fees, now);
    let (s2m, acts2) = crate::account_model::eager_deny(s1);
    let (s3, acts3) = crate::account_model::rav_trigger(s2m, a, now);
    let (s4, acts4) = crate::account_model::allow_or_retry(s3, a);
    lemma_dispatch_marks(s0, a, fees, now);
    assert(deny_condition(s2m) == deny_condition(s1));
    let counter_trigger = crate::fee_model::counter_outside_of(s2m.sender_fees, a, now as int)
        >= s2m.config.rav_request_receipt_limit && !in_flight_of(s2m.sender_fees, a);
    let value_trigger = crate::fee_model::total_outside_of(s2m.sender_fees, now as int)
        >= s2m.config.rav_request_trigger_value;
    let target: Option<Address> = if counter_trigger {
        Some(a)
    } else if value_trigger {
        crate::fee_model::heaviest_of(s2m.sender_fees, now as int)
    } else {
        None
    };
    if target is Some && s2m.children.contains(target->0) {
        lemma_start_rav_props(s2m.sender_fees, target->0);
        assert(total_of(s3.sender_fees) == total_of(s2m.sender_fees));
    }
    assert(deny_condition(s3) == deny_condition(s2m));
    if s3.denied && !deny_condition(s3) {
        assert(s4.denied == deny_condition(s4));
    } else if s3.denied && deny_condition(s3) {
        assert(s4.denied == deny_condition(s4));
    } else {
        assert(!s3.denied);
        assert(!s2m.denied);
        assert(!deny_condition(s1));
        assert(s4.denied == deny_condition(s4));
    }
}

/// Law: a receipt arriving while the sender is denied re-asserts the deny
/// list — a defence against the sender being removed from the store out of
/// band.
pub proof fn lemma_new_receipt_reasserts_denylist(s: AccountModel, a: Address, v: u128, now: u64)
    requires
        model_wf(s),
        event_requires(
            s,
            EventModel::Message(MessageModel::UpdateReceiptFees(a, ReceiptFees::NewReceipt(v))),
        ),
        s.denied,
    ensures
        step(
            s,
            EventModel::Message(MessageModel::UpdateReceiptFees(a, ReceiptFees::NewReceipt(v))),
            now,
        ).1.contains(Action::AddToDenyList),
{
    let fees = ReceiptFees::NewReceipt(v);
    let (s0, acts0) = crate::account_model::cancel_retry(s);
    let (s1, acts1) = crate::account_model::dispatch_receipt_fees(s0, a, fees, now);
    let (s2m, acts2) = crate::account_model::eager_deny(s1);
    let (s3, acts3) = crate::account_model::rav_trigger(s2m, a, now);
    let (s4, acts4) = crate::account_model::allow_or_retry(s3, a);
    let acts = acts0 + acts1 + acts2 + acts3 + acts4;
    assert(step(
        s,
        EventModel::Message(MessageModel::UpdateReceiptFees(a, fees)),
        now,
    ).1 == acts);
    assert(acts1 == seq![Action::AddToDenyList]);
    assert(acts1[0] == Action::AddToDenyList);
    assert(acts1.contains(Action::AddToDenyList));
    lemma_contains_concat(acts0, acts1, Action::AddToDenyList);
    lemma_contains_concat(acts0 + acts1, acts2, Action::AddToDenyList);
    lemma_contains_concat(acts0 + acts1 + acts2, acts3, Action::AddToDenyList);
    lemma_contains_concat(acts0 + acts1 + acts2 + acts3, acts4, Action::AddToDenyList);
}

/// Every open allocation has a live worker, and every worker belongs to an
/// open allocation or to one that is closing (blocked in the fee tracker).
pub open spec fn children_ok(s: AccountModel) -> bool {
    &&& forall|a: Address| s.allocation_ids.contains(a) ==> #[trigger] s.children.contains(a)
    &&& forall|c: Address| #[trigger] s.children.contains(c) ==> s.allocation_ids.contains(c)
        || blocked_of(s.sender_fees, c)
}

/// Law: worker consistency is preserved by every event — except an orderly
/// worker stop for an allocation that is still open, which the supervisor
/// never requests.
pub proof fn lemma_children_consistent(s: AccountModel, ev: EventModel, now: u64)
    requires
        model_wf(s),
        event_requires(s, ev),
        children_ok(s),
        ev matches EventModel::ChildTerminated(id) ==> !s.allocation_ids.contains(id),
    ensures
        children_ok(step(s, ev, now).0),
{
    let s2 = step(s, ev, now).0;
    match ev {
        EventModel::Message(m) => match m {
            MessageModel::UpdateReceiptFees(a, fees) => {
                let (s0, acts0) = crate::account_model::cancel_retry(s);
                lemma_dispatch_marks(s0, a, fees, now);
                let s1 = crate::account_model::dispatch_receipt_fees(s0, a, fees, now).0;
                let s2m = crate::account_model::eager_deny(s1).0;
                let counter_trigger = crate::fee_model::counter_outside_of(
                    s2m.sender_fees,
                    a,
                    now as int,
                ) >= s2m.config.rav_request_receipt_limit && !in_flight_of(s2m.sender_fees, a);
                let value_trigger = crate::fee_model::total_outside_of(s2m.sender_fees, now as int)
                    >= s2m.config.rav_request_trigger_value;
                let target: Option<Address> = if counter_trigger {
                    Some(a)
                } else if value_trigger {
                    crate::fee_model::heaviest_of(s2m.sender_fees, now as int)
                } else {
                    None
                };
                if target is Some && s2m.children.contains(target->0) {
                    lemma_start_rav_props(s2m.sender_fees, target->0);
                }
                assert forall|c: Address| #[trigger] s2.children.contains(c)
                    implies s2.allocation_ids.contains(c) || blocked_of(s2.sender_fees, c) by {
                    assert(blocked_of(s2.sender_fees, c) == blocked_of(s.sender_fees, c));
                }
            },
            MessageModel::UpdateAllocationIds(ids) => {
                lemma_spawn_new_frame(s, ids, 0);
                lemma_spawn_new_children(s, ids, 0);
                let s_mid = spawn_new_from(s, ids, 0).0;
                lemma_stop_removed_frame(s_mid, s.allocation_ids, ids, 0);
                lemma_stop_removed_marks(s_mid, s.allocation_ids, ids, 0);
                assert(ids.skip(0) =~= ids);
                assert(s.allocation_ids.skip(0) =~= s.allocation_ids);
                assert forall|a: Address| s2.allocation_ids.contains(a)
                    implies #[trigger] s2.children.contains(a) by {
                    if s.allocation_ids.contains(a) {
                        assert(s.children.contains(a));
                    }
                }
                assert forall|c: Address| #[trigger] s2.children.contains(c)
                    implies s2.allocation_ids.contains(c) || blocked_of(s2.sender_fees, c) by {
                    if s.children.contains(c) {
                        if !ids.contains(c) {
                            if blocked_of(s.sender_fees, c) {
                            } else {
                                assert(s.allocation_ids.contains(c));
                                assert(s_mid.children.contains(c));
                            }
                        }
                    }
                }
            },
            MessageModel::NewAllocationId(id) => {
                if !s.allocation_ids.contains(id) {
                    lemma_push_if_absent(s.children, id);
                    assert(s2.allocation_ids == s.allocation_ids.push(id));
                    assert(s2.children == push_if_absent(s.children, id));
                    assert(s2.children.contains(id));
                    assert forall|a: Address| s2.allocation_ids.contains(a)
                        implies #[trigger] s2.children.contains(a) by {
                        if a != id {
                            let i = choose|i: int|
                                0 <= i < s2.allocation_ids.len() && s2.allocation_ids[i] == a;
                            assert(i < s.allocation_ids.len());
                            assert(s.allocation_ids[i] == a);
                            assert(s.allocation_ids.contains(a));
                            assert(s.children.contains(a));
                            assert(push_if_absent(s.children, id).contains(a));
                        }
                    }
                    assert forall|c: Address| #[trigger] s2.children.contains(c)
                        implies s2.allocation_ids.contains(c) || blocked_of(s2.sender_fees, c) by {
                        if c == id {
                            assert(s2.allocation_ids[s.allocation_ids.len() as int] == id);
                        } else {
                            assert(push_if_absent(s.children, id).contains(c));
                            assert(s.children.contains(c));
                            if s.allocation_ids.contains(c) {
                                let i = choose|i: int|
                                    0 <= i < s.allocation_ids.len() && s.allocation_ids[i] == c;
                                assert(s2.allocation_ids[i] == c);
                                assert(s2.allocation_ids.contains(c));
                            } else {
                                assert(blocked_of(s.sender_fees, c));
                                assert(s2.sender_fees == s.sender_fees);
                            }
                        }
                    }
                }
            },
            _ => {
                assert(s2.children == s.children);
                assert(s2.allocation_ids == s.allocation_ids);
                assert(s2.sender_fees == s.sender_fees);
            },
        },
        EventModel::ChildTerminated(id) => {
            lemma_unblock_props(s.sender_fees, id);
            lemma_remove_addr(s.children, id);
            assert forall|a: Address| s2.allocation_ids.contains(a)
                implies #[trigger] s2.children.contains(a) by {
                assert(a != id);
                assert(s.children.contains(a));
            }
            assert forall|c: Address| #[trigger] s2.children.contains(c)
                implies s2.allocation_ids.contains(c) || blocked_of(s2.sender_fees, c) by {
                assert(c != id);
                assert(s.children.contains(c));
                assert(blocked_of(s2.sender_fees, c) == blocked_of(s.sender_fees, c));
            }
        },
        EventModel::ChildPanicked(id) => {},
    }
}

/// Law: opening one allocation and then reconciling against the set holding
/// exactly that allocation is the same as reconciling directly: the states
/// agree, and together both runs perform the same actions.
pub proof fn lemma_new_then_update_equivalent(s: AccountModel, id: Address, now1: u64, now2: u64)
    requires
        model_wf(s),
    ensures
        ({
            let (sa1, aa1) = step(s, EventModel::Message(MessageModel::NewAllocationId(id)), now1);
            let (sa2, aa2) = step(
                sa1,
                EventModel::Message(MessageModel::UpdateAllocationIds(seq![id])),
                now2,
            );
            let (sb, ab) = step(
                s,
                EventModel::Message(MessageModel::UpdateAllocationIds(seq![id])),
                now2,
            );
            &&& sa2 == sb
            &&& aa1 + aa2 == ab
        }),
{
    let ids = seq![id];
    assert(ids[0] == id);
    assert(ids.contains(id));
    let (sa1, aa1) = step(s, EventModel::Message(MessageModel::NewAllocationId(id)), now1);
    let (sa2, aa2) = step(sa1, EventModel::Message(MessageModel::UpdateAllocationIds(ids)), now2);
    let (sb, ab) = step(s, EventModel::Message(MessageModel::UpdateAllocationIds(ids)), now2);
    if s.allocation_ids.contains(id) {
        assert(sa1 == s);
        assert(aa1 == Seq::<Action>::empty());
        assert(aa1 + aa2 =~= ab);
    } else {
        // Path A: the first message spawns the worker and opens the
        // allocation; the second spawns nothing and stops the other workers.
        assert(sa1 == AccountModel {
            allocation_ids: s.allocation_ids.push(id),
            children: push_if_absent(s.children, id),
            ..s
        });
        assert(aa1 == seq![Action::SpawnAllocation(id)]);
        assert(sa1.allocation_ids[s.allocation_ids.len() as int] == id);
        assert(sa1.allocation_ids.contains(id));
        lemma_spawn_identity(sa1, ids, 0);
        let (sa_stop, aa_stop) = stop_removed_from(sa1, sa1.allocation_ids, ids, 0);
        assert(sa2 == AccountModel { allocation_ids: ids, ..sa_stop });
        assert(aa2 =~= aa_stop);

        // Path B: the one message spawns the worker and stops the others.
        let sb1 = AccountModel { children: push_if_absent(s.children, id), ..s };
        assert(spawn_new_from(sb1, ids, 1).0 == sb1);
        assert(spawn_new_from(sb1, ids, 1).1 == Seq::<Action>::empty());
        assert(spawn_new_from(s, ids, 0).0 == sb1);
        assert(spawn_new_from(s, ids, 0).1 =~= seq![Action::SpawnAllocation(id)]);
        let (sb_stop, ab_stop) = stop_removed_from(sb1, s.allocation_ids, ids, 0);
        assert(sb == AccountModel { allocation_ids: ids, ..sb_stop });
        assert(ab =~= seq![Action::SpawnAllocation(id)] + ab_stop);

        // The two stop runs agree: path A's trailing element is skipped, and
        // the open-allocation list is not read by the stop phase.
        assert(sa1 == AccountModel { allocation_ids: s.allocation_ids.push(id), ..sb1 });
        lemma_stop_alloc_ids_congruence(sb1, s.allocation_ids.push(id), sa1.allocation_ids, ids, 0);
        lemma_stop_push_skip(
            AccountModel { allocation_ids: s.allocation_ids.push(id), ..sb1 },
            s.allocation_ids,
            id,
            ids,
            0,
        );
        lemma_stop_alloc_ids_congruence(
            sb1,
            s.allocation_ids.push(id),
            s.allocation_ids,
            ids,
            0,
        );
        assert(sa_stop == AccountModel { allocation_ids: s.allocation_ids.push(id), ..sb_stop });
        assert(aa_stop == ab_stop);
        assert(sa2 =~~= sb);
        assert(aa1 + aa2 =~= ab);
    }
}

} // verus!
