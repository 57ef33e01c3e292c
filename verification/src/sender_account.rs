//! The sender supervisor: per-sender accounting and deny/allow decisions.
//!
//! A `SenderAccount` owns the three fee trackers of one sender, the set of
//! open allocations and the deny state.  A runtime feeds it messages and
//! supervision events through [`SenderAccount::handle`],
//! [`SenderAccount::handle_child_terminated`] and
//! [`SenderAccount::handle_child_panicked`], and performs the returned
//! [`Action`]s.  Every handler refines the model transition
//! [`crate::account_model::step`].

use vstd::prelude::*;
use crate::account_model::{
    AccountModel, EventModel, MessageModel, allocations_of, allow_or_retry, cancel_retry,
    deny_condition, dispatch_receipt_fees, distinct_addrs, eager_deny, event_requires,
    lemma_find_addr, lemma_push_if_absent, lemma_remove_addr, lemma_spawn_new_frame,
    lemma_sum_rav_prefix, model_wf, push_if_absent, rav_keys_contain, rav_trigger,
    remove_addr, set_ravs_from, spawn_new_from, step, step_allocation_ids,
    step_balance_and_last_ravs, step_child_panicked, step_child_terminated,
    step_invalid_receipt_fees, step_new_allocation_id, step_receipt_fees, step_update_rav,
    stop_removed_from, sum_rav_values, zero_stale_from,
};
use crate::address::{Address, Balance, fee_sum_reaches_balance, fee_sum_reaches_cap};
use crate::fee_model::{
    lemma_finish_rav_props, lemma_ok_rav_props, lemma_update_props, lemma_value_of_bounds,
    total_of, value_of,
};
use crate::messages::{Action, ReceiptFees, SenderAccountConfig, SenderAccountMessage};
use crate::receipts::{Rav, UnaggregatedReceipts};
use crate::sender_fee_tracker::SenderFeeTracker;

verus! {

/// Whether `a` occurs in `v`.
fn contains_addr(v: &Vec<Address>, a: Address) -> (r: bool)
    ensures
        r == v@.contains(a),
{
    let mut i: usize = 0;
    while i < v.len()
        invariant
            i <= v.len(),
            forall|j: int| 0 <= j < i ==> v@[j] != a,
        decreases v.len() - i,
    {
        if v[i] == a {
            return true;
        }
        i = i + 1;
    }
    false
}

/// Whether `a` occurs among the keys of `v`.
fn contains_rav_key(v: &Vec<(Address, u128)>, a: Address) -> (r: bool)
    ensures
        r == rav_keys_contain(v@, a),
{
    let mut i: usize = 0;
    while i < v.len()
        invariant
            i <= v.len(),
            forall|j: int| 0 <= j < i ==> #[trigger] v@[j].0 != a,
        decreases v.len() - i,
    {
        if v[i].0 == a {
            return true;
        }
        i = i + 1;
    }
    false
}

/// Append `a` unless present.
fn push_absent(v: &mut Vec<Address>, a: Address)
    ensures
        final(v)@ == push_if_absent(old(v)@, a),
{
    if !contains_addr(v, a) {
        v.push(a);
    }
}

/// Remove the first occurrence of `a`, if any.
fn remove_first(v: &mut Vec<Address>, a: Address)
    ensures
        final(v)@ == remove_addr(old(v)@, a),
{
    proof {
        lemma_find_addr(v@, a);
    }
    let ghost s = v@;
    let mut i: usize = 0;
    while i < v.len()
        invariant
            i <= v.len(),
            v@ == s,
            s == old(v)@,
            forall|j: int| 0 <= j < i ==> s[j] != a,
        decreases v.len() - i,
    {
        if v[i] == a {
            proof {
                lemma_find_addr(s, a);
                assert(s[i as int] == a);
            }
            v.remove(i);
            return ;
        }
        i = i + 1;
    }
}

/// Arguments to create one sender supervisor: the plain values a runtime
/// loads from its store and escrow view at start-up.
pub struct SenderAccountArgs {
    /// The sender this supervisor accounts for.
    pub sender_id: Address,
    /// The allocations open at start-up, duplicate-free.
    pub allocation_ids: Vec<Address>,
    /// Whether the sender is on the persisted deny list.
    pub denied: bool,
    /// The sender's escrow balance.
    pub sender_balance: Balance,
    /// The configured thresholds and intervals.
    pub config: SenderAccountConfig,
}

/// The per-sender supervisor state.
pub struct SenderAccount {
    sender: Address,
    config: SenderAccountConfig,
    sender_fee_tracker: SenderFeeTracker,
    rav_tracker: SenderFeeTracker,
    invalid_receipts_tracker: SenderFeeTracker,
    allocation_ids: Vec<Address>,
    children: Vec<Address>,
    denied: bool,
    sender_balance: Balance,
    retry_scheduled: bool,
}

impl View for SenderAccount {
    type V = AccountModel;

    closed spec fn view(&self) -> AccountModel {
        AccountModel {
            sender: self.sender,
            config: self.config,
            sender_fees: self.sender_fee_tracker@,
            ravs: self.rav_tracker@,
            invalid: self.invalid_receipts_tracker@,
            allocation_ids: self.allocation_ids@,
            children: self.children@,
            denied: self.denied,
            balance: self.sender_balance,
            retry_scheduled: self.retry_scheduled,
        }
    }
}

impl SenderAccount {
    /// Well-formedness: the trackers are well-formed (including their
    /// cached totals) and the identifier lists are duplicate-free; it
    /// implies `model_wf(self@)`.
    pub closed spec fn wf(&self) -> bool {
        &&& self.sender_fee_tracker.wf()
        &&& self.rav_tracker.wf()
        &&& self.invalid_receipts_tracker.wf()
        &&& distinct_addrs(self@.allocation_ids)
        &&& distinct_addrs(self@.children)
    }

    /// A fresh supervisor, together with the spawn action for every open
    /// allocation.  The deny flag and balance are what the runtime loaded;
    /// the first escrow update reconciles them against the deny condition.
    pub fn new(args: SenderAccountArgs) -> (r: (SenderAccount, Vec<Action>))
        requires
            distinct_addrs(args.allocation_ids@),
        ensures
            r.0.wf(),
            r.0@.sender == args.sender_id,
            r.0@.config == args.config,
            r.0@.sender_fees.entries.len() == 0,
            r.0@.sender_fees.buffer_ms == args.config.rav_request_timestamp_buffer_ms,
            r.0@.ravs.entries.len() == 0,
            r.0@.invalid.entries.len() == 0,
            r.0@.allocation_ids == args.allocation_ids@,
            r.0@.children == args.allocation_ids@,
            r.0@.denied == args.denied,
            r.0@.balance == args.sender_balance,
            !r.0@.retry_scheduled,
            r.1@.len() == args.allocation_ids@.len(),
            forall|i: int| 0 <= i < r.1@.len()
                ==> r.1@[i] == Action::SpawnAllocation(args.allocation_ids@[i]),
    {
        let SenderAccountArgs { sender_id, allocation_ids, denied, sender_balance, config } = args;
        let mut actions: Vec<Action> = Vec::new();
        let mut children: Vec<Address> = Vec::new();
        let mut i: usize = 0;
        while i < allocation_ids.len()
            invariant
                i <= allocation_ids.len(),
                children@ == allocation_ids@.take(i as int),
                actions@.len() == i,
                forall|j: int| 0 <= j < i
                    ==> actions@[j] == Action::SpawnAllocation(allocation_ids@[j]),
            decreases allocation_ids.len() - i,
        {
            let id = allocation_ids[i];
            children.push(id);
            actions.push(Action::SpawnAllocation(id));
            proof {
                assert(children@ =~= allocation_ids@.take(i + 1));
            }
            i = i + 1;
        }
        proof {
            assert(children@ =~= allocation_ids@);
        }
        let account = SenderAccount {
            sender: sender_id,
            config,
            sender_fee_tracker: SenderFeeTracker::new(config.rav_request_timestamp_buffer_ms),
            rav_tracker: SenderFeeTracker::new(0),
            invalid_receipts_tracker: SenderFeeTracker::new(0),
            allocation_ids,
            children,
            denied,
            sender_balance,
            retry_scheduled: false,
        };
        (account, actions)
    }

    /// Whether the sender is currently denied.
    pub fn get_deny(&self) -> (r: bool)
        ensures
            r == self@.denied,
    {
        self.denied
    }

    /// Whether a retry timer is pending.
    pub fn is_scheduler_enabled(&self) -> (r: bool)
        ensures
            r == self@.retry_scheduled,
    {
        self.retry_scheduled
    }

    /// The sender's escrow balance as last reported.
    pub fn get_sender_balance(&self) -> (r: Balance)
        ensures
            r == self@.balance,
    {
        self.sender_balance
    }

    /// The tracker of unaggregated receipt fees.
    pub fn get_sender_fee_tracker(&self) -> (r: &SenderFeeTracker)
        requires
            self.wf(),
        ensures
            r.wf(),
            r@ == self@.sender_fees,
    {
        &self.sender_fee_tracker
    }

    /// The tracker of pending voucher values.
    pub fn get_rav_tracker(&self) -> (r: &SenderFeeTracker)
        requires
            self.wf(),
        ensures
            r.wf(),
            r@ == self@.ravs,
    {
        &self.rav_tracker
    }

    /// The tracker of invalid-receipt values.
    pub fn get_invalid_receipts_tracker(&self) -> (r: &SenderFeeTracker)
        requires
            self.wf(),
        ensures
            r.wf(),
            r@ == self@.invalid,
    {
        &self.invalid_receipts_tracker
    }

    /// The open allocations, in arrival order.
    pub fn get_allocation_ids(&self) -> (r: &Vec<Address>)
        ensures
            r@ == self@.allocation_ids,
    {
        &self.allocation_ids
    }

    /// Whether the deny condition holds of the current state.
    pub fn deny_condition_reached(&self) -> (r: bool)
        requires
            self.wf(),
        ensures
            r == deny_condition(self@),
    {
        let unaggregated = self.sender_fee_tracker.get_total_fee();
        let invalid = self.invalid_receipts_tracker.get_total_fee();
        let pending = self.rav_tracker.get_total_fee();
        let over_cap = fee_sum_reaches_cap(
            unaggregated,
            invalid,
            self.config.max_unaggregated_fees_per_sender,
        );
        let over_balance = fee_sum_reaches_balance(unaggregated, pending, &self.sender_balance);
        over_cap || over_balance
    }

    /// Deny the sender if the condition holds and it is not denied yet.
    fn eager_deny_exec(&mut self, actions: &mut Vec<Action>)
        requires
            old(self).wf(),
        ensures
            final(self).wf(),
            final(self)@ == eager_deny(old(self)@).0,
            final(actions)@ == old(actions)@ + eager_deny(old(self)@).1,
    {
        if !self.denied && self.deny_condition_reached() {
            self.denied = true;
            actions.push(Action::AddToDenyList);
            proof {
                assert(self@ =~~= eager_deny(old(self)@).0);
                assert(actions@ =~= old(actions)@ + eager_deny(old(self)@).1);
            }
        } else {
            proof {
                assert(self@ =~~= eager_deny(old(self)@).0);
                assert(actions@ =~= old(actions)@ + eager_deny(old(self)@).1);
            }
        }
    }

    /// Handle `UpdateInvalidReceiptFees`.
    fn handle_update_invalid_receipt_fees(
        &mut self,
        allocation_id: Address,
        fees: UnaggregatedReceipts,
    ) -> (actions: Vec<Action>)
        requires
            old(self).wf(),
            total_of(old(self)@.invalid) - value_of(old(self)@.invalid, allocation_id)
                + fees.value <= u128::MAX,
        ensures
            final(self).wf(),
            final(self)@ == step_invalid_receipt_fees(old(self)@, allocation_id, fees).0,
            actions@ == step_invalid_receipt_fees(old(self)@, allocation_id, fees).1,
    {
        let mut actions: Vec<Action> = Vec::new();
        self.invalid_receipts_tracker.update(allocation_id, fees.value, 0);
        proof {
            let s1 = AccountModel {
                invalid: crate::fee_model::spec_update(old(self)@.invalid, allocation_id, fees.value, 0),
                ..old(self)@
            };
            assert(self@ =~~= s1);
        }
        self.eager_deny_exec(&mut actions);
        proof {
            assert(actions@ =~= step_invalid_receipt_fees(old(self)@, allocation_id, fees).1);
        }
        actions
    }

    /// Handle `UpdateRav`.
    fn handle_update_rav(&mut self, rav: Rav) -> (actions: Vec<Action>)
        requires
            old(self).wf(),
            total_of(old(self)@.ravs) - value_of(old(self)@.ravs, rav.allocation_id)
                + rav.value_aggregate <= u128::MAX,
        ensures
            final(self).wf(),
            final(self)@ == step_update_rav(old(self)@, rav).0,
            actions@ == step_update_rav(old(self)@, rav).1,
    {
        let mut actions: Vec<Action> = Vec::new();
        self.rav_tracker.update(rav.allocation_id, rav.value_aggregate, 0);
        proof {
            let s1 = AccountModel {
                ravs: crate::fee_model::spec_update(
                    old(self)@.ravs,
                    rav.allocation_id,
                    rav.value_aggregate,
                    0,
                ),
                ..old(self)@
            };
            assert(self@ =~~= s1);
        }
        self.eager_deny_exec(&mut actions);
        proof {
            assert(actions@ =~= step_update_rav(old(self)@, rav).1);
        }
        actions
    }

    /// Handle `NewAllocationId`.
    fn handle_new_allocation_id(&mut self, allocation_id: Address) -> (actions: Vec<Action>)
        requires
            old(self).wf(),
        ensures
            final(self).wf(),
            final(self)@ == step_new_allocation_id(old(self)@, allocation_id).0,
            actions@ == step_new_allocation_id(old(self)@, allocation_id).1,
    {
        let mut actions: Vec<Action> = Vec::new();
        if !contains_addr(&self.allocation_ids, allocation_id) {
            push_absent(&mut self.children, allocation_id);
            self.allocation_ids.push(allocation_id);
            actions.push(Action::SpawnAllocation(allocation_id));
            proof {
                let s = old(self)@;
                lemma_push_if_absent(s.children, allocation_id);
                assert forall|i: int, j: int|
                    0 <= i < j < s.allocation_ids.push(allocation_id).len()
                    implies s.allocation_ids.push(allocation_id)[i]
                        != s.allocation_ids.push(allocation_id)[j] by {
                    if j == s.allocation_ids.len() {
                        if s.allocation_ids[i] == allocation_id {
                            assert(s.allocation_ids.contains(allocation_id));
                        }
                    }
                }
                assert(self@ =~~= step_new_allocation_id(old(self)@, allocation_id).0);
                assert(actions@ =~= step_new_allocation_id(old(self)@, allocation_id).1);
            }
        } else {
            proof {
                assert(self@ =~~= step_new_allocation_id(old(self)@, allocation_id).0);
                assert(actions@ =~= step_new_allocation_id(old(self)@, allocation_id).1);
            }
        }
        actions
    }

    /// Handle `UpdateReceiptFees`, the heart of the voucher scheduling
    /// policy: cancel any pending retry, apply the report, deny eagerly
    /// before any voucher request, run the two triggers (receipt limit on
    /// this allocation, value over all allocations), then allow the sender
    /// again or re-arm the retry timer.
    fn handle_update_receipt_fees(
        &mut self,
        allocation_id: Address,
        fees: ReceiptFees,
        now_ms: u64,
    ) -> (actions: Vec<Action>)
        requires
            old(self).wf(),
            event_requires(
                old(self)@,
                EventModel::Message(MessageModel::UpdateReceiptFees(allocation_id, fees)),
            ),
        ensures
            final(self).wf(),
            final(self)@ == step_receipt_fees(old(self)@, allocation_id, fees, now_ms).0,
            actions@ == step_receipt_fees(old(self)@, allocation_id, fees, now_ms).1,
    {
        let ghost s = old(self)@;
        let mut actions: Vec<Action> = Vec::new();

        // A new report cancels the pending retry timer, if any.
        if self.retry_scheduled {
            self.retry_scheduled = false;
            actions.push(Action::CancelRetry);
        }
        let ghost s0 = cancel_retry(s).0;
        let ghost acts0 = cancel_retry(s).1;
        proof {
            assert(self@ =~~= s0);
            assert(actions@ =~= acts0);
        }

        match fees {
            ReceiptFees::NewReceipt(v) => {
                if self.denied {
                    // A receipt while denied means the deny list was
                    // tampered with out of band: re-assert it.
                    actions.push(Action::AddToDenyList);
                }
                self.sender_fee_tracker.add(allocation_id, v, now_ms);
            },
            ReceiptFees::UpdateValue(u) => {
                self.sender_fee_tracker.update(allocation_id, u.value, u.counter);
            },
            ReceiptFees::RavRequestResponse(res) => {
                self.sender_fee_tracker.finish_rav_request(allocation_id);
                match res {
                    Ok((u, rav)) => {
                        proof {
                            lemma_finish_rav_props(s0.sender_fees, allocation_id);
                            lemma_ok_rav_props(
                                crate::fee_model::spec_finish_rav(s0.sender_fees, allocation_id),
                                allocation_id,
                            );
                        }
                        self.sender_fee_tracker.ok_rav_request(allocation_id);
                        let rav_value: u128 = match rav {
                            Some(r) => r.value_aggregate,
                            None => 0,
                        };
                        self.rav_tracker.update(allocation_id, rav_value, 0);
                        self.sender_fee_tracker.update(allocation_id, u.value, u.counter);
                    },
                    Err(_e) => {
                        self.sender_fee_tracker.failed_rav_backoff(
                            allocation_id,
                            self.config.retry_interval_ms,
                            now_ms,
                        );
                    },
                }
            },
            ReceiptFees::Retry => {},
        }
        let ghost s1 = dispatch_receipt_fees(s0, allocation_id, fees, now_ms).0;
        let ghost acts1 = dispatch_receipt_fees(s0, allocation_id, fees, now_ms).1;
        proof {
            assert(self@ =~~= s1);
            assert(actions@ =~= acts0 + acts1);
        }

        // Deny eagerly, before any voucher request, so that a slow request
        // cannot delay the denial.
        self.eager_deny_exec(&mut actions);
        let ghost s2 = eager_deny(s1).0;
        let ghost acts2 = eager_deny(s1).1;
        proof {
            assert(actions@ =~= (acts0 + acts1) + acts2);
        }

        let counter_outside = self.sender_fee_tracker
            .get_total_counter_outside_buffer_for_allocation(allocation_id, now_ms);
        let running = self.sender_fee_tracker
            .check_allocation_has_rav_request_running(allocation_id);
        let counter_trigger = counter_outside >= self.config.rav_request_receipt_limit
            && !running;
        let total_outside = self.sender_fee_tracker.get_total_fee_outside_buffer(now_ms);
        let value_trigger = total_outside >= self.config.rav_request_trigger_value;
        let target: Option<Address> = if counter_trigger {
            Some(allocation_id)
        } else if value_trigger {
            self.sender_fee_tracker.get_heaviest_allocation_id(now_ms)
        } else {
            None
        };
        match target {
            Some(t) => {
                if contains_addr(&self.children, t) {
                    proof {
                        if !counter_trigger {
                            crate::fee_model::lemma_heaviest_of_props(
                                s2.sender_fees,
                                now_ms as int,
                            );
                        }
                    }
                    self.sender_fee_tracker.start_rav_request(t);
                    actions.push(Action::TriggerRavRequest(t));
                }
            },
            None => {},
        }
        let ghost s3 = rav_trigger(s2, allocation_id, now_ms).0;
        let ghost acts3 = rav_trigger(s2, allocation_id, now_ms).1;
        proof {
            assert(self@ =~~= s3);
            assert(actions@ =~= ((acts0 + acts1) + acts2) + acts3);
        }

        // Allow the sender again right after a potential voucher request, or
        // re-arm the retry timer while the condition still holds.
        let cond = self.deny_condition_reached();
        if self.denied && !cond {
            self.denied = false;
            actions.push(Action::RemoveFromDenyList);
        } else if self.denied && cond {
            self.retry_scheduled = true;
            actions.push(Action::ScheduleRetry(allocation_id));
        }
        let ghost s4 = allow_or_retry(s3, allocation_id).0;
        let ghost acts4 = allow_or_retry(s3, allocation_id).1;
        proof {
            assert(self@ =~~= s4);
            assert(actions@ =~= (((acts0 + acts1) + acts2) + acts3) + acts4);
            assert(actions@ =~= acts0 + acts1 + acts2 + acts3 + acts4);
            assert(self@ =~~= step_receipt_fees(s, allocation_id, fees, now_ms).0);
            assert(actions@ =~= step_receipt_fees(s, allocation_id, fees, now_ms).1);
        }
        actions
    }

    /// Handle `UpdateAllocationIds`: spawn a worker for every incoming
    /// allocation not open yet, stop (after blocking) every worker whose
    /// allocation left the set, and adopt the new set.
    fn handle_update_allocation_ids(&mut self, allocation_ids: Vec<Address>) -> (actions: Vec<Action>)
        requires
            old(self).wf(),
            distinct_addrs(allocation_ids@),
        ensures
            final(self).wf(),
            final(self)@ == step_allocation_ids(old(self)@, allocation_ids@).0,
            actions@ == step_allocation_ids(old(self)@, allocation_ids@).1,
    {
        let ghost s = old(self)@;
        let ghost ids = allocation_ids@;
        let mut actions: Vec<Action> = Vec::new();

        let mut i: usize = 0;
        while i < allocation_ids.len()
            invariant
                i <= allocation_ids.len(),
                ids == allocation_ids@,
                s == old(self)@,
                self.wf(),
                spawn_new_from(s, ids, 0).0 == spawn_new_from(self@, ids, i as int).0,
                spawn_new_from(s, ids, 0).1 == actions@ + spawn_new_from(self@, ids, i as int).1,
            decreases allocation_ids.len() - i,
        {
            let ghost pre = self@;
            let ghost acts_pre = actions@;
            let id = allocation_ids[i];
            if !contains_addr(&self.allocation_ids, id) {
                push_absent(&mut self.children, id);
                actions.push(Action::SpawnAllocation(id));
                proof {
                    lemma_push_if_absent(pre.children, id);
                }
            }
            proof {
                let (s1, a1) = if pre.allocation_ids.contains(ids[i as int]) {
                    (pre, Seq::<Action>::empty())
                } else {
                    (
                        AccountModel { children: push_if_absent(pre.children, ids[i as int]), ..pre },
                        seq![Action::SpawnAllocation(ids[i as int])],
                    )
                };
                assert(self@ =~~= s1);
                assert(actions@ =~= acts_pre + a1);
                assert(spawn_new_from(pre, ids, i as int).0 == spawn_new_from(s1, ids, i + 1).0);
                assert(spawn_new_from(pre, ids, i as int).1
                    =~= a1 + spawn_new_from(s1, ids, i + 1).1);
                assert(acts_pre + (a1 + spawn_new_from(s1, ids, i + 1).1)
                    =~= (acts_pre + a1) + spawn_new_from(s1, ids, i + 1).1);
            }
            i = i + 1;
        }
        let ghost s_mid = spawn_new_from(s, ids, 0).0;
        let ghost acts_spawn = spawn_new_from(s, ids, 0).1;
        proof {
            assert(s_mid == self@);
            assert(acts_spawn =~= actions@ + Seq::<Action>::empty());
            assert(acts_spawn == actions@);
            lemma_spawn_new_frame(s, ids, 0);
        }

        let ghost olds = s.allocation_ids;
        let mut k: usize = 0;
        while k < self.allocation_ids.len()
            invariant
                k <= self.allocation_ids.len(),
                ids == allocation_ids@,
                s == old(self)@,
                olds == s.allocation_ids,
                self@.allocation_ids == olds,
                self.wf(),
                s_mid == spawn_new_from(s, ids, 0).0,
                acts_spawn == spawn_new_from(s, ids, 0).1,
                stop_removed_from(s_mid, olds, ids, 0).0
                    == stop_removed_from(self@, olds, ids, k as int).0,
                acts_spawn + stop_removed_from(s_mid, olds, ids, 0).1
                    == actions@ + stop_removed_from(self@, olds, ids, k as int).1,
            decreases self.allocation_ids.len() - k,
        {
            let ghost pre = self@;
            let ghost acts_pre = actions@;
            let id = self.allocation_ids[k];
            if !contains_addr(&allocation_ids, id) && contains_addr(&self.children, id) {
                self.sender_fee_tracker.block_allocation_id(id);
                actions.push(Action::StopAllocation(id));
            }
            proof {
                let (s1, a1) = if !ids.contains(olds[k as int])
                    && pre.children.contains(olds[k as int]) {
                    (
                        AccountModel {
                            sender_fees: crate::fee_model::spec_block(
                                pre.sender_fees,
                                olds[k as int],
                            ),
                            ..pre
                        },
                        seq![Action::StopAllocation(olds[k as int])],
                    )
                } else {
                    (pre, Seq::<Action>::empty())
                };
                assert(self@ =~~= s1);
                assert(actions@ =~= acts_pre + a1);
                assert(stop_removed_from(pre, olds, ids, k as int).0
                    == stop_removed_from(s1, olds, ids, k + 1).0);
                assert(stop_removed_from(pre, olds, ids, k as int).1
                    =~= a1 + stop_removed_from(s1, olds, ids, k + 1).1);
                assert(acts_pre + (a1 + stop_removed_from(s1, olds, ids, k + 1).1)
                    =~= (acts_pre + a1) + stop_removed_from(s1, olds, ids, k + 1).1);
            }
            k = k + 1;
        }
        proof {
            assert(stop_removed_from(s_mid, olds, ids, 0).0 == self@);
            assert(acts_spawn + stop_removed_from(s_mid, olds, ids, 0).1
                =~= actions@ + Seq::<Action>::empty());
        }
        self.allocation_ids = allocation_ids;
        proof {
            assert(self@ =~~= step_allocation_ids(s, ids).0);
            assert(actions@ =~= step_allocation_ids(s, ids).1);
        }
        actions
    }

    /// Handle `UpdateBalanceAndLastRavs`: adopt the balance, reset the
    /// pending value of allocations that are neither open nor among the
    /// incoming vouchers, write the incoming voucher values, and reconcile
    /// the deny state in both directions.
    fn handle_update_balance_and_last_ravs(
        &mut self,
        balance: Balance,
        last_ravs: Vec<(Address, u128)>,
    ) -> (actions: Vec<Action>)
        requires
            old(self).wf(),
            crate::account_model::distinct_rav_keys(last_ravs@),
            total_of(old(self)@.ravs) + sum_rav_values(last_ravs@) <= u128::MAX,
        ensures
            final(self).wf(),
            final(self)@ == step_balance_and_last_ravs(old(self)@, balance, last_ravs@).0,
            actions@ == step_balance_and_last_ravs(old(self)@, balance, last_ravs@).1,
    {
        let ghost s = old(self)@;
        let ghost ravs_seq = last_ravs@;
        self.sender_balance = balance;
        let ids = self.rav_tracker.allocations();
        let ghost t0 = s.ravs;
        proof {
            assert(ids@ =~= allocations_of(t0));
        }

        let mut i: usize = 0;
        while i < ids.len()
            invariant
                i <= ids@.len(),
                s == old(self)@,
                ravs_seq == last_ravs@,
                t0 == s.ravs,
                ids@ == allocations_of(t0),
                self.wf(),
                self@ == (AccountModel { ravs: self@.ravs, balance: balance, ..s }),
                zero_stale_from(t0, ids@, s.allocation_ids, ravs_seq, 0) == zero_stale_from(
                    self@.ravs,
                    ids@,
                    s.allocation_ids,
                    ravs_seq,
                    i as int,
                ),
                total_of(self@.ravs) <= total_of(t0),
            decreases ids@.len() - i,
        {
            let ghost pre_t = self@.ravs;
            let id = ids[i];
            if !contains_addr(&self.allocation_ids, id) && !contains_rav_key(&last_ravs, id) {
                if self.rav_tracker.get_fee_for_allocation(id) > 0 {
                    proof {
                        lemma_value_of_bounds(pre_t, id);
                        lemma_update_props(pre_t, id, 0, 0);
                    }
                    self.rav_tracker.update(id, 0, 0);
                }
            }
            proof {
                let m1 = if value_of(pre_t, ids@[i as int]) > 0 && !s.allocation_ids.contains(
                    ids@[i as int],
                ) && !rav_keys_contain(ravs_seq, ids@[i as int]) {
                    crate::fee_model::spec_update(pre_t, ids@[i as int], 0, 0)
                } else {
                    pre_t
                };
                assert(self@.ravs == m1);
                assert(zero_stale_from(pre_t, ids@, s.allocation_ids, ravs_seq, i as int)
                    == zero_stale_from(m1, ids@, s.allocation_ids, ravs_seq, i + 1));
                assert(self@ =~~= (AccountModel { ravs: self@.ravs, balance: balance, ..s }));
            }
            i = i + 1;
        }
        let ghost t1 = zero_stale_from(t0, ids@, s.allocation_ids, ravs_seq, 0);
        proof {
            assert(t1 == self@.ravs);
        }

        let mut j: usize = 0;
        while j < last_ravs.len()
            invariant
                j <= ravs_seq.len(),
                s == old(self)@,
                ravs_seq == last_ravs@,
                self.wf(),
                self@ == (AccountModel { ravs: self@.ravs, balance: balance, ..s }),
                set_ravs_from(t1, ravs_seq, 0) == set_ravs_from(self@.ravs, ravs_seq, j as int),
                total_of(self@.ravs) <= total_of(t1) + sum_rav_values(ravs_seq.take(j as int)),
                total_of(t1) <= total_of(s.ravs),
                total_of(s.ravs) + sum_rav_values(ravs_seq) <= u128::MAX,
            decreases ravs_seq.len() - j,
        {
            let ghost pre_t = self@.ravs;
            let kv = last_ravs[j];
            proof {
                assert(ravs_seq.take(j + 1).drop_last() =~= ravs_seq.take(j as int));
                assert(ravs_seq.take(j + 1).last() == ravs_seq[j as int]);
                lemma_sum_rav_prefix(ravs_seq, j + 1);
                lemma_value_of_bounds(pre_t, kv.0);
                lemma_update_props(pre_t, kv.0, kv.1, 0);
            }
            self.rav_tracker.update(kv.0, kv.1, 0);
            proof {
                assert(set_ravs_from(pre_t, ravs_seq, j as int)
                    == set_ravs_from(self@.ravs, ravs_seq, j + 1));
                assert(self@ =~~= (AccountModel { ravs: self@.ravs, balance: balance, ..s }));
            }
            j = j + 1;
        }
        let ghost t2 = set_ravs_from(t1, ravs_seq, 0);
        let ghost s1 = AccountModel { balance: balance, ravs: t2, ..s };
        proof {
            assert(ravs_seq.take(ravs_seq.len() as int) =~= ravs_seq);
            assert(t2 == self@.ravs);
            assert(self@ =~~= s1);
        }

        let mut actions: Vec<Action> = Vec::new();
        let cond = self.deny_condition_reached();
        if self.denied && !cond {
            self.denied = false;
            actions.push(Action::RemoveFromDenyList);
        } else if !self.denied && cond {
            self.denied = true;
            actions.push(Action::AddToDenyList);
        }
        proof {
            assert(self@ =~~= step_balance_and_last_ravs(s, balance, ravs_seq).0);
            assert(actions@ =~= step_balance_and_last_ravs(s, balance, ravs_seq).1);
        }
        actions
    }

    /// Handle one inbound message at clock `now_ms` (milliseconds): the
    /// state moves exactly as [`step`] says, and the returned actions are
    /// what the runtime must perform, in order.
    pub fn handle(&mut self, message: SenderAccountMessage, now_ms: u64) -> (actions: Vec<Action>)
        requires
            old(self).wf(),
            event_requires(old(self)@, EventModel::Message(message@)),
        ensures
            final(self).wf(),
            final(self)@ == step(old(self)@, EventModel::Message(message@), now_ms).0,
            actions@ == step(old(self)@, EventModel::Message(message@), now_ms).1,
    {
        match message {
            SenderAccountMessage::UpdateBalanceAndLastRavs(balance, last_ravs) => {
                self.handle_update_balance_and_last_ravs(balance, last_ravs)
            },
            SenderAccountMessage::UpdateAllocationIds(allocation_ids) => {
                self.handle_update_allocation_ids(allocation_ids)
            },
            SenderAccountMessage::NewAllocationId(allocation_id) => {
                self.handle_new_allocation_id(allocation_id)
            },
            SenderAccountMessage::UpdateReceiptFees(allocation_id, fees) => {
                self.handle_update_receipt_fees(allocation_id, fees, now_ms)
            },
            SenderAccountMessage::UpdateInvalidReceiptFees(allocation_id, fees) => {
                self.handle_update_invalid_receipt_fees(allocation_id, fees)
            },
            SenderAccountMessage::UpdateRav(rav) => self.handle_update_rav(rav),
        }
    }

    /// React to the orderly stop of an allocation worker: unblock the
    /// allocation, forget the worker, and hand back the action that feeds a
    /// reconciling `UpdateValue(zero)` into the mailbox.  The pending voucher
    /// value is deliberately left alone: the voucher is still outstanding.
    pub fn handle_child_terminated(&mut self, allocation_id: Address) -> (actions: Vec<Action>)
        requires
            old(self).wf(),
            old(self)@.children.contains(allocation_id),
        ensures
            final(self).wf(),
            final(self)@ == step_child_terminated(old(self)@, allocation_id).0,
            actions@ == step_child_terminated(old(self)@, allocation_id).1,
    {
        proof {
            lemma_remove_addr(old(self)@.children, allocation_id);
        }
        self.sender_fee_tracker.unblock_allocation_id(allocation_id);
        remove_first(&mut self.children, allocation_id);
        let mut actions: Vec<Action> = Vec::new();
        actions.push(Action::ResetAllocationFees(allocation_id));
        proof {
            assert(self@ =~~= step_child_terminated(old(self)@, allocation_id).0);
            assert(actions@ =~= step_child_terminated(old(self)@, allocation_id).1);
        }
        actions
    }

    /// React to the crash of an allocation worker: hand back the action that
    /// spawns a fresh worker for the same allocation.
    pub fn handle_child_panicked(&mut self, allocation_id: Address) -> (actions: Vec<Action>)
        requires
            old(self).wf(),
            old(self)@.children.contains(allocation_id),
        ensures
            final(self).wf(),
            final(self)@ == step_child_panicked(old(self)@, allocation_id).0,
            actions@ == step_child_panicked(old(self)@, allocation_id).1,
    {
        let mut actions: Vec<Action> = Vec::new();
        actions.push(Action::SpawnAllocation(allocation_id));
        proof {
            assert(self@ =~~= step_child_panicked(old(self)@, allocation_id).0);
            assert(actions@ =~= step_child_panicked(old(self)@, allocation_id).1);
        }
        actions
    }
}

} // verus!
