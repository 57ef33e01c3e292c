//! Per-allocation fee bookkeeping for one sender.
//!
//! The tracker keeps, for every allocation, the sum and count of receipts no
//! voucher covers yet, the receipts that may still lie inside the timestamp
//! buffer, and the scheduling marks (closing, request outstanding, retry
//! backoff).  Every operation refines the corresponding function of
//! [`crate::fee_model`], so callers reason about the tracker purely through
//! its model view.

use vstd::prelude::*;
use crate::address::Address;
use crate::fee_model::{
    BufferedFee, FeeEntryModel, TrackerModel, counter_of, counter_outside_of,
    entry_counter_outside, entry_value_outside, entry_wf, find_idx, heaviest, heaviest_of,
    in_flight_of, inside_buffer, inside_count, inside_sum, lemma_add_props, lemma_block_props,
    lemma_buffered_prefix, lemma_failed_backoff_props, lemma_find_idx, lemma_finish_rav_props,
    lemma_inside_bounds, lemma_ok_rav_props, lemma_start_rav_props, lemma_sum_value_bounds,
    lemma_sum_value_prefix, lemma_unblock_props, lemma_update_props, spec_add, spec_block,
    spec_failed_backoff, spec_finish_rav, spec_ok_rav, spec_start_rav, spec_unblock,
    spec_update, sum_outside, sum_value, total_of, total_outside_of, tracker_wf, value_of,
};

verus! {

/// One allocation's bookkeeping.
struct AllocationFee {
    allocation: Address,
    value: u128,
    counter: u64,
    buffered: Vec<BufferedFee>,
    blocked: bool,
    rav_in_flight: bool,
    backoff_until_ms: u64,
}

impl View for AllocationFee {
    type V = FeeEntryModel;

    closed spec fn view(&self) -> FeeEntryModel {
        FeeEntryModel {
            allocation: self.allocation,
            value: self.value as int,
            counter: self.counter as int,
            buffered: self.buffered@,
            blocked: self.blocked,
            in_flight: self.rav_in_flight,
            backoff_until: self.backoff_until_ms as int,
        }
    }
}

/// Fee totals of one sender across its allocations, with a timestamp buffer:
/// receipts recorded within the last `buffer_ms` milliseconds do not count
/// towards voucher triggers.
pub struct SenderFeeTracker {
    entries: Vec<AllocationFee>,
    total_fee: u128,
    buffer_ms: u64,
}

impl View for SenderFeeTracker {
    type V = TrackerModel;

    closed spec fn view(&self) -> TrackerModel {
        TrackerModel {
            entries: Seq::new(self.entries@.len(), |i: int| self.entries@[i]@),
            buffer_ms: self.buffer_ms as int,
        }
    }
}

impl SenderFeeTracker {
    /// The running total mirrors the model's sum.
    pub closed spec fn total_inv(&self) -> bool {
        self.total_fee == sum_value(self@.entries)
    }

    /// Well-formedness: the model is well-formed and the cached total is the
    /// model's sum.
    pub open spec fn wf(&self) -> bool {
        tracker_wf(self@) && self.total_inv()
    }

    /// An empty tracker with the given timestamp buffer, in milliseconds.
    pub fn new(buffer_ms: u64) -> (r: SenderFeeTracker)
        ensures
            r.wf(),
            r@.entries == Seq::<FeeEntryModel>::empty(),
            r@.buffer_ms == buffer_ms,
    {
        let r = SenderFeeTracker { entries: Vec::new(), total_fee: 0, buffer_ms };
        proof {
            assert(r@.entries =~= Seq::<FeeEntryModel>::empty());
        }
        r
    }

    /// Index of the entry for `a`, when there is one.
    fn find_index(&self, a: Address) -> (r: Option<usize>)
        ensures
            match r {
                Some(i) => 0 <= i < self@.entries.len() && find_idx(self@.entries, a) == i,
                None => find_idx(self@.entries, a) == -1,
            },
    {
        let ghost s = self@.entries;
        let mut i: usize = 0;
        while i < self.entries.len()
            invariant
                i <= self.entries.len(),
                s == self@.entries,
                s.len() == self.entries@.len(),
                forall|j: int| 0 <= j < i ==> #[trigger] s[j].allocation != a,
            decreases self.entries.len() - i,
        {
            if self.entries[i].allocation == a {
                proof {
                    lemma_find_idx(s, a);
                    assert(s[i as int].allocation == a);
                }
                return Some(i);
            }
            proof {
                assert(s[i as int].allocation != a);
            }
            i = i + 1;
        }
        proof {
            lemma_find_idx(s, a);
        }
        None
    }

    /// Sum of the recorded values over all allocations.
    pub fn get_total_fee(&self) -> (r: u128)
        requires
            self.wf(),
        ensures
            r == total_of(self@),
    {
        self.total_fee
    }

    /// Record one receipt of value `v` for `allocation` at `now_ms`.
    pub fn add(&mut self, allocation: Address, v: u128, now_ms: u64)
        requires
            old(self).wf(),
            total_of(old(self)@) + v <= u128::MAX,
            counter_of(old(self)@, allocation) < u64::MAX,
        ensures
            final(self).wf(),
            final(self)@ == spec_add(old(self)@, allocation, v, now_ms),
    {
        proof {
            lemma_add_props(old(self)@, allocation, v, now_ms);
            lemma_sum_value_bounds(old(self)@.entries);
        }
        let ghost m2 = spec_add(old(self)@, allocation, v, now_ms);
        let fee = BufferedFee { timestamp_ms: now_ms, value: v };
        match self.find_index(allocation) {
            None => {
                let mut buffered: Vec<BufferedFee> = Vec::new();
                buffered.push(fee);
                let e = AllocationFee {
                    allocation,
                    value: v,
                    counter: 1,
                    buffered,
                    blocked: false,
                    rav_in_flight: false,
                    backoff_until_ms: 0,
                };
                proof {
                    assert(e@.buffered =~= seq![fee]);
                }
                self.entries.push(e);
                self.total_fee = self.total_fee + v;
                proof {
                    assert(self@ =~~= m2);
                }
            },
            Some(i) => {
                let mut e = self.entries.remove(i);
                proof {
                    assert(e@ == old(self)@.entries[i as int]);
                }
                e.value = e.value + v;
                e.counter = e.counter + 1;
                e.buffered.push(fee);
                self.entries.insert(i, e);
                self.total_fee = self.total_fee + v;
                proof {
                    assert(self@ =~~= m2);
                }
            },
        }
    }

    /// Overwrite the totals of `allocation` with reconciled numbers; the
    /// reconciled receipts count as outside the buffer.
    pub fn update(&mut self, allocation: Address, value: u128, counter: u64)
        requires
            old(self).wf(),
            total_of(old(self)@) - value_of(old(self)@, allocation) + value <= u128::MAX,
        ensures
            final(self).wf(),
            final(self)@ == spec_update(old(self)@, allocation, value, counter),
    {
        proof {
            lemma_update_props(old(self)@, allocation, value, counter);
            lemma_sum_value_bounds(old(self)@.entries);
        }
        let ghost m2 = spec_update(old(self)@, allocation, value, counter);
        match self.find_index(allocation) {
            None => {
                let e = AllocationFee {
                    allocation,
                    value,
                    counter,
                    buffered: Vec::new(),
                    blocked: false,
                    rav_in_flight: false,
                    backoff_until_ms: 0,
                };
                self.entries.push(e);
                self.total_fee = self.total_fee + value;
                proof {
                    assert(self@ =~~= m2);
                }
            },
            Some(i) => {
                let mut e = self.entries.remove(i);
                proof {
                    assert(e@ == old(self)@.entries[i as int]);
                }
                let old_value = e.value;
                e.value = value;
                e.counter = counter;
                e.buffered = Vec::new();
                self.entries.insert(i, e);
                self.total_fee = self.total_fee - old_value + value;
                proof {
                    assert(self@ =~~= m2);
                }
            },
        }
    }
    /// Mark a voucher request for `allocation` as outstanding.
    pub fn start_rav_request(&mut self, allocation: Address)
        requires
            old(self).wf(),
            !in_flight_of(old(self)@, allocation),
        ensures
            final(self).wf(),
            final(self)@ == spec_start_rav(old(self)@, allocation),
    {
        proof {
            lemma_start_rav_props(old(self)@, allocation);
        }
        let ghost m2 = spec_start_rav(old(self)@, allocation);
        match self.find_index(allocation) {
            None => {
                self.entries.push(
                    AllocationFee {
                        allocation,
                        value: 0,
                        counter: 0,
                        buffered: Vec::new(),
                        blocked: false,
                        rav_in_flight: true,
                        backoff_until_ms: 0,
                    },
                );
                proof {
                    assert(self@ =~~= m2);
                }
            },
            Some(i) => {
                let mut e = self.entries.remove(i);
                e.rav_in_flight = true;
                self.entries.insert(i, e);
                proof {
                    assert(self@ =~~= m2);
                }
            },
        }
    }

    /// Mark the outstanding voucher request for `allocation` as ended.
    pub fn finish_rav_request(&mut self, allocation: Address)
        requires
            old(self).wf(),
        ensures
            final(self).wf(),
            final(self)@ == spec_finish_rav(old(self)@, allocation),
    {
        proof {
            lemma_finish_rav_props(old(self)@, allocation);
        }
        let ghost m2 = spec_finish_rav(old(self)@, allocation);
        match self.find_index(allocation) {
            None => {
                proof {
                    assert(self@ =~~= m2);
                }
            },
            Some(i) => {
                let mut e = self.entries.remove(i);
                e.rav_in_flight = false;
                self.entries.insert(i, e);
                proof {
                    assert(self@ =~~= m2);
                }
            },
        }
    }

    /// Clear the retry backoff of `allocation` after a successful request.
    pub fn ok_rav_request(&mut self, allocation: Address)
        requires
            old(self).wf(),
        ensures
            final(self).wf(),
            final(self)@ == spec_ok_rav(old(self)@, allocation),
    {
        proof {
            lemma_ok_rav_props(old(self)@, allocation);
        }
        let ghost m2 = spec_ok_rav(old(self)@, allocation);
        match self.find_index(allocation) {
            None => {
                proof {
                    assert(self@ =~~= m2);
                }
            },
            Some(i) => {
                let mut e = self.entries.remove(i);
                e.backoff_until_ms = 0;
                self.entries.insert(i, e);
                proof {
                    assert(self@ =~~= m2);
                }
            },
        }
    }

    /// Record a failed voucher request: `allocation` is not retried before
    /// `now_ms + backoff_ms` (saturating).
    pub fn failed_rav_backoff(&mut self, allocation: Address, backoff_ms: u64, now_ms: u64)
        requires
            old(self).wf(),
        ensures
            final(self).wf(),
            final(self)@ == spec_failed_backoff(old(self)@, allocation, backoff_ms, now_ms),
    {
        proof {
            lemma_failed_backoff_props(old(self)@, allocation, backoff_ms, now_ms);
        }
        let ghost m2 = spec_failed_backoff(old(self)@, allocation, backoff_ms, now_ms);
        let until: u64 = if backoff_ms > u64::MAX - now_ms {
            u64::MAX
        } else {
            now_ms + backoff_ms
        };
        match self.find_index(allocation) {
            None => {
                self.entries.push(
                    AllocationFee {
                        allocation,
                        value: 0,
                        counter: 0,
                        buffered: Vec::new(),
                        blocked: false,
                        rav_in_flight: false,
                        backoff_until_ms: until,
                    },
                );
                proof {
                    assert(self@ =~~= m2);
                }
            },
            Some(i) => {
                let mut e = self.entries.remove(i);
                e.backoff_until_ms = until;
                self.entries.insert(i, e);
                proof {
                    assert(self@ =~~= m2);
                }
            },
        }
    }

    /// Mark `allocation` as closing: it must not be chosen for a voucher.
    pub fn block_allocation_id(&mut self, allocation: Address)
        requires
            old(self).wf(),
        ensures
            final(self).wf(),
            final(self)@ == spec_block(old(self)@, allocation),
    {
        proof {
            lemma_block_props(old(self)@, allocation);
        }
        let ghost m2 = spec_block(old(self)@, allocation);
        match self.find_index(allocation) {
            None => {
                self.entries.push(
                    AllocationFee {
                        allocation,
                        value: 0,
                        counter: 0,
                        buffered: Vec::new(),
                        blocked: true,
                        rav_in_flight: false,
                        backoff_until_ms: 0,
                    },
                );
                proof {
                    assert(self@ =~~= m2);
                }
            },
            Some(i) => {
                let mut e = self.entries.remove(i);
                e.blocked = true;
                self.entries.insert(i, e);
                proof {
                    assert(self@ =~~= m2);
                }
            },
        }
    }

    /// Clear the closing mark of `allocation`.
    pub fn unblock_allocation_id(&mut self, allocation: Address)
        requires
            old(self).wf(),
        ensures
            final(self).wf(),
            final(self)@ == spec_unblock(old(self)@, allocation),
    {
        proof {
            lemma_unblock_props(old(self)@, allocation);
        }
        let ghost m2 = spec_unblock(old(self)@, allocation);
        match self.find_index(allocation) {
            None => {
                proof {
                    assert(self@ =~~= m2);
                }
            },
            Some(i) => {
                let mut e = self.entries.remove(i);
                e.blocked = false;
                self.entries.insert(i, e);
                proof {
                    assert(self@ =~~= m2);
                }
            },
        }
    }

    /// Whether a voucher request for `allocation` is outstanding.
    pub fn check_allocation_has_rav_request_running(&self, allocation: Address) -> (r: bool)
        requires
            self.wf(),
        ensures
            r == in_flight_of(self@, allocation),
    {
        match self.find_index(allocation) {
            None => false,
            Some(i) => self.entries[i].rav_in_flight,
        }
    }

    /// The recorded value of `allocation`; zero when it is unknown.
    pub fn get_fee_for_allocation(&self, allocation: Address) -> (r: u128)
        requires
            self.wf(),
        ensures
            r == value_of(self@, allocation),
    {
        match self.find_index(allocation) {
            None => 0,
            Some(i) => self.entries[i].value,
        }
    }

    /// The recorded receipt count of `allocation`; zero when it is unknown.
    pub fn get_counter_for_allocation(&self, allocation: Address) -> (r: u64)
        requires
            self.wf(),
        ensures
            r == counter_of(self@, allocation),
    {
        match self.find_index(allocation) {
            None => 0,
            Some(i) => self.entries[i].counter,
        }
    }

    /// The value of one entry that lies outside the buffer at `now_ms`.
    fn entry_value_outside_exec(e: &AllocationFee, now_ms: u64, buffer_ms: u64) -> (r: u128)
        requires
            entry_wf(e@),
        ensures
            r == entry_value_outside(e@, now_ms as int, buffer_ms as int),
    {
        let ghost b = e.buffered@;
        let ghost now = now_ms as int;
        let ghost buf = buffer_ms as int;
        let mut inside: u128 = 0;
        let mut j: usize = 0;
        while j < e.buffered.len()
            invariant
                j <= e.buffered.len(),
                b == e.buffered@,
                now == now_ms as int,
                buf == buffer_ms as int,
                entry_wf(e@),
                e@.buffered == b,
                inside == inside_sum(b.take(j as int), now, buf),
            decreases e.buffered.len() - j,
        {
            proof {
                assert(b.take(j + 1).drop_last() =~= b.take(j as int));
                assert(b.take(j + 1).last() == b[j as int]);
                assert(inside_sum(b.take(j + 1), now, buf) == inside_sum(b.take(j as int), now, buf)
                    + if inside_buffer(b[j as int], now, buf) { b[j as int].value as int } else { 0 });
                lemma_inside_bounds(b.take(j + 1), now, buf);
                lemma_buffered_prefix(b, j + 1);
            }
            let f = &e.buffered[j];
            if (f.timestamp_ms as u128) + (buffer_ms as u128) > (now_ms as u128) {
                inside = inside + f.value;
            }
            j = j + 1;
        }
        proof {
            assert(b.take(e.buffered.len() as int) =~= b);
            lemma_inside_bounds(b, now, buf);
        }
        e.value - inside
    }

    /// The receipt count of one entry that lies outside the buffer.
    fn entry_counter_outside_exec(e: &AllocationFee, now_ms: u64, buffer_ms: u64) -> (r: u64)
        requires
            entry_wf(e@),
        ensures
            r == entry_counter_outside(e@, now_ms as int, buffer_ms as int),
    {
        let ghost b = e.buffered@;
        let ghost now = now_ms as int;
        let ghost buf = buffer_ms as int;
        let mut count: usize = 0;
        let mut j: usize = 0;
        while j < e.buffered.len()
            invariant
                j <= e.buffered.len(),
                b == e.buffered@,
                now == now_ms as int,
                buf == buffer_ms as int,
                entry_wf(e@),
                e@.buffered == b,
                count == inside_count(b.take(j as int), now, buf),
                count <= j,
            decreases e.buffered.len() - j,
        {
            proof {
                assert(b.take(j + 1).drop_last() =~= b.take(j as int));
                assert(b.take(j + 1).last() == b[j as int]);
            }
            let f = &e.buffered[j];
            if (f.timestamp_ms as u128) + (buffer_ms as u128) > (now_ms as u128) {
                count = count + 1;
            }
            j = j + 1;
        }
        proof {
            assert(b.take(e.buffered.len() as int) =~= b);
            lemma_inside_bounds(b, now, buf);
        }
        e.counter - (count as u64)
    }

    /// Total value outside the buffer at `now_ms`, skipping allocations with
    /// a voucher request outstanding.
    pub fn get_total_fee_outside_buffer(&self, now_ms: u64) -> (r: u128)
        requires
            self.wf(),
        ensures
            r == total_outside_of(self@, now_ms as int),
    {
        let ghost s = self@.entries;
        let ghost now = now_ms as int;
        let ghost buf = self@.buffer_ms;
        let mut acc: u128 = 0;
        let mut i: usize = 0;
        while i < self.entries.len()
            invariant
                i <= self.entries.len(),
                s == self@.entries,
                s.len() == self.entries@.len(),
                now == now_ms as int,
                buf == self.buffer_ms as int,
                tracker_wf(self@),
                acc == sum_outside(s.take(i as int), now, buf),
                acc <= sum_value(s.take(i as int)),
            decreases self.entries.len() - i,
        {
            proof {
                assert(s.take(i + 1).drop_last() =~= s.take(i as int));
                assert(s.take(i + 1).last() == s[i as int]);
                assert(entry_wf(s[i as int]));
                lemma_inside_bounds(s[i as int].buffered, now, buf);
                lemma_sum_value_prefix(s, i + 1);
            }
            let e = &self.entries[i];
            if !e.rav_in_flight {
                let v = Self::entry_value_outside_exec(e, now_ms, self.buffer_ms);
                acc = acc + v;
            }
            i = i + 1;
        }
        proof {
            assert(s.take(self.entries.len() as int) =~= s);
        }
        acc
    }

    /// The receipt count of `allocation` outside the buffer at `now_ms`.
    pub fn get_total_counter_outside_buffer_for_allocation(
        &self,
        allocation: Address,
        now_ms: u64,
    ) -> (r: u64)
        requires
            self.wf(),
        ensures
            r == counter_outside_of(self@, allocation, now_ms as int),
    {
        match self.find_index(allocation) {
            None => 0,
            Some(i) => {
                proof {
                    assert(entry_wf(self@.entries[i as int]));
                }
                Self::entry_counter_outside_exec(&self.entries[i], now_ms, self.buffer_ms)
            },
        }
    }

    /// The eligible allocation with the greatest value outside the buffer at
    /// `now_ms` (ties towards the smaller allocation), or `None` when every
    /// allocation is closing, in flight or backing off.
    pub fn get_heaviest_allocation_id(&self, now_ms: u64) -> (r: Option<Address>)
        requires
            self.wf(),
        ensures
            r == heaviest_of(self@, now_ms as int),
    {
        let ghost s = self@.entries;
        let ghost now = now_ms as int;
        let ghost buf = self@.buffer_ms;
        let mut best: Option<(Address, u128)> = None;
        let mut i: usize = 0;
        while i < self.entries.len()
            invariant
                i <= self.entries.len(),
                s == self@.entries,
                s.len() == self.entries@.len(),
                now == now_ms as int,
                buf == self.buffer_ms as int,
                tracker_wf(self@),
                match best {
                    None => heaviest(s.take(i as int), now, buf) is None,
                    Some((a, v)) => heaviest(s.take(i as int), now, buf) == Some((a, v as int)),
                },
            decreases self.entries.len() - i,
        {
            proof {
                assert(s.take(i + 1).drop_last() =~= s.take(i as int));
                assert(s.take(i + 1).last() == s[i as int]);
                assert(entry_wf(s[i as int]));
                lemma_inside_bounds(s[i as int].buffered, now, buf);
            }
            let e = &self.entries[i];
            if !e.blocked && !e.rav_in_flight && e.backoff_until_ms <= now_ms {
                let v = Self::entry_value_outside_exec(e, now_ms, self.buffer_ms);
                best = match best {
                    None => Some((e.allocation, v)),
                    Some((a0, v0)) => {
                        if v > v0 || (v == v0 && e.allocation.lt(&a0)) {
                            Some((e.allocation, v))
                        } else {
                            Some((a0, v0))
                        }
                    },
                };
            }
            i = i + 1;
        }
        proof {
            assert(s.take(self.entries.len() as int) =~= s);
        }
        match best {
            None => None,
            Some((a, _v)) => Some(a),
        }
    }

    /// The allocations with entries, in tracker order.
    pub fn allocations(&self) -> (r: Vec<Address>)
        requires
            self.wf(),
        ensures
            r@.len() == self@.entries.len(),
            forall|i: int| 0 <= i < r@.len() ==> #[trigger] r@[i] == self@.entries[i].allocation,
    {
        let mut r: Vec<Address> = Vec::new();
        let mut i: usize = 0;
        while i < self.entries.len()
            invariant
                i <= self.entries.len(),
                self@.entries.len() == self.entries@.len(),
                r@.len() == i,
                forall|j: int| 0 <= j < i ==> #[trigger] r@[j] == self@.entries[j].allocation,
            decreases self.entries.len() - i,
        {
            r.push(self.entries[i].allocation);
            i = i + 1;
        }
        r
    }
}

} // verus!
