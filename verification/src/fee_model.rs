//! Mathematical model of a fee tracker.
//!
//! A tracker maps allocations to fee totals.  Each entry carries the sum and
//! count of the receipts it covers, the receipts that may still lie inside
//! the timestamp buffer, and three scheduling marks: `blocked` (the
//! allocation is closing), `in_flight` (a voucher request is outstanding) and
//! `backoff_until` (failed requests are not retried before this time).
//! The executable tracker refines this model entry for entry.

use vstd::prelude::*;
use crate::address::Address;

verus! {

/// One receipt, as remembered while it may still lie inside the buffer.
#[derive(Clone, Copy, Debug, PartialEq, Eq, Structural)]
pub struct BufferedFee {
    /// When the receipt was recorded, in milliseconds.
    pub timestamp_ms: u64,
    /// The receipt's value.
    pub value: u128,
}

/// Model of one allocation's entry.
#[verifier::ext_equal]
pub struct FeeEntryModel {
    pub allocation: Address,
    /// Sum of the unaggregated receipt values.
    pub value: int,
    /// Number of unaggregated receipts.
    pub counter: int,
    /// Receipts that may still lie inside the timestamp buffer.
    pub buffered: Seq<BufferedFee>,
    /// The allocation is closing; it must not be chosen for a voucher.
    pub blocked: bool,
    /// A voucher request for this allocation is outstanding.
    pub in_flight: bool,
    /// Failed requests are not retried before this time, in milliseconds.
    pub backoff_until: int,
}

/// Model of a whole tracker.
#[verifier::ext_equal]
pub struct TrackerModel {
    pub entries: Seq<FeeEntryModel>,
    /// Width of the timestamp buffer, in milliseconds.
    pub buffer_ms: int,
}

/// Index of the entry for `a`, or `-1` when there is none.
pub open spec fn find_idx(s: Seq<FeeEntryModel>, a: Address) -> int
    decreases s.len(),
{
    if s.len() == 0 {
        -1
    } else if s[0].allocation == a {
        0
    } else {
        let r = find_idx(s.drop_first(), a);
        if r < 0 {
            -1
        } else {
            r + 1
        }
    }
}

pub open spec fn has_entry(m: TrackerModel, a: Address) -> bool {
    find_idx(m.entries, a) >= 0
}

pub open spec fn entry_of(m: TrackerModel, a: Address) -> FeeEntryModel
    recommends
        has_entry(m, a),
{
    m.entries[find_idx(m.entries, a)]
}

/// The unaggregated value recorded for `a`; zero when `a` is unknown.
pub open spec fn value_of(m: TrackerModel, a: Address) -> int {
    if has_entry(m, a) {
        entry_of(m, a).value
    } else {
        0
    }
}

/// The receipt count recorded for `a`; zero when `a` is unknown.
pub open spec fn counter_of(m: TrackerModel, a: Address) -> int {
    if has_entry(m, a) {
        entry_of(m, a).counter
    } else {
        0
    }
}

pub open spec fn blocked_of(m: TrackerModel, a: Address) -> bool {
    has_entry(m, a) && entry_of(m, a).blocked
}

pub open spec fn in_flight_of(m: TrackerModel, a: Address) -> bool {
    has_entry(m, a) && entry_of(m, a).in_flight
}

pub open spec fn backoff_of(m: TrackerModel, a: Address) -> int {
    if has_entry(m, a) {
        entry_of(m, a).backoff_until
    } else {
        0
    }
}

/// Sum of the values of a run of buffered receipts.
pub open spec fn buffered_sum(s: Seq<BufferedFee>) -> int
    decreases s.len(),
{
    if s.len() == 0 {
        0
    } else {
        buffered_sum(s.drop_last()) + s.last().value
    }
}

/// A buffered receipt lies inside the buffer when its timestamp is newer
/// than `now - buffer_ms` (a timestamp in the future counts as inside).
pub open spec fn inside_buffer(f: BufferedFee, now: int, buffer_ms: int) -> bool {
    f.timestamp_ms + buffer_ms > now
}

/// Sum of the values of the buffered receipts inside the buffer at `now`.
pub open spec fn inside_sum(s: Seq<BufferedFee>, now: int, buffer_ms: int) -> int
    decreases s.len(),
{
    if s.len() == 0 {
        0
    } else {
        inside_sum(s.drop_last(), now, buffer_ms)
            + if inside_buffer(s.last(), now, buffer_ms) {
                s.last().value as int
            } else {
                0
            }
    }
}

/// Number of buffered receipts inside the buffer at `now`.
pub open spec fn inside_count(s: Seq<BufferedFee>, now: int, buffer_ms: int) -> int
    decreases s.len(),
{
    if s.len() == 0 {
        0
    } else {
        inside_count(s.drop_last(), now, buffer_ms)
            + if inside_buffer(s.last(), now, buffer_ms) {
                1int
            } else {
                0int
            }
    }
}

/// The part of an entry's value that lies outside the buffer at `now`.
pub open spec fn entry_value_outside(e: FeeEntryModel, now: int, buffer_ms: int) -> int {
    e.value - inside_sum(e.buffered, now, buffer_ms)
}

/// The part of an entry's counter that lies outside the buffer at `now`.
pub open spec fn entry_counter_outside(e: FeeEntryModel, now: int, buffer_ms: int) -> int {
    e.counter - inside_count(e.buffered, now, buffer_ms)
}

/// The receipt count of `a` outside the buffer; zero when `a` is unknown.
pub open spec fn counter_outside_of(m: TrackerModel, a: Address, now: int) -> int {
    if has_entry(m, a) {
        entry_counter_outside(entry_of(m, a), now, m.buffer_ms)
    } else {
        0
    }
}

/// Sum of the recorded values over all entries.
pub open spec fn sum_value(s: Seq<FeeEntryModel>) -> int
    decreases s.len(),
{
    if s.len() == 0 {
        0
    } else {
        sum_value(s.drop_last()) + s.last().value
    }
}

/// What one entry contributes to the trigger total: its value outside the
/// buffer, or nothing while a voucher request is outstanding.
pub open spec fn outside_contrib(e: FeeEntryModel, now: int, buffer_ms: int) -> int {
    if e.in_flight {
        0
    } else {
        entry_value_outside(e, now, buffer_ms)
    }
}

/// Sum over all entries of the value outside the buffer, skipping entries
/// with a voucher request outstanding.
pub open spec fn sum_outside(s: Seq<FeeEntryModel>, now: int, buffer_ms: int) -> int
    decreases s.len(),
{
    if s.len() == 0 {
        0
    } else {
        sum_outside(s.drop_last(), now, buffer_ms) + outside_contrib(s.last(), now, buffer_ms)
    }
}

/// Total recorded value of the whole tracker.
pub open spec fn total_of(m: TrackerModel) -> int {
    sum_value(m.entries)
}

/// Total value outside the buffer, skipping in-flight allocations.
pub open spec fn total_outside_of(m: TrackerModel, now: int) -> int {
    sum_outside(m.entries, now, m.buffer_ms)
}

/// An entry may be chosen for a voucher request at `now`.
pub open spec fn entry_eligible(e: FeeEntryModel, now: int) -> bool {
    !e.blocked && !e.in_flight && e.backoff_until <= now
}

/// The eligible entry with the greatest value outside the buffer, with ties
/// broken towards the numerically (lexicographically) smaller allocation;
/// `None` when no entry is eligible.  The result carries the winning value.
pub open spec fn heaviest(s: Seq<FeeEntryModel>, now: int, buffer_ms: int) -> Option<(Address, int)>
    decreases s.len(),
{
    if s.len() == 0 {
        None
    } else {
        let rest = heaviest(s.drop_last(), now, buffer_ms);
        let e = s.last();
        if !entry_eligible(e, now) {
            rest
        } else {
            let v = entry_value_outside(e, now, buffer_ms);
            match rest {
                None => Some((e.allocation, v)),
                Some((a0, v0)) => if v > v0 || (v == v0 && e.allocation.as_int() < a0.as_int()) {
                    Some((e.allocation, v))
                } else {
                    Some((a0, v0))
                },
            }
        }
    }
}

/// The heaviest eligible allocation of the whole tracker, if any.
pub open spec fn heaviest_of(m: TrackerModel, now: int) -> Option<Address> {
    match heaviest(m.entries, now, m.buffer_ms) {
        None => None,
        Some((a, v)) => Some(a),
    }
}

/// Well-formedness of one entry: all numbers lie in their machine ranges and
/// the buffered receipts are covered by the recorded totals.
pub open spec fn entry_wf(e: FeeEntryModel) -> bool {
    &&& 0 <= e.value <= u128::MAX
    &&& 0 <= e.counter <= u64::MAX
    &&& 0 <= e.backoff_until <= u64::MAX
    &&& buffered_sum(e.buffered) <= e.value
    &&& e.buffered.len() <= e.counter
}

/// No two entries share an allocation.
pub open spec fn entries_distinct(s: Seq<FeeEntryModel>) -> bool {
    forall|i: int, j: int|
        0 <= i < j < s.len() ==> #[trigger] s[i].allocation != #[trigger] s[j].allocation
}

/// Well-formedness of a tracker model.
pub open spec fn tracker_wf(m: TrackerModel) -> bool {
    &&& entries_distinct(m.entries)
    &&& forall|i: int| 0 <= i < m.entries.len() ==> entry_wf(#[trigger] m.entries[i])
    &&& sum_value(m.entries) <= u128::MAX
    &&& 0 <= m.buffer_ms <= u64::MAX
}

/// A fresh, empty entry for `a`.
pub open spec fn fresh_entry(a: Address) -> FeeEntryModel {
    FeeEntryModel {
        allocation: a,
        value: 0,
        counter: 0,
        buffered: Seq::empty(),
        blocked: false,
        in_flight: false,
        backoff_until: 0,
    }
}

/// Effect of recording one receipt of value `v` for `a` at `now`.
pub open spec fn spec_add(m: TrackerModel, a: Address, v: u128, now: u64) -> TrackerModel {
    let i = find_idx(m.entries, a);
    let fee = BufferedFee { timestamp_ms: now, value: v };
    if i < 0 {
        TrackerModel {
            entries: m.entries.push(
                FeeEntryModel {
                    value: v as int,
                    counter: 1,
                    buffered: seq![fee],
                    ..fresh_entry(a)
                },
            ),
            ..m
        }
    } else {
        let e = m.entries[i];
        TrackerModel {
            entries: m.entries.update(
                i,
                FeeEntryModel {
                    value: e.value + v,
                    counter: e.counter + 1,
                    buffered: e.buffered.push(fee),
                    ..e
                },
            ),
            ..m
        }
    }
}

/// Effect of overwriting the totals of `a` with reconciled numbers.  The
/// reconciled receipts count as outside the buffer, so the buffered run is
/// cleared; the scheduling marks are kept.
pub open spec fn spec_update(m: TrackerModel, a: Address, value: u128, counter: u64) -> TrackerModel {
    let i = find_idx(m.entries, a);
    if i < 0 {
        TrackerModel {
            entries: m.entries.push(
                FeeEntryModel { value: value as int, counter: counter as int, ..fresh_entry(a) },
            ),
            ..m
        }
    } else {
        let e = m.entries[i];
        TrackerModel {
            entries: m.entries.update(
                i,
                FeeEntryModel {
                    value: value as int,
                    counter: counter as int,
                    buffered: Seq::empty(),
                    ..e
                },
            ),
            ..m
        }
    }
}

/// Effect of marking a voucher request for `a` as outstanding.
pub open spec fn spec_start_rav(m: TrackerModel, a: Address) -> TrackerModel {
    let i = find_idx(m.entries, a);
    if i < 0 {
        TrackerModel {
            entries: m.entries.push(FeeEntryModel { in_flight: true, ..fresh_entry(a) }),
            ..m
        }
    } else {
        TrackerModel {
            entries: m.entries.update(i, FeeEntryModel { in_flight: true, ..m.entries[i] }),
            ..m
        }
    }
}

/// Effect of marking the outstanding voucher request for `a` as ended.
pub open spec fn spec_finish_rav(m: TrackerModel, a: Address) -> TrackerModel {
    let i = find_idx(m.entries, a);
    if i < 0 {
        m
    } else {
        TrackerModel {
            entries: m.entries.update(i, FeeEntryModel { in_flight: false, ..m.entries[i] }),
            ..m
        }
    }
}

/// Effect of clearing the retry backoff of `a` after a successful request.
pub open spec fn spec_ok_rav(m: TrackerModel, a: Address) -> TrackerModel {
    let i = find_idx(m.entries, a);
    if i < 0 {
        m
    } else {
        TrackerModel {
            entries: m.entries.update(i, FeeEntryModel { backoff_until: 0, ..m.entries[i] }),
            ..m
        }
    }
}

/// The saturating deadline `now + backoff_ms`.
pub open spec fn backoff_deadline(now: u64, backoff_ms: u64) -> int {
    if now + backoff_ms > u64::MAX {
        u64::MAX as int
    } else {
        now + backoff_ms
    }
}

/// Effect of recording a failed voucher request for `a`: no retry before
/// `now + backoff_ms`.
pub open spec fn spec_failed_backoff(m: TrackerModel, a: Address, backoff_ms: u64, now: u64) -> TrackerModel {
    let i = find_idx(m.entries, a);
    let until = backoff_deadline(now, backoff_ms);
    if i < 0 {
        TrackerModel {
            entries: m.entries.push(FeeEntryModel { backoff_until: until, ..fresh_entry(a) }),
            ..m
        }
    } else {
        TrackerModel {
            entries: m.entries.update(i, FeeEntryModel { backoff_until: until, ..m.entries[i] }),
            ..m
        }
    }
}

/// Effect of marking `a` as closing.
pub open spec fn spec_block(m: TrackerModel, a: Address) -> TrackerModel {
    let i = find_idx(m.entries, a);
    if i < 0 {
        TrackerModel {
            entries: m.entries.push(FeeEntryModel { blocked: true, ..fresh_entry(a) }),
            ..m
        }
    } else {
        TrackerModel {
            entries: m.entries.update(i, FeeEntryModel { blocked: true, ..m.entries[i] }),
            ..m
        }
    }
}

/// Effect of clearing the closing mark of `a`.
pub open spec fn spec_unblock(m: TrackerModel, a: Address) -> TrackerModel {
    let i = find_idx(m.entries, a);
    if i < 0 {
        m
    } else {
        TrackerModel {
            entries: m.entries.update(i, FeeEntryModel { blocked: false, ..m.entries[i] }),
            ..m
        }
    }
}

/// Characterisation of `find_idx`: it yields the first index holding `a`,
/// or `-1` when no entry holds `a`.
pub proof fn lemma_find_idx(s: Seq<FeeEntryModel>, a: Address)
    ensures
        find_idx(s, a) == -1 ==> forall|i: int| 0 <= i < s.len() ==> s[i].allocation != a,
        find_idx(s, a) != -1 ==> {
            &&& 0 <= find_idx(s, a) < s.len()
            &&& s[find_idx(s, a)].allocation == a
            &&& forall|i: int| 0 <= i < find_idx(s, a) ==> s[i].allocation != a
        },
    decreases s.len(),
{
    if s.len() != 0 && s[0].allocation != a {
        lemma_find_idx(s.drop_first(), a);
        if find_idx(s, a) == -1 {
            assert forall|i: int| 0 <= i < s.len() implies s[i].allocation != a by {
                if i > 0 {
                    assert(s.drop_first()[i - 1] == s[i]);
                }
            }
        } else {
            assert forall|i: int| 0 <= i < find_idx(s, a) implies s[i].allocation != a by {
                if i > 0 {
                    assert(s.drop_first()[i - 1] == s[i]);
                }
            }
            assert(s.drop_first()[find_idx(s.drop_first(), a)] == s[find_idx(s, a)]);
        }
    }
}

/// When the entries are distinct, `find_idx` recovers an entry's own index.
pub proof fn lemma_find_idx_of(s: Seq<FeeEntryModel>, i: int)
    requires
        entries_distinct(s),
        0 <= i < s.len(),
    ensures
        find_idx(s, s[i].allocation) == i,
{
    lemma_find_idx(s, s[i].allocation);
    let f = find_idx(s, s[i].allocation);
    if f != i {
        assert(s[f].allocation == s[i].allocation);
    }
}

/// `find_idx` is unmoved by appending an entry for another allocation, and
/// an appended entry is found where no earlier one exists.
pub proof fn lemma_find_idx_push(s: Seq<FeeEntryModel>, e: FeeEntryModel, a: Address)
    ensures
        find_idx(s, a) >= 0 ==> find_idx(s.push(e), a) == find_idx(s, a),
        find_idx(s, a) == -1 && e.allocation == a ==> find_idx(s.push(e), a) == s.len(),
        find_idx(s, a) == -1 && e.allocation != a ==> find_idx(s.push(e), a) == -1,
    decreases s.len(),
{
    if s.len() == 0 {
        assert(s.push(e)[0] == e);
        assert(s.push(e).drop_first() =~= Seq::empty());
        assert(find_idx(s.push(e).drop_first(), a) == -1);
    } else {
        lemma_find_idx_push(s.drop_first(), e, a);
        assert(s.push(e)[0] == s[0]);
        assert(s.push(e).drop_first() =~= s.drop_first().push(e));
        assert(find_idx(s.push(e).drop_first(), a) == find_idx(s.drop_first().push(e), a));
    }
}

/// `find_idx` is unmoved by replacing an entry with one for the same
/// allocation.
pub proof fn lemma_find_idx_update(s: Seq<FeeEntryModel>, i: int, e: FeeEntryModel, a: Address)
    requires
        0 <= i < s.len(),
        s[i].allocation == e.allocation,
    ensures
        find_idx(s.update(i, e), a) == find_idx(s, a),
    decreases s.len(),
{
    if i == 0 {
        if s[0].allocation != a {
            assert(s.update(0, e).drop_first() =~= s.drop_first());
        }
    } else {
        lemma_find_idx_update(s.drop_first(), i - 1, e, a);
        assert(s.update(i, e).drop_first() =~= s.drop_first().update(i - 1, e));
    }
}

/// Appending an entry adds its value to the total.
pub proof fn lemma_sum_value_push(s: Seq<FeeEntryModel>, e: FeeEntryModel)
    ensures
        sum_value(s.push(e)) == sum_value(s) + e.value,
{
    assert(s.push(e).drop_last() =~= s);
}

/// Replacing an entry shifts the total by the difference of the values.
pub proof fn lemma_sum_value_update(s: Seq<FeeEntryModel>, i: int, e: FeeEntryModel)
    requires
        0 <= i < s.len(),
    ensures
        sum_value(s.update(i, e)) == sum_value(s) - s[i].value + e.value,
    decreases s.len(),
{
    if i == s.len() - 1 {
        assert(s.update(i, e).drop_last() =~= s.drop_last());
    } else {
        lemma_sum_value_update(s.drop_last(), i, e);
        assert(s.update(i, e).drop_last() =~= s.drop_last().update(i, e));
    }
}

/// A run of buffered receipts has a non-negative sum.
pub proof fn lemma_buffered_sum_nonneg(s: Seq<BufferedFee>)
    ensures
        buffered_sum(s) >= 0,
    decreases s.len(),
{
    if s.len() != 0 {
        lemma_buffered_sum_nonneg(s.drop_last());
    }
}

/// The inside-buffer part of a run is bounded by the whole run.
pub proof fn lemma_inside_bounds(s: Seq<BufferedFee>, now: int, buffer_ms: int)
    ensures
        0 <= inside_sum(s, now, buffer_ms) <= buffered_sum(s),
        0 <= inside_count(s, now, buffer_ms) <= s.len(),
    decreases s.len(),
{
    if s.len() != 0 {
        lemma_inside_bounds(s.drop_last(), now, buffer_ms);
    }
}

/// Appending a receipt extends the buffered sum by its value.
pub proof fn lemma_buffered_push(s: Seq<BufferedFee>, f: BufferedFee)
    ensures
        buffered_sum(s.push(f)) == buffered_sum(s) + f.value,
{
    assert(s.push(f).drop_last() =~= s);
}

/// Every entry's value is bounded by the total of well-formed entries.
pub proof fn lemma_sum_value_bounds(s: Seq<FeeEntryModel>)
    requires
        forall|i: int| 0 <= i < s.len() ==> entry_wf(#[trigger] s[i]),
    ensures
        sum_value(s) >= 0,
        forall|i: int| 0 <= i < s.len() ==> #[trigger] s[i].value <= sum_value(s),
    decreases s.len(),
{
    if s.len() != 0 {
        assert(forall|i: int| 0 <= i < s.drop_last().len()
            ==> entry_wf(#[trigger] s.drop_last()[i]));
        lemma_sum_value_bounds(s.drop_last());
        assert(forall|i: int| 0 <= i < s.len() - 1 ==> s[i] == s.drop_last()[i]);
    }
}

/// What `heaviest` yields is an eligible entry that no other eligible entry
/// beats, and the carried value is that entry's value outside the buffer.
pub proof fn lemma_heaviest(s: Seq<FeeEntryModel>, now: int, buffer_ms: int)
    ensures
        heaviest(s, now, buffer_ms) matches Some(p) ==> {
            &&& exists|i: int|
                0 <= i < s.len() && #[trigger] s[i].allocation == p.0
                    && entry_eligible(s[i], now)
                    && entry_value_outside(s[i], now, buffer_ms) == p.1
            &&& forall|i: int| 0 <= i < s.len() && entry_eligible(#[trigger] s[i], now)
                ==> entry_value_outside(s[i], now, buffer_ms) <= p.1
        },
        heaviest(s, now, buffer_ms) is None ==> forall|i: int|
            0 <= i < s.len() ==> !entry_eligible(#[trigger] s[i], now),
    decreases s.len(),
{
    if s.len() != 0 {
        lemma_heaviest(s.drop_last(), now, buffer_ms);
        assert(forall|i: int| 0 <= i < s.len() - 1 ==> s[i] == s.drop_last()[i]);
        if heaviest(s, now, buffer_ms) is Some {
            let p = heaviest(s, now, buffer_ms)->0;
            let e = s.last();
            if entry_eligible(e, now)
                && p == (e.allocation, entry_value_outside(e, now, buffer_ms)) {
                assert(s[s.len() - 1].allocation == p.0);
            }
        }
    }
}

/// The entry and derived values of every other allocation are unchanged
/// between two models with the same entries except at the entry for `a`.
pub open spec fn frame_except(m: TrackerModel, m2: TrackerModel, a: Address) -> bool {
    &&& m2.buffer_ms == m.buffer_ms
    &&& forall|b: Address| b != a ==> #[trigger] value_of(m2, b) == value_of(m, b)
    &&& forall|b: Address| b != a ==> #[trigger] counter_of(m2, b) == counter_of(m, b)
    &&& forall|b: Address| b != a ==> #[trigger] blocked_of(m2, b) == blocked_of(m, b)
    &&& forall|b: Address| b != a ==> #[trigger] in_flight_of(m2, b) == in_flight_of(m, b)
    &&& forall|b: Address| b != a ==> #[trigger] backoff_of(m2, b) == backoff_of(m, b)
    &&& forall|b: Address| b != a ==> #[trigger] has_entry(m2, b) == has_entry(m, b)
    &&& forall|b: Address| b != a && has_entry(m, b) ==> #[trigger] entry_of(m2, b) == entry_of(
        m,
        b,
    )
}

/// The two shapes every operation takes: either it appends a fresh entry for
/// an allocation that had none, or it replaces the entry of `a` with one for
/// the same allocation.  This helper discharges well-formedness, framing and
/// the total for both shapes.
proof fn lemma_op_shape(m: TrackerModel, a: Address, e: FeeEntryModel, m2: TrackerModel)
    requires
        tracker_wf(m),
        e.allocation == a,
        entry_wf(e),
        if find_idx(m.entries, a) < 0 {
            m2.entries == m.entries.push(e)
        } else {
            m2.entries == m.entries.update(find_idx(m.entries, a), e)
        },
        m2.buffer_ms == m.buffer_ms,
        sum_value(m.entries) - value_of(m, a) + e.value <= u128::MAX,
    ensures
        tracker_wf(m2),
        frame_except(m, m2, a),
        has_entry(m2, a),
        entry_of(m2, a) == e,
        total_of(m2) == total_of(m) - value_of(m, a) + e.value,
{
    let s = m.entries;
    let i = find_idx(s, a);
    lemma_find_idx(s, a);
    lemma_sum_value_bounds(s);
    if i < 0 {
        lemma_sum_value_push(s, e);
        lemma_find_idx_push(s, e, a);
        assert(entries_distinct(m2.entries));
        assert(forall|k: int| 0 <= k < m2.entries.len() ==> entry_wf(#[trigger] m2.entries[k]));
        assert forall|b: Address| b != a implies #[trigger] find_idx(m2.entries, b) == find_idx(s, b)
            && (find_idx(s, b) >= 0 ==> m2.entries[find_idx(s, b)] == s[find_idx(s, b)]) by {
            lemma_find_idx_push(s, e, b);
            lemma_find_idx(s, b);
        }
    } else {
        lemma_sum_value_update(s, i, e);
        lemma_find_idx_update(s, i, e, a);
        assert(entries_distinct(m2.entries)) by {
            assert(forall|k: int| 0 <= k < s.len() && k != i
                ==> #[trigger] m2.entries[k] == s[k]);
        }
        assert(forall|k: int| 0 <= k < m2.entries.len() ==> entry_wf(#[trigger] m2.entries[k]));
        assert forall|b: Address| b != a implies #[trigger] find_idx(m2.entries, b) == find_idx(s, b)
            && (find_idx(s, b) >= 0 ==> m2.entries[find_idx(s, b)] == s[find_idx(s, b)]) by {
            lemma_find_idx_update(s, i, e, b);
            lemma_find_idx(s, b);
            if find_idx(s, b) >= 0 {
                assert(find_idx(s, b) != i);
            }
        }
    }
}

/// Effect of `spec_add`: the receipt joins `a`'s totals and buffered run;
/// everything else is unchanged.
pub proof fn lemma_add_props(m: TrackerModel, a: Address, v: u128, now: u64)
    requires
        tracker_wf(m),
        sum_value(m.entries) + v <= u128::MAX,
        counter_of(m, a) < u64::MAX,
    ensures
        ({
            let m2 = spec_add(m, a, v, now);
            &&& tracker_wf(m2)
            &&& frame_except(m, m2, a)
            &&& value_of(m2, a) == value_of(m, a) + v
            &&& counter_of(m2, a) == counter_of(m, a) + 1
            &&& blocked_of(m2, a) == blocked_of(m, a)
            &&& in_flight_of(m2, a) == in_flight_of(m, a)
            &&& backoff_of(m2, a) == backoff_of(m, a)
            &&& total_of(m2) == total_of(m) + v
        }),
{
    let m2 = spec_add(m, a, v, now);
    let s = m.entries;
    let i = find_idx(s, a);
    let fee = BufferedFee { timestamp_ms: now, value: v };
    lemma_find_idx(s, a);
    lemma_sum_value_bounds(s);
    if i < 0 {
        let e = FeeEntryModel { value: v as int, counter: 1, buffered: seq![fee], ..fresh_entry(a) };
        assert(seq![fee].drop_last() =~= Seq::<BufferedFee>::empty());
        assert(buffered_sum(Seq::<BufferedFee>::empty()) == 0);
        assert(seq![fee].last() == fee);
        assert(buffered_sum(seq![fee]) == v);
        lemma_op_shape(m, a, e, m2);
    } else {
        let e0 = s[i];
        let e = FeeEntryModel {
            value: e0.value + v,
            counter: e0.counter + 1,
            buffered: e0.buffered.push(fee),
            ..e0
        };
        lemma_buffered_push(e0.buffered, fee);
        lemma_op_shape(m, a, e, m2);
    }
}

/// Effect of `spec_update`: `a`'s totals are overwritten and its buffered
/// run cleared; its marks and everything else are unchanged.
pub proof fn lemma_update_props(m: TrackerModel, a: Address, value: u128, counter: u64)
    requires
        tracker_wf(m),
        sum_value(m.entries) - value_of(m, a) + value <= u128::MAX,
    ensures
        ({
            let m2 = spec_update(m, a, value, counter);
            &&& tracker_wf(m2)
            &&& frame_except(m, m2, a)
            &&& value_of(m2, a) == value
            &&& counter_of(m2, a) == counter
            &&& blocked_of(m2, a) == blocked_of(m, a)
            &&& in_flight_of(m2, a) == in_flight_of(m, a)
            &&& backoff_of(m2, a) == backoff_of(m, a)
            &&& has_entry(m2, a)
            &&& entry_of(m2, a).buffered == Seq::<BufferedFee>::empty()
            &&& total_of(m2) == total_of(m) - value_of(m, a) + value
        }),
{
    let m2 = spec_update(m, a, value, counter);
    let s = m.entries;
    let i = find_idx(s, a);
    lemma_find_idx(s, a);
    if i < 0 {
        let e = FeeEntryModel { value: value as int, counter: counter as int, ..fresh_entry(a) };
        lemma_op_shape(m, a, e, m2);
    } else {
        let e0 = s[i];
        let e = FeeEntryModel {
            value: value as int,
            counter: counter as int,
            buffered: Seq::empty(),
            ..e0
        };
        lemma_op_shape(m, a, e, m2);
    }
}

/// Effect of the mark operations, which share one shape: only the named mark
/// of `a` changes; values, counters and the total are untouched.
pub proof fn lemma_mark_props(m: TrackerModel, a: Address, m2: TrackerModel, e2: FeeEntryModel)
    requires
        tracker_wf(m),
        e2.allocation == a,
        e2.value == value_of(m, a),
        e2.counter == counter_of(m, a),
        e2.buffered == if has_entry(m, a) { entry_of(m, a).buffered } else { Seq::<BufferedFee>::empty() },
        entry_wf(e2),
        if find_idx(m.entries, a) < 0 {
            m2.entries == m.entries.push(e2)
        } else {
            m2.entries == m.entries.update(find_idx(m.entries, a), e2)
        },
        m2.buffer_ms == m.buffer_ms,
    ensures
        tracker_wf(m2),
        frame_except(m, m2, a),
        value_of(m2, a) == value_of(m, a),
        counter_of(m2, a) == counter_of(m, a),
        blocked_of(m2, a) == e2.blocked,
        in_flight_of(m2, a) == e2.in_flight,
        backoff_of(m2, a) == e2.backoff_until,
        total_of(m2) == total_of(m),
{
    lemma_find_idx(m.entries, a);
    lemma_op_shape(m, a, e2, m2);
}

/// `lemma_mark_props` applied to `spec_start_rav`.
pub proof fn lemma_start_rav_props(m: TrackerModel, a: Address)
    requires
        tracker_wf(m),
    ensures
        ({
            let m2 = spec_start_rav(m, a);
            &&& tracker_wf(m2)
            &&& frame_except(m, m2, a)
            &&& value_of(m2, a) == value_of(m, a)
            &&& counter_of(m2, a) == counter_of(m, a)
            &&& blocked_of(m2, a) == blocked_of(m, a)
            &&& in_flight_of(m2, a)
            &&& backoff_of(m2, a) == backoff_of(m, a)
            &&& total_of(m2) == total_of(m)
        }),
{
    let m2 = spec_start_rav(m, a);
    lemma_find_idx(m.entries, a);
    let e2 = if find_idx(m.entries, a) < 0 {
        FeeEntryModel { in_flight: true, ..fresh_entry(a) }
    } else {
        FeeEntryModel { in_flight: true, ..m.entries[find_idx(m.entries, a)] }
    };
    lemma_mark_props(m, a, m2, e2);
}

/// `lemma_mark_props` applied to `spec_finish_rav`.
pub proof fn lemma_finish_rav_props(m: TrackerModel, a: Address)
    requires
        tracker_wf(m),
    ensures
        ({
            let m2 = spec_finish_rav(m, a);
            &&& tracker_wf(m2)
            &&& frame_except(m, m2, a)
            &&& value_of(m2, a) == value_of(m, a)
            &&& counter_of(m2, a) == counter_of(m, a)
            &&& blocked_of(m2, a) == blocked_of(m, a)
            &&& !in_flight_of(m2, a)
            &&& backoff_of(m2, a) == backoff_of(m, a)
            &&& total_of(m2) == total_of(m)
        }),
{
    let m2 = spec_finish_rav(m, a);
    lemma_find_idx(m.entries, a);
    if find_idx(m.entries, a) >= 0 {
        let e2 = FeeEntryModel { in_flight: false, ..m.entries[find_idx(m.entries, a)] };
        lemma_mark_props(m, a, m2, e2);
    }
}

/// `lemma_mark_props` applied to `spec_ok_rav`.
pub proof fn lemma_ok_rav_props(m: TrackerModel, a: Address)
    requires
        tracker_wf(m),
    ensures
        ({
            let m2 = spec_ok_rav(m, a);
            &&& tracker_wf(m2)
            &&& frame_except(m, m2, a)
            &&& value_of(m2, a) == value_of(m, a)
            &&& counter_of(m2, a) == counter_of(m, a)
            &&& blocked_of(m2, a) == blocked_of(m, a)
            &&& in_flight_of(m2, a) == in_flight_of(m, a)
            &&& backoff_of(m2, a) == 0
            &&& total_of(m2) == total_of(m)
        }),
{
    let m2 = spec_ok_rav(m, a);
    lemma_find_idx(m.entries, a);
    if find_idx(m.entries, a) >= 0 {
        let e2 = FeeEntryModel { backoff_until: 0, ..m.entries[find_idx(m.entries, a)] };
        lemma_mark_props(m, a, m2, e2);
    }
}

/// `lemma_mark_props` applied to `spec_failed_backoff`.
pub proof fn lemma_failed_backoff_props(m: TrackerModel, a: Address, backoff_ms: u64, now: u64)
    requires
        tracker_wf(m),
    ensures
        ({
            let m2 = spec_failed_backoff(m, a, backoff_ms, now);
            &&& tracker_wf(m2)
            &&& frame_except(m, m2, a)
            &&& value_of(m2, a) == value_of(m, a)
            &&& counter_of(m2, a) == counter_of(m, a)
            &&& blocked_of(m2, a) == blocked_of(m, a)
            &&& in_flight_of(m2, a) == in_flight_of(m, a)
            &&& backoff_of(m2, a) == backoff_deadline(now, backoff_ms)
            &&& total_of(m2) == total_of(m)
        }),
{
    let m2 = spec_failed_backoff(m, a, backoff_ms, now);
    lemma_find_idx(m.entries, a);
    let until = backoff_deadline(now, backoff_ms);
    let e2 = if find_idx(m.entries, a) < 0 {
        FeeEntryModel { backoff_until: until, ..fresh_entry(a) }
    } else {
        FeeEntryModel { backoff_until: until, ..m.entries[find_idx(m.entries, a)] }
    };
    lemma_mark_props(m, a, m2, e2);
}

/// `lemma_mark_props` applied to `spec_block`.
pub proof fn lemma_block_props(m: TrackerModel, a: Address)
    requires
        tracker_wf(m),
    ensures
        ({
            let m2 = spec_block(m, a);
            &&& tracker_wf(m2)
            &&& frame_except(m, m2, a)
            &&& value_of(m2, a) == value_of(m, a)
            &&& counter_of(m2, a) == counter_of(m, a)
            &&& blocked_of(m2, a)
            &&& in_flight_of(m2, a) == in_flight_of(m, a)
            &&& backoff_of(m2, a) == backoff_of(m, a)
            &&& total_of(m2) == total_of(m)
        }),
{
    let m2 = spec_block(m, a);
    lemma_find_idx(m.entries, a);
    let e2 = if find_idx(m.entries, a) < 0 {
        FeeEntryModel { blocked: true, ..fresh_entry(a) }
    } else {
        FeeEntryModel { blocked: true, ..m.entries[find_idx(m.entries, a)] }
    };
    lemma_mark_props(m, a, m2, e2);
}

/// `lemma_mark_props` applied to `spec_unblock`.
pub proof fn lemma_unblock_props(m: TrackerModel, a: Address)
    requires
        tracker_wf(m),
    ensures
        ({
            let m2 = spec_unblock(m, a);
            &&& tracker_wf(m2)
            &&& frame_except(m, m2, a)
            &&& value_of(m2, a) == value_of(m, a)
            &&& counter_of(m2, a) == counter_of(m, a)
            &&& !blocked_of(m2, a)
            &&& in_flight_of(m2, a) == in_flight_of(m, a)
            &&& backoff_of(m2, a) == backoff_of(m, a)
            &&& total_of(m2) == total_of(m)
        }),
{
    let m2 = spec_unblock(m, a);
    lemma_find_idx(m.entries, a);
    if find_idx(m.entries, a) >= 0 {
        let e2 = FeeEntryModel { blocked: false, ..m.entries[find_idx(m.entries, a)] };
        lemma_mark_props(m, a, m2, e2);
    }
}

/// What `heaviest_of` yields is a known allocation that is eligible: not
/// closing, no request outstanding, not backing off.
pub proof fn lemma_heaviest_of_props(m: TrackerModel, now: int)
    requires
        tracker_wf(m),
    ensures
        heaviest_of(m, now) matches Some(a) ==> {
            &&& has_entry(m, a)
            &&& !blocked_of(m, a)
            &&& !in_flight_of(m, a)
            &&& backoff_of(m, a) <= now
        },
{
    lemma_heaviest(m.entries, now, m.buffer_ms);
    if heaviest_of(m, now) is Some {
        let a = heaviest_of(m, now)->0;
        let p = heaviest(m.entries, now, m.buffer_ms)->0;
        let i = choose|i: int|
            0 <= i < m.entries.len() && #[trigger] m.entries[i].allocation == p.0
                && entry_eligible(m.entries[i], now)
                && entry_value_outside(m.entries[i], now, m.buffer_ms) == p.1;
        lemma_find_idx_of(m.entries, i);
    }
}

/// A recorded value is non-negative and bounded by the tracker's total.
pub proof fn lemma_value_of_bounds(m: TrackerModel, a: Address)
    requires
        tracker_wf(m),
    ensures
        0 <= value_of(m, a) <= total_of(m),
        0 <= counter_of(m, a) <= u64::MAX,
{
    lemma_find_idx(m.entries, a);
    lemma_sum_value_bounds(m.entries);
    if has_entry(m, a) {
        assert(entry_wf(m.entries[find_idx(m.entries, a)]));
    }
}

/// Prefix sums of well-formed entries are bounded by the whole sum.
pub proof fn lemma_sum_value_prefix(s: Seq<FeeEntryModel>, i: int)
    requires
        0 <= i <= s.len(),
        forall|k: int| 0 <= k < s.len() ==> entry_wf(#[trigger] s[k]),
    ensures
        0 <= sum_value(s.take(i)) <= sum_value(s),
    decreases s.len() - i,
{
    if i == s.len() {
        assert(s.take(i) =~= s);
        lemma_sum_value_bounds(s);
    } else {
        lemma_sum_value_prefix(s, i + 1);
        assert(s.take(i + 1).drop_last() =~= s.take(i));
        assert(s.take(i + 1).last() == s[i]);
        assert(sum_value(s.take(i + 1)) == sum_value(s.take(i)) + s[i].value);
        assert(forall|k: int| 0 <= k < s.take(i).len()
            ==> entry_wf(#[trigger] s.take(i)[k]));
        lemma_sum_value_bounds(s.take(i));
    }
}

/// Prefix sums of a buffered run are bounded by the whole run's sum.
pub proof fn lemma_buffered_prefix(s: Seq<BufferedFee>, i: int)
    requires
        0 <= i <= s.len(),
    ensures
        0 <= buffered_sum(s.take(i)) <= buffered_sum(s),
    decreases s.len() - i,
{
    if i == s.len() {
        assert(s.take(i) =~= s);
        lemma_buffered_sum_nonneg(s);
    } else {
        lemma_buffered_prefix(s, i + 1);
        assert(s.take(i + 1).drop_last() =~= s.take(i));
        assert(s.take(i + 1).last() == s[i]);
        assert(buffered_sum(s.take(i + 1)) == buffered_sum(s.take(i)) + s[i].value);
        lemma_buffered_sum_nonneg(s.take(i));
    }
}

} // verus!
