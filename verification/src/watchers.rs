//! The computing half of the escrow-accounts watcher.
//!
//! When a fresh escrow snapshot arrives, a runtime loads the sender's last,
//! not yet final vouchers from its store and asks the escrow subgraph which
//! of them were already redeemed on chain.  The filtering itself is plain
//! logic and lives here: what remains feeds `UpdateBalanceAndLastRavs`.  On
//! a subgraph error the runtime passes an empty redeemed list, so every
//! voucher counts as still pending (fail-closed).

use vstd::prelude::*;
use crate::address::Address;

verus! {

/// The `(allocation, value)` pairs whose allocation is not among the
/// redeemed ones, in their original order.
pub fn non_redeemed_ravs(last_ravs: &Vec<(Address, u128)>, redeemed: &Vec<Address>) -> (r: Vec<
    (Address, u128),
>)
    ensures
        r@ == last_ravs@.filter(|p: (Address, u128)| !redeemed@.contains(p.0)),
{
    let ghost pred = |p: (Address, u128)| !redeemed@.contains(p.0);
    let mut r: Vec<(Address, u128)> = Vec::new();
    let mut i: usize = 0;
    proof {
        reveal(Seq::filter);
        assert(last_ravs@.take(0) =~= Seq::<(Address, u128)>::empty());
        assert(last_ravs@.take(0).filter(pred) =~= Seq::<(Address, u128)>::empty());
    }
    while i < last_ravs.len()
        invariant
            i <= last_ravs.len(),
            pred == (|p: (Address, u128)| !redeemed@.contains(p.0)),
            r@ == last_ravs@.take(i as int).filter(pred),
        decreases last_ravs.len() - i,
    {
        let kv = last_ravs[i];
        let mut hit: bool = false;
        let mut j: usize = 0;
        while j < redeemed.len()
            invariant
                j <= redeemed.len(),
                hit == exists|k: int| 0 <= k < j && redeemed@[k] == kv.0,
            decreases redeemed.len() - j,
        {
            if redeemed[j] == kv.0 {
                hit = true;
            }
            j = j + 1;
        }
        proof {
            assert(hit == redeemed@.contains(kv.0));
            reveal(Seq::filter);
            assert(last_ravs@.take(i + 1).drop_last() =~= last_ravs@.take(i as int));
            assert(last_ravs@.take(i + 1).last() == last_ravs@[i as int]);
        }
        if !hit {
            r.push(kv);
        }
        i = i + 1;
    }
    proof {
        assert(last_ravs@.take(last_ravs.len() as int) =~= last_ravs@);
    }
    r
}

} // verus!
