//! The computing half of the attestation-signer registry.
//!
//! A runtime keeps one signer per open allocation, rebuilt whenever the
//! allocation set or the dispute manager changes.  Which signers to drop and
//! which to create is plain set reconciliation and lives here; deriving the
//! key material for a new signer stays with the runtime.

use vstd::prelude::*;
use crate::address::Address;

verus! {

/// Whether `a` occurs in `v`.
fn contains_addr(v: &Vec<Address>, a: Address) -> (r: bool)
    ensures
        r == v@.contains(a),
{
    let mut i: usize = 0;
    while i < v.len()
        invariant
            i <= v.len(),
            forall|j: int| 0 <= j < i ==> v@[j] != a,
        decreases v.len() - i,
    {
        if v[i] == a {
            return true;
        }
        i = i + 1;
    }
    false
}

/// Reconcile the signer registry against the open allocations: the first
/// list returned holds the signers to keep (those whose allocation is still
/// open), the second the allocations that need a fresh signer, each in its
/// original order.
pub fn signer_update_plan(signers: &Vec<Address>, allocations: &Vec<Address>) -> (r: (
    Vec<Address>,
    Vec<Address>,
))
    ensures
        r.0@ == signers@.filter(|a: Address| allocations@.contains(a)),
        r.1@ == allocations@.filter(|a: Address| !signers@.contains(a)),
{
    let ghost keep_pred = |a: Address| allocations@.contains(a);
    let ghost create_pred = |a: Address| !signers@.contains(a);
    let mut keep: Vec<Address> = Vec::new();
    let mut create: Vec<Address> = Vec::new();
    proof {
        reveal(Seq::filter);
        assert(signers@.take(0) =~= Seq::<Address>::empty());
        assert(signers@.take(0).filter(keep_pred) =~= Seq::<Address>::empty());
        assert(allocations@.take(0) =~= Seq::<Address>::empty());
        assert(allocations@.take(0).filter(create_pred) =~= Seq::<Address>::empty());
    }
    let mut i: usize = 0;
    while i < signers.len()
        invariant
            i <= signers.len(),
            keep_pred == (|a: Address| allocations@.contains(a)),
            keep@ == signers@.take(i as int).filter(keep_pred),
        decreases signers.len() - i,
    {
        let a = signers[i];
        let hit = contains_addr(allocations, a);
        proof {
            reveal(Seq::filter);
            assert(signers@.take(i + 1).drop_last() =~= signers@.take(i as int));
            assert(signers@.take(i + 1).last() == signers@[i as int]);
        }
        if hit {
            keep.push(a);
        }
        i = i + 1;
    }
    let mut k: usize = 0;
    while k < allocations.len()
        invariant
            k <= allocations.len(),
            create_pred == (|a: Address| !signers@.contains(a)),
            create@ == allocations@.take(k as int).filter(create_pred),
        decreases allocations.len() - k,
    {
        let a = allocations[k];
        let hit = contains_addr(signers, a);
        proof {
            reveal(Seq::filter);
            assert(allocations@.take(k + 1).drop_last() =~= allocations@.take(k as int));
            assert(allocations@.take(k + 1).last() == allocations@[k as int]);
        }
        if !hit {
            create.push(a);
        }
        k = k + 1;
    }
    proof {
        assert(signers@.take(signers.len() as int) =~= signers@);
        assert(allocations@.take(allocations.len() as int) =~= allocations@);
    }
    (keep, create)
}

} // verus!
