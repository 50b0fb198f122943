//! The lead-divisor search of the F4 engine: the live basis leads, scanned
//! by degree, give the reducer of a monomial.

use crate::monomial::{degree_of, divides_spec, lemma_divisor_not_greater, mono_div, Monomial};
use vstd::prelude::*;

verus! {

/// Lead `a` comes before lead `b` in scan order: a lower total degree, or
/// the same degree and a lower basis index.
pub open spec fn scan_before(leads: Seq<Monomial>, a: int, b: int) -> bool {
    degree_of(leads[a]@) < degree_of(leads[b]@) || (degree_of(leads[a]@) == degree_of(leads[b]@) && a < b)
}

/// `order` holds the index `i`.
pub open spec fn lists(order: Seq<usize>, i: int) -> bool {
    exists|k: int| 0 <= k < order.len() && #[trigger] order[k] == i
}

/// `order` lists every index of `leads` once, in scan order.
pub open spec fn is_scan_order(leads: Seq<Monomial>, order: Seq<usize>) -> bool {
    &&& forall|k: int| 0 <= k < order.len() ==> (#[trigger] order[k]) < leads.len()
    &&& forall|i: int| 0 <= i < leads.len() ==> #[trigger] lists(order, i)
    &&& forall|k: int, l: int|
        0 <= k < l < order.len() ==> scan_before(leads, #[trigger] order[k] as int, #[trigger] order[l] as int)
}

/// Some lead divides `m`.
pub open spec fn has_divisor(leads: Seq<Monomial>, m: Seq<u16>) -> bool {
    exists|i: int| 0 <= i < leads.len() && divides_spec(#[trigger] leads[i]@, m)
}

/// Find the reducer of `m`: the first lead in scan order that divides it,
/// with the multiplier `m / lead`.
///
/// A lead of higher degree than `m` ends the scan: no later lead divides.
pub fn find_divisor(leads: &[Monomial], order: &[usize], m: &Monomial) -> (r: Option<(usize, Monomial)>)
    requires
        is_scan_order(leads@, order@),
    ensures
        r is None <==> !has_divisor(leads@, m@),
        r matches Some((i, q)) ==> {
            &&& i < leads@.len()
            &&& divides_spec(leads@[i as int]@, m@)
            &&& q@ == mono_div(m@, leads@[i as int]@)
            &&& forall|j: int|
                0 <= j < leads@.len() && j != i && divides_spec(#[trigger] leads@[j]@, m@) ==> scan_before(
                    leads@,
                    i as int,
                    j,
                )
        },
{
    let deg = m.total_degree();
    let mut k: usize = 0;
    while k < order.len()
        invariant
            is_scan_order(leads@, order@),
            k <= order@.len(),
            deg as int == degree_of(m@),
            forall|l: int| 0 <= l < k ==> !divides_spec(leads@[#[trigger] order@[l] as int]@, m@),
        decreases order@.len() - k,
    {
        let i = order[k];
        proof {
            assert(order@[k as int] < leads@.len());
        }
        let d = leads[i].total_degree();
        if d > deg {
            proof {
                assert forall|j: int| 0 <= j < leads@.len() implies !divides_spec(#[trigger] leads@[j]@, m@) by {
                    assert(lists(order@, j));
                    let kk = choose|kk: int| 0 <= kk < order@.len() && #[trigger] order@[kk] == j;
                    if divides_spec(leads@[j]@, m@) {
                        lemma_divisor_not_greater(leads@[j]@, m@);
                        if kk < k {
                            assert(!divides_spec(leads@[order@[kk] as int]@, m@));
                        } else if kk > k {
                            assert(scan_before(leads@, order@[k as int] as int, order@[kk] as int));
                        }
                    }
                }
            }
            return None;
        }
        if leads[i].divides(m) {
            let q = m.quotient(&leads[i]);
            match q {
                Some(q) => {
                    proof {
                        assert forall|j: int|
                            0 <= j < leads@.len() && j != i && divides_spec(
                                #[trigger] leads@[j]@,
                                m@,
                            ) implies scan_before(leads@, i as int, j) by {
                            assert(lists(order@, j));
                    let kk = choose|kk: int| 0 <= kk < order@.len() && #[trigger] order@[kk] == j;
                            if kk < k {
                                assert(!divides_spec(leads@[order@[kk] as int]@, m@));
                            } else {
                                assert(kk != k);
                                assert(scan_before(leads@, order@[k as int] as int, order@[kk] as int));
                            }
                        }
                    }
                    return Some((i, q));
                },
                None => {
                    return None;
                },
            }
        }
        k += 1;
    }
    proof {
        assert forall|j: int| 0 <= j < leads@.len() implies !divides_spec(#[trigger] leads@[j]@, m@) by {
            assert(lists(order@, j));
                    let kk = choose|kk: int| 0 <= kk < order@.len() && #[trigger] order@[kk] == j;
            assert(!divides_spec(leads@[order@[kk] as int]@, m@));
        }
    }
    None
}

} // verus!
