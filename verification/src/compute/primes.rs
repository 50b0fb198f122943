//! The prime sequence of the multimodular driver.

use vstd::prelude::*;

use super::{ComputeLimits, RunError};
use crate::field::{is_prime, is_prime_u64};

verus! {

/// No prime lies above `low` and at or below `high`.
pub open spec fn no_prime_between(low: nat, high: nat) -> bool {
    forall|q: nat| low < q <= high ==> !#[trigger] is_prime(q)
}

/// The odd primes above `lo` and at or below `hi`.
pub open spec fn odd_primes_between(lo: int, hi: int) -> nat
    decreases hi - lo,
{
    if lo >= hi {
        0
    } else {
        odd_primes_between(lo + 1, hi) + if lo + 1 >= 0 && (lo + 1) % 2 == 1 && is_prime((lo + 1) as nat) {
            1nat
        } else {
            0nat
        }
    }
}

/// Two steps down the odd numbers from an odd `c` at or below the first
/// prime pass `c` and the even number below it.
proof fn lemma_walk_step(c: int)
    requires
        3 <= c <= FIRST,
        c % 2 == 1,
    ensures
        odd_primes_between(c - 2, FIRST as int) == odd_primes_between(c, FIRST as int) + if is_prime(c as nat) {
            1nat
        } else {
            0nat
        },
{
    assert(odd_primes_between(c - 1, FIRST as int) == odd_primes_between(c, FIRST as int) + if is_prime(c as nat) {
        1nat
    } else {
        0nat
    });
    assert(odd_primes_between(c - 2, FIRST as int) == odd_primes_between(c - 1, FIRST as int));
}

/// An even number above two is not prime.
pub proof fn lemma_even_not_prime(q: nat)
    requires
        q > 2,
        q % 2 == 0,
    ensures
        !is_prime(q),
{
    assert(q % 2 == 0 && 1 < 2 < q);
}

/// The first prime of the sequence, which is the largest modulus a ring
/// accepts.
pub const FIRST: u64 = 0x7fff_ffff;

/// One prime of the sequence, with what the driver skipped before it.
#[derive(Clone, Copy, Debug, PartialEq, Eq, Structural)]
pub struct Prime {
    /// The prime itself.
    pub value: u64,
    /// The primes the driver skipped before this one.
    pub skipped_before: usize,
}

/// The primes the driver runs, largest first.
///
/// The sequence walks down the odd numbers from 2^31 - 1 and keeps the
/// primes a predicate accepts. It ends below 3.
#[derive(Clone, Debug)]
pub struct Sequence {
    accepted: Vec<Prime>,
    next: u64,
    skipped: usize,
}

impl Sequence {
    /// The primes found so far, in sequence order.
    pub closed spec fn accepted_spec(&self) -> Seq<Prime> {
        self.accepted@
    }

    /// The next odd number the search tests, or 1 once the search is over.
    pub closed spec fn next_spec(&self) -> u64 {
        self.next
    }

    /// The primes the predicate rejected so far.
    pub closed spec fn skipped_spec(&self) -> usize {
        self.skipped
    }

    /// The held primes are primes of the walked range, strictly
    /// descending, and each names at most the primes skipped so far.
    pub closed spec fn wf(&self) -> bool {
        &&& self.next <= FIRST
        &&& self.next % 2 == 1
        &&& self.skipped + self.accepted@.len() <= (FIRST - self.next) / 2
        &&& forall|i: int|
            #![trigger self.accepted@[i]]
            0 <= i < self.accepted@.len() ==> {
                &&& is_prime(self.accepted@[i].value as nat)
                &&& self.next < self.accepted@[i].value <= FIRST
                &&& self.accepted@[i].skipped_before <= self.skipped
            }
        &&& forall|i: int, j: int|
            0 <= i < j < self.accepted@.len() ==> self.accepted@[i].value
                > self.accepted@[j].value
    }

    /// Every odd prime the walk has passed is held or counted as skipped,
    /// and each held prime names the skipped primes above it.
    pub closed spec fn counts_primes(&self) -> bool {
        &&& self.skipped + self.accepted@.len() == odd_primes_between(self.next as int, FIRST as int)
        &&& forall|i: int|
            0 <= i < self.accepted@.len() ==> #[trigger] self.accepted@[i].skipped_before + i == odd_primes_between(
                self.accepted@[i].value as int,
                FIRST as int,
            )
    }

    /// The sequence from its start.
    pub fn new() -> (s: Sequence)
        ensures
            s.wf(),
            s.counts_primes(),
            s.accepted_spec().len() == 0,
            s.next_spec() == FIRST,
            s.skipped_spec() == 0,
    {
        Sequence { accepted: Vec::new(), next: FIRST, skipped: 0 }
    }

    /// The prime at `index`, or `None` once the sequence ends.
    ///
    /// `accept` reports whether the driver runs a prime. It is called once
    /// per prime of the raw sequence, in order, and the result is held, so
    /// a caller that asks for one index twice gets the same value.
    pub fn at(&mut self, index: usize, accept: impl Fn(u64) -> bool, limits: &ComputeLimits) -> (r:
        Result<Option<Prime>, RunError>)
        requires
            old(self).wf(),
            forall|v: u64| #[trigger] accept.requires((v,)),
        ensures
            final(self).wf(),
            final(self).accepted_spec().len() >= old(self).accepted_spec().len(),
            final(self).accepted_spec().subrange(0, old(self).accepted_spec().len() as int)
                == old(self).accepted_spec(),
            index < old(self).accepted_spec().len() ==> r == Ok::<Option<Prime>, RunError>(
                Some(old(self).accepted_spec()[index as int]),
            ),
            r matches Ok(Some(p)) ==> index < final(self).accepted_spec().len() && p
                == final(self).accepted_spec()[index as int],
            r matches Ok(None) ==> final(self).next_spec() < 3,
            r matches Err(stop) ==> limits.stop_allowed(stop),
            limits.is_open() ==> r is Ok,
            old(self).counts_primes() ==> final(self).counts_primes(),
            r matches Ok(Some(p)) ==> (old(self).counts_primes() ==> p.skipped_before + index
                == odd_primes_between(p.value as int, FIRST as int)),
    {
        let ghost start = self.accepted@;
        while self.accepted.len() <= index
            invariant
                self.wf(),
                start == old(self).accepted@,
                self.accepted@.len() >= start.len(),
                self.accepted@.subrange(0, start.len() as int) == start,
                forall|v: u64| #[trigger] accept.requires((v,)),
                old(self).counts_primes() ==> self.counts_primes(),
            decreases self.next,
        {
            let ghost was = *self;
            let candidate = match self.search(limits) {
                Ok(Some(candidate)) => candidate,
                Ok(None) => {
                    return Ok(None);
                },
                Err(stop) => {
                    return Err(stop);
                },
            };
            let ghost before = self.accepted@;
            if accept(candidate) {
                self.accepted.push(Prime { value: candidate, skipped_before: self.skipped });
                proof {
                    assert(self.accepted@.subrange(0, start.len() as int) =~= before.subrange(
                        0,
                        start.len() as int,
                    ));
                    if old(self).counts_primes() {
                        assert forall|i: int| 0 <= i < self.accepted@.len() implies #[trigger] self.accepted@[i].skipped_before
                            + i == odd_primes_between(self.accepted@[i].value as int, FIRST as int) by {
                            if i < before.len() {
                                assert(self.accepted@[i] == was.accepted@[i]);
                            }
                        }
                    }
                }
            } else {
                self.skipped = self.skipped + 1;
                proof {
                    if old(self).counts_primes() {
                        assert forall|i: int| 0 <= i < self.accepted@.len() implies #[trigger] self.accepted@[i].skipped_before
                            + i == odd_primes_between(self.accepted@[i].value as int, FIRST as int) by {
                            assert(self.accepted@[i] == was.accepted@[i]);
                        }
                    }
                }
            }
        }
        Ok(Some(self.accepted[index]))
    }

    /// The bytes the held primes cost.
    pub fn heap_bytes(&self) -> (n: usize)
        ensures
            n == (if self.accepted_spec().len() * size_of::<Prime>() <= usize::MAX {
                self.accepted_spec().len() * size_of::<Prime>()
            } else {
                usize::MAX as int
            }),
    {
        match self.accepted.len().checked_mul(size_of::<Prime>()) {
            Some(bytes) => bytes,
            None => usize::MAX,
        }
    }

    /// The next prime below the last one the search returned.
    fn search(&mut self, limits: &ComputeLimits) -> (r: Result<Option<u64>, RunError>)
        requires
            old(self).wf(),
        ensures
            final(self).wf(),
            final(self).accepted_spec() == old(self).accepted_spec(),
            final(self).skipped_spec() == old(self).skipped_spec(),
            final(self).next_spec() <= old(self).next_spec(),
            r matches Ok(Some(c)) ==> is_prime(c as nat) && c <= FIRST && final(self).next_spec()
                < c && c <= old(self).next_spec() && final(self).next_spec() + 2 == c,
            r matches Ok(Some(c)) ==> no_prime_between(c as nat, old(self).next_spec() as nat),
            r matches Ok(Some(c)) ==> odd_primes_between(c as int, FIRST as int) == odd_primes_between(
                old(self).next_spec() as int,
                FIRST as int,
            ) && odd_primes_between(final(self).next_spec() as int, FIRST as int) == odd_primes_between(
                old(self).next_spec() as int,
                FIRST as int,
            ) + 1,
            r matches Ok(None) ==> final(self).next_spec() < 3,
            r matches Ok(None) ==> no_prime_between(2, old(self).next_spec() as nat),
            !(r matches Ok(Some(_))) ==> odd_primes_between(final(self).next_spec() as int, FIRST as int)
                == odd_primes_between(old(self).next_spec() as int, FIRST as int),
            r matches Err(stop) ==> limits.stop_allowed(stop),
            limits.is_open() ==> r is Ok,
    {
        let mut step: usize = 0;
        while self.next >= 3
            invariant
                self.wf(),
                self.accepted@ == old(self).accepted@,
                self.skipped == old(self).skipped,
                self.next <= old(self).next,
                no_prime_between(self.next as nat, old(self).next as nat),
                odd_primes_between(self.next as int, FIRST as int) == odd_primes_between(old(self).next as int, FIRST as int),
            decreases self.next,
        {
            if let Some(stop) = limits.stop_every(step) {
                return Err(stop);
            }
            step = step.wrapping_add(1);
            proof {
                lemma_walk_step(self.next as int);
            }
            let candidate = self.next;
            self.next = self.next - 2;
            if is_prime_u64(candidate) {
                return Ok(Some(candidate));
            }
            proof {
                assert forall|q: nat| self.next < q <= old(self).next implies !#[trigger] is_prime(q) by {
                    if q == candidate - 1 {
                        lemma_even_not_prime(q);
                    } else if q != candidate {
                        assert(no_prime_between(candidate as nat, old(self).next as nat));
                    }
                }
            }
        }
        proof {
            assert forall|q: nat| 2 < q <= old(self).next implies !#[trigger] is_prime(q) by {
                if q <= self.next {
                    assert(q == 1 || q == 2 || self.next >= 3);
                }
            }
        }
        Ok(None)
    }
}

} // verus!
