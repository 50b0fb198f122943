//! The byte format of the second certificate contract.
//!
//! Every integer is a canonical varint. The sections are written into
//! their own buffers, and the header then declares the byte length of
//! each of them.

use vstd::prelude::*;
use vstd::string::StringSliceAdditionalSpecFns;

use super::divide::Step;
use super::record::Node;
use super::witness::Witness;
use crate::cert::divide::poly_views;
use crate::cert::{Budget, saturating_total};
use crate::certificate::CertifyError;
use crate::compute::ComputeError;
use crate::monomial::{Monomial, grevlex_less};

verus! {

/// `v` in base-128 little-endian form: seven bits per byte, the high bit
/// set on every byte but the last.
pub open spec fn varint(v: nat) -> Seq<u8>
    decreases v,
{
    if v < 128 {
        seq![v as u8]
    } else {
        seq![(v % 128 + 128) as u8] + varint(v / 128)
    }
}

/// Read one base-128 number from the front of `s`: the value and the
/// bytes it takes, up to and including the first byte below 128.
pub open spec fn read_varint(s: Seq<u8>) -> (int, int)
    decreases s.len(),
{
    if s.len() == 0 {
        (0, 0)
    } else if s[0] < 128 {
        (s[0] as int, 1)
    } else {
        let rest = read_varint(s.drop_first());
        (s[0] - 128 + 128 * rest.0, rest.1 + 1)
    }
}

/// A reader gets back every number written, and stops where its bytes
/// end, whatever follows them.
pub proof fn law_varint_reads_back(v: nat, rest: Seq<u8>)
    ensures
        read_varint(varint(v) + rest) == (v as int, varint(v).len() as int),
    decreases v,
{
    let s = varint(v) + rest;
    if v < 128 {
        assert(s[0] == v as u8);
    } else {
        law_varint_reads_back(v / 128, rest);
        let b = (v % 128 + 128) as u8;
        assert(b == v % 128 + 128);
        assert(s[0] == b);
        assert(s.drop_first() =~= varint(v / 128) + rest);
        assert(v == v % 128 + 128 * (v / 128));
    }
}

/// The byte strings, one after another.
pub open spec fn concat(items: Seq<Seq<u8>>) -> Seq<u8>
    decreases items.len(),
{
    if items.len() == 0 {
        Seq::empty()
    } else {
        concat(items.drop_last()) + items.last()
    }
}

/// A length and that many bytes.
pub open spec fn string_bytes(text: Seq<u8>) -> Seq<u8> {
    varint(text.len()) + text
}

/// One more item adds its bytes at the end.
pub proof fn lemma_concat_push(items: Seq<Seq<u8>>, item: Seq<u8>)
    ensures
        concat(items.push(item)) == concat(items) + item,
{
    assert(items.push(item).drop_last() =~= items);
}

/// Append `value` in base-128 little-endian form, canonically.
pub fn put_varint(out: &mut Vec<u8>, value: u64)
    ensures
        final(out)@ == old(out)@ + varint(value as nat),
        read_varint(final(out)@.subrange(old(out)@.len() as int, final(out)@.len() as int)) == (
            value as int,
            final(out)@.len() - old(out)@.len(),
        ),
{
    let ghost start = out@;
    let mut rest = value;
    while rest >= 0x80
        invariant
            old(out)@ + varint(value as nat) == out@ + varint(rest as nat),
        decreases rest,
    {
        let byte = (rest as u8) | 0x80;
        proof {
            assert(byte == (rest % 128 + 128) as u8) by (bit_vector)
                requires
                    byte == (rest as u8) | 0x80,
                    rest >= 0x80,
            ;
            assert(varint(rest as nat) == seq![(rest % 128 + 128) as u8] + varint((rest / 128) as nat));
        }
        let ghost before = out@;
        out.push(byte);
        let next = rest >> 7;
        proof {
            assert(next == rest / 128) by (bit_vector)
                requires
                    next == rest >> 7,
            ;
            assert(out@ == before + seq![byte]);
            assert(before + varint(rest as nat) == out@ + varint(next as nat));
        }
        rest = next;
    }
    let ghost before = out@;
    out.push(rest as u8);
    proof {
        assert(varint(rest as nat) == seq![rest as u8]);
        assert(out@ == before + seq![rest as u8]);
        assert(out@ == start + varint(value as nat));
        assert(out@.subrange(start.len() as int, out@.len() as int) =~= varint(value as nat) + Seq::<u8>::empty());
        law_varint_reads_back(value as nat, Seq::empty());
    }
}


/// The exponent vectors of a list of monomials.
pub open spec fn mono_views(s: Seq<Monomial>) -> Seq<Seq<u16>> {
    s.map_values(|m: Monomial| m@)
}

/// The vectors have width `nvars` and strictly ascend under grevlex.
pub open spec fn ascending(s: Seq<Seq<u16>>, nvars: nat) -> bool {
    &&& forall|k: int| 0 <= k < s.len() ==> (#[trigger] s[k]).len() == nvars
    &&& forall|a: int, b: int| 0 <= a < b < s.len() ==> grevlex_less(#[trigger] s[a], #[trigger] s[b])
}

/// The place of `m` in `s`.
pub open spec fn index_of(s: Seq<Seq<u16>>, m: Seq<u16>) -> int {
    choose|k: int| 0 <= k < s.len() && s[k] == m
}

/// The largest number of monomials in the pool.
pub const MAX_POOL_MONOMIALS: usize = 4000000;
/// The largest number of variable and exponent pairs in the pool.
pub const MAX_POOL_ENTRIES: usize = 16000000;

/// The pool of monomials the certificate references, strictly ascending.
pub struct Pool {
    pub monos: Vec<Monomial>,
}

/// In a strictly ascending list one vector has one place.
pub proof fn lemma_index_of(s: Seq<Seq<u16>>, nvars: nat, k: int)
    requires
        ascending(s, nvars),
        0 <= k < s.len(),
    ensures
        index_of(s, s[k]) == k,
{
    let j = index_of(s, s[k]);
    assert(0 <= j < s.len() && s[j] == s[k]);
    if j < k {
        assert(grevlex_less(s[j], s[k]));
        crate::monomial::lemma_grevlex_irreflexive(s[k]);
    } else if k < j {
        assert(grevlex_less(s[k], s[j]));
        crate::monomial::lemma_grevlex_irreflexive(s[k]);
    }
}

/// The number of nonzero exponents among the first `n`.
pub open spec fn support_count(e: Seq<u16>, n: nat) -> nat
    decreases n,
{
    if n == 0 {
        0
    } else {
        support_count(e, (n - 1) as nat) + if e[n - 1] != 0 {
            1nat
        } else {
            0nat
        }
    }
}

/// The monomials of `ms`, each counted once.
pub open spec fn distinct_count(ms: Seq<Seq<u16>>) -> nat
    decreases ms.len(),
{
    if ms.len() == 0 {
        0
    } else {
        distinct_count(ms.drop_last()) + if ms.drop_last().contains(ms.last()) {
            0nat
        } else {
            1nat
        }
    }
}

/// The nonzero exponents of the monomials of `ms`, each monomial counted
/// once.
pub open spec fn distinct_support(ms: Seq<Seq<u16>>) -> nat
    decreases ms.len(),
{
    if ms.len() == 0 {
        0
    } else {
        distinct_support(ms.drop_last()) + if ms.drop_last().contains(ms.last()) {
            0nat
        } else {
            support_count(ms.last(), ms.last().len())
        }
    }
}

/// A prefix holds no more distinct monomials, and no more of their nonzero
/// exponents, than the whole list.
pub proof fn lemma_distinct_prefix(ms: Seq<Seq<u16>>, k: int)
    requires
        0 <= k <= ms.len(),
    ensures
        distinct_count(ms.take(k)) <= distinct_count(ms),
        distinct_support(ms.take(k)) <= distinct_support(ms),
    decreases ms.len(),
{
    if k < ms.len() {
        assert(ms.drop_last().take(k) =~= ms.take(k));
        lemma_distinct_prefix(ms.drop_last(), k);
    } else {
        assert(ms.take(k) =~= ms);
    }
}

impl Pool {
    /// The pool strictly ascends and every monomial has width `nvars`.
    pub open spec fn wf(&self, nvars: nat) -> bool {
        ascending(mono_views(self.monos@), nvars)
    }

    /// The number of monomials.
    pub fn len(&self) -> (n: usize)
        ensures
            n == self.monos@.len(),
    {
        self.monos.len()
    }

    /// The first place whose monomial does not come before `mono`.
    fn lower_bound(&self, mono: &Monomial, Ghost(nvars): Ghost<nat>) -> (r: usize)
        requires
            self.wf(nvars),
            mono@.len() == nvars,
        ensures
            r <= self.monos@.len(),
            forall|k: int| 0 <= k < r ==> grevlex_less(#[trigger] mono_views(self.monos@)[k], mono@),
            forall|k: int| r <= k < self.monos@.len() ==> !grevlex_less(#[trigger] mono_views(self.monos@)[k], mono@),
    {
        let ghost pv = mono_views(self.monos@);
        let mut lo: usize = 0;
        let mut hi: usize = self.monos.len();
        while lo < hi
            invariant
                pv == mono_views(self.monos@),
                ascending(pv, nvars),
                mono@.len() == nvars,
                lo <= hi <= self.monos@.len(),
                forall|k: int| 0 <= k < lo ==> grevlex_less(#[trigger] pv[k], mono@),
                forall|k: int| hi <= k < self.monos@.len() ==> !grevlex_less(#[trigger] pv[k], mono@),
            decreases hi - lo,
        {
            let mid = lo + (hi - lo) / 2;
            proof {
                assert(pv[mid as int] == self.monos@[mid as int]@);
            }
            if self.monos[mid].less_than(mono) {
                proof {
                    assert forall|k: int| 0 <= k < mid + 1 implies grevlex_less(#[trigger] pv[k], mono@) by {
                        if k < mid {
                            assert(grevlex_less(pv[k], pv[mid as int]));
                            crate::monomial::lemma_grevlex_transitive(pv[k], pv[mid as int], mono@);
                        }
                    }
                }
                lo = mid + 1;
            } else {
                proof {
                    assert forall|k: int| mid <= k < self.monos@.len() implies !grevlex_less(#[trigger] pv[k], mono@) by {
                        if k > mid {
                            assert(grevlex_less(pv[mid as int], pv[k]));
                            if grevlex_less(pv[k], mono@) {
                                crate::monomial::lemma_grevlex_transitive(pv[mid as int], pv[k], mono@);
                            }
                        }
                    }
                }
                hi = mid;
            }
        }
        lo
    }

    /// The place of `mono` in the pool.
    pub fn at(&self, mono: &Monomial, Ghost(nvars): Ghost<nat>) -> (r: u32)
        requires
            self.wf(nvars),
            mono_views(self.monos@).contains(mono@),
            self.monos@.len() <= u32::MAX,
        ensures
            r < self.monos@.len(),
            r == index_of(mono_views(self.monos@), mono@),
    {
        let ghost pv = mono_views(self.monos@);
        proof {
            let j = choose|j: int| 0 <= j < pv.len() && pv[j] == mono@;
            assert(pv[j].len() == nvars);
        }
        let k = self.lower_bound(mono, Ghost(nvars));
        proof {
            let j = choose|j: int| 0 <= j < pv.len() && pv[j] == mono@;
            crate::monomial::lemma_grevlex_irreflexive(mono@);
            if j < k {
                assert(grevlex_less(pv[j], mono@));
            }
            if k < j {
                assert(!grevlex_less(pv[k as int], mono@));
                assert(grevlex_less(pv[k as int], pv[j]));
            }
            assert(j == k);
            lemma_index_of(pv, nvars, j);
        }
        k as u32
    }

    /// Number the monomials of `monomials`, ascending.
    ///
    /// The two pool caps and the budget run on each new monomial before it
    /// enters the pool, so a pool above a cap costs the writer one
    /// monomial and never the whole pool.
    pub fn build(monomials: &[Monomial], budget: &mut crate::cert::Budget, Ghost(nvars): Ghost<nat>) -> (r: Result<
        Pool,
        crate::certificate::CertifyError,
    >)
        requires
            forall|k: int| 0 <= k < monomials@.len() ==> (#[trigger] monomials@[k])@.len() == nvars,
        ensures
            final(budget).stops_spec() == old(budget).stops_spec(),
            final(budget).memory_spec() == old(budget).memory_spec(),
            r matches Ok(pool) ==> pool.wf(nvars) && pool.monos@.len() <= MAX_POOL_MONOMIALS && forall|m: Seq<u16>|
                #[trigger] mono_views(pool.monos@).contains(m) <==> mono_views(monomials@).contains(m),
            r matches Err(e) ==> match e {
                crate::certificate::CertifyError::CapExceeded { cap, limit } => ((cap
                    == crate::certificate::CertificateCap::PoolEntries && limit == MAX_POOL_ENTRIES
                    && distinct_support(mono_views(monomials@)) > MAX_POOL_ENTRIES) || (cap
                    == crate::certificate::CertificateCap::PoolMonomials && limit == MAX_POOL_MONOMIALS
                    && distinct_count(mono_views(monomials@)) > MAX_POOL_MONOMIALS)) && (monomials@.len()
                    > MAX_POOL_MONOMIALS || monomials@.len() * nvars > MAX_POOL_ENTRIES),
                crate::certificate::CertifyError::WriterExhausted(c) => c == crate::compute::ComputeError::MemoryLimitExceeded
                    && old(budget).memory_spec() is Some,
                _ => false,
            },
            old(budget).memory_spec() is None && monomials@.len() <= MAX_POOL_MONOMIALS && monomials@.len() * nvars
                <= MAX_POOL_ENTRIES ==> r is Ok,
            old(budget).memory_spec() is None && distinct_count(mono_views(monomials@)) <= MAX_POOL_MONOMIALS
                && distinct_support(mono_views(monomials@)) <= MAX_POOL_ENTRIES ==> r is Ok,
    {
        let mut pool = Pool { monos: Vec::new() };
        let mut entries: usize = 0;
        let mut k: usize = 0;
        while k < monomials.len()
            invariant
                forall|j: int| 0 <= j < monomials@.len() ==> (#[trigger] monomials@[j])@.len() == nvars,
                k <= monomials@.len(),
                pool.wf(nvars),
                pool.monos@.len() <= MAX_POOL_MONOMIALS,
                entries <= MAX_POOL_ENTRIES,
                pool.monos@.len() <= k,
                entries <= pool.monos@.len() * nvars,
                pool.monos@.len() == distinct_count(mono_views(monomials@.take(k as int))),
                entries == distinct_support(mono_views(monomials@.take(k as int))),
                budget.stops_spec() == old(budget).stops_spec(),
                budget.memory_spec() == old(budget).memory_spec(),
                forall|m: Seq<u16>|
                    #[trigger] mono_views(pool.monos@).contains(m) <==> mono_views(monomials@.take(k as int)).contains(m),
            decreases monomials@.len() - k,
        {
            let mono = &monomials[k];
            let ghost pv = mono_views(pool.monos@);
            let ghost taken = mono_views(monomials@.take(k as int));
            proof {
                assert(mono_views(monomials@.take(k as int + 1)) =~= taken.push(mono@));
            }
            let mut support: usize = 0;
            let mut v: usize = 0;
            while v < mono.exps.len()
                invariant
                    v <= mono@.len(),
                    support <= v,
                    support == support_count(mono@, v as nat),
                decreases mono@.len() - v,
            {
                if mono.exps[v] != 0 {
                    support += 1;
                }
                v += 1;
            }
            let place = pool.lower_bound(mono, Ghost(nvars));
            let present = place < pool.monos.len() && pool.monos[place].equals(mono);
            proof {
                let grown = taken.push(mono@);
                assert(grown.drop_last() =~= taken);
                assert(grown.last() == mono@);
                assert(mono_views(monomials@).take(k as int + 1) =~= mono_views(monomials@.take(k as int + 1)));
                lemma_distinct_prefix(mono_views(monomials@), k as int + 1);
                if present {
                    assert(pv[place as int] == pool.monos@[place as int]@);
                    assert(pv.contains(mono@));
                } else if pv.contains(mono@) {
                    let j = choose|j: int| 0 <= j < pv.len() && pv[j] == mono@;
                    crate::monomial::lemma_grevlex_irreflexive(mono@);
                    if j < place {
                        assert(grevlex_less(pv[j], mono@));
                    } else if j == place {
                        assert(pv[place as int] == pool.monos@[place as int]@);
                    } else {
                        assert(grevlex_less(pv[place as int], pv[j]));
                        assert(!grevlex_less(pv[place as int], mono@));
                    }
                }
                assert(present <==> taken.contains(mono@));
            }
            if present {
                proof {
                    assert(pv[place as int] == pool.monos@[place as int]@);
                    assert forall|m: Seq<u16>| #[trigger] pv.contains(m) <==> taken.push(mono@).contains(m) by {
                        if m == mono@ {
                            assert(pv[place as int] == m);
                            assert(taken.push(mono@)[taken.len() as int] == m);
                        } else if taken.push(mono@).contains(m) {
                            let j = choose|j: int| 0 <= j < taken.len() + 1 && taken.push(mono@)[j] == m;
                            assert(taken[j] == m);
                            assert(taken.contains(m));
                        } else if pv.contains(m) {
                            assert(taken.contains(m));
                            let j = choose|j: int| 0 <= j < taken.len() && taken[j] == m;
                            assert(taken.push(mono@)[j] == m);
                        }
                    }
                }
            } else {
                proof {
                    assert(support <= nvars);
                    assert(pool.monos@.len() + 1 <= monomials@.len());
                    assert(entries + support <= (pool.monos@.len() + 1) * nvars) by (nonlinear_arith)
                        requires
                            entries <= pool.monos@.len() * nvars,
                            support <= nvars,
                    ;
                    assert((pool.monos@.len() + 1) * nvars <= monomials@.len() * nvars) by (nonlinear_arith)
                        requires
                            pool.monos@.len() + 1 <= monomials@.len(),
                    ;
                }
                match super::cap(
                    crate::cert::saturating_add(entries, support),
                    MAX_POOL_ENTRIES,
                    crate::certificate::CertificateCap::PoolEntries,
                ) {
                    Ok(()) => {},
                    Err(e) => {
                        return Err(e);
                    },
                }
                match budget.hold(0, 1) {
                    Ok(()) => {},
                    Err(e) => {
                        return Err(crate::certificate::CertifyError::WriterExhausted(e));
                    },
                }
                entries = entries + support;
                let ghost pool_before = pool.monos@;
                pool.monos.insert(place, mono.copy());
                proof {
                    let npv = mono_views(pool.monos@);
                    assert(npv =~= pv.insert(place as int, mono@));
                    crate::monomial::lemma_grevlex_irreflexive(mono@);
                    assert forall|a: int, b: int| 0 <= a < b < npv.len() implies grevlex_less(#[trigger] npv[a], #[trigger] npv[b]) by {
                        if b < place {
                            assert(npv[a] == pv[a] && npv[b] == pv[b]);
                        } else if b == place {
                            assert(npv[a] == pv[a] && npv[b] == mono@);
                        } else if a == place {
                            assert(npv[b] == pv[b - 1] && npv[a] == mono@);
                            assert(!grevlex_less(pv[b - 1], mono@));
                            if pv[b - 1] != mono@ {
                                crate::monomial::lemma_grevlex_total(pv[b - 1], mono@);
                            } else if b - 1 == place {
                                assert(pv[place as int] == pool_before[place as int]@);
                                assert(false);
                            } else {
                                assert(grevlex_less(pv[place as int], pv[b - 1]));
                                assert(!grevlex_less(pv[place as int], mono@));
                                assert(false);
                            }
                        } else if a < place {
                            assert(npv[a] == pv[a] && npv[b] == pv[b - 1]);
                        } else {
                            assert(npv[a] == pv[a - 1] && npv[b] == pv[b - 1]);
                        }
                    }
                    assert forall|j: int| 0 <= j < npv.len() implies (#[trigger] npv[j]).len() == nvars by {
                        if j < place {
                            assert(npv[j] == pv[j]);
                        } else if j > place {
                            assert(npv[j] == pv[j - 1]);
                        }
                    }
                    assert forall|m: Seq<u16>| #[trigger] npv.contains(m) <==> taken.push(mono@).contains(m) by {
                        if npv.contains(m) {
                            let j = choose|j: int| 0 <= j < npv.len() && npv[j] == m;
                            if j == place {
                                assert(taken.push(mono@)[taken.len() as int] == m);
                            } else {
                                let i = if j < place { j } else { j - 1 };
                                assert(pv[i] == m);
                                assert(pv.contains(m));
                                let t = choose|t: int| 0 <= t < taken.len() && taken[t] == m;
                                assert(taken.push(mono@)[t] == m);
                            }
                        }
                        if taken.push(mono@).contains(m) {
                            let j = choose|j: int| 0 <= j < taken.len() + 1 && taken.push(mono@)[j] == m;
                            if j == taken.len() {
                                assert(npv[place as int] == m);
                            } else {
                                assert(taken[j] == m);
                                assert(taken.contains(m));
                                assert(pv.contains(m));
                                let i = choose|i: int| 0 <= i < pv.len() && pv[i] == m;
                                if i < place {
                                    assert(npv[i] == m);
                                } else {
                                    assert(npv[i + 1] == m);
                                }
                            }
                        }
                    }
                }
                match super::cap(
                    pool.monos.len(),
                    MAX_POOL_MONOMIALS,
                    crate::certificate::CertificateCap::PoolMonomials,
                ) {
                    Ok(()) => {},
                    Err(e) => {
                        return Err(e);
                    },
                }
            }
            k += 1;
        }
        proof {
            assert(monomials@.take(k as int) =~= monomials@);
        }
        Ok(pool)
    }
}


/// The nonzero exponents among the first `n`, each after its variable.
pub open spec fn sparse_bytes(e: Seq<u16>, n: nat) -> Seq<u8>
    decreases n,
{
    if n == 0 {
        Seq::empty()
    } else {
        sparse_bytes(e, (n - 1) as nat) + if e[n - 1] != 0 {
            varint((n - 1) as nat) + varint(e[n - 1] as nat)
        } else {
            Seq::empty()
        }
    }
}

/// One pool monomial: its support size, then its sparse exponents.
pub open spec fn mono_entry(e: Seq<u16>) -> Seq<u8> {
    varint(support_count(e, e.len())) + sparse_bytes(e, e.len())
}

/// The pool section: the monomial count and each monomial, ascending.
pub open spec fn pool_bytes(pv: Seq<Seq<u16>>) -> Seq<u8> {
    varint(pv.len()) + concat(Seq::new(pv.len(), |i: int| mono_entry(pv[i])))
}

/// The first `k` items of a list given by a function.
proof fn lemma_new_push<T>(k: nat, f: spec_fn(int) -> T)
    ensures
        Seq::new(k + 1, f) == Seq::new(k, f).push(f(k as int)),
{
    assert(Seq::new(k + 1, f) =~= Seq::new(k, f).push(f(k as int)));
}

/// Append the pool section.
pub fn pool_section(out: &mut Vec<u8>, pool: &Pool)
    ensures
        final(out)@ == old(out)@ + pool_bytes(mono_views(pool.monos@)),
{
    let ghost pv = mono_views(pool.monos@);
    let ghost f = |i: int| mono_entry(pv[i]);
    put_varint(out, pool.monos.len() as u64);
    let ghost base = out@;
    let mut k: usize = 0;
    while k < pool.monos.len()
        invariant
            pv == mono_views(pool.monos@),
            f == (|i: int| mono_entry(pv[i])),
            k <= pv.len(),
            out@ == base + concat(Seq::new(k as nat, f)),
        decreases pv.len() - k,
    {
        let mono = &pool.monos[k];
        let ghost e = mono@;
        let ghost before = out@;
        let mut support: u64 = 0;
        let mut v: usize = 0;
        while v < mono.exps.len()
            invariant
                e == mono@,
                v <= e.len(),
                support == support_count(e, v as nat),
                support <= v,
            decreases e.len() - v,
        {
            if mono.exps[v] != 0 {
                support += 1;
            }
            v += 1;
        }
        put_varint(out, support);
        let ghost mid = out@;
        let mut v: usize = 0;
        while v < mono.exps.len()
            invariant
                e == mono@,
                v <= e.len(),
                out@ == mid + sparse_bytes(e, v as nat),
            decreases e.len() - v,
        {
            if mono.exps[v] != 0 {
                put_varint(out, v as u64);
                put_varint(out, mono.exps[v] as u64);
            }
            proof {
                assert(sparse_bytes(e, (v + 1) as nat) == sparse_bytes(e, v as nat) + if e[v as int] != 0 {
                    varint(v as nat) + varint(e[v as int] as nat)
                } else {
                    Seq::empty()
                });
                if e[v as int] == 0 {
                    assert(out@ =~= mid + sparse_bytes(e, (v + 1) as nat));
                }
            }
            v += 1;
        }
        proof {
            assert(pv[k as int] == e);
            lemma_new_push(k as nat, f);
            lemma_concat_push(Seq::new(k as nat, f), f(k as int));
            assert(out@ =~= base + concat(Seq::new((k + 1) as nat, f)));
        }
        k += 1;
    }
}

/// One term of an input polynomial: its coefficient and the place of its
/// monomial in the pool.
pub open spec fn term_entry(t: crate::poly::TermView, pv: Seq<Seq<u16>>) -> Seq<u8> {
    varint(t.0 as nat) + varint(index_of(pv, t.1) as nat)
}

/// One input polynomial: its term count and its terms, descending.
pub open spec fn poly_entry(s: Seq<crate::poly::TermView>, pv: Seq<Seq<u16>>) -> Seq<u8> {
    varint(s.len()) + concat(Seq::new(s.len(), |k: int| term_entry(s[s.len() - 1 - k], pv)))
}

/// The input section: the polynomial count and each polynomial.
pub open spec fn input_bytes(input: Seq<Seq<crate::poly::TermView>>, pv: Seq<Seq<u16>>) -> Seq<u8> {
    varint(input.len()) + concat(Seq::new(input.len(), |i: int| poly_entry(input[i], pv)))
}

/// Every monomial of every polynomial sits in the pool.
pub open spec fn pooled(input: Seq<crate::poly::Polynomial>, pv: Seq<Seq<u16>>) -> bool {
    forall|i: int, k: int| 0 <= i < input.len() && 0 <= k < input[i]@.len() ==> pv.contains(#[trigger] input[i]@[k].1)
}

/// Append the input section, terms strictly descending.
pub fn input_section(out: &mut Vec<u8>, input: &[crate::poly::Polynomial], pool: &Pool, Ghost(nvars): Ghost<nat>)
    requires
        pool.wf(nvars),
        pool.monos@.len() <= u32::MAX,
        pooled(input@, mono_views(pool.monos@)),
        forall|i: int| 0 <= i < input@.len() ==> (#[trigger] input@[i]).wf() && input@[i].ring.nvars == nvars,
    ensures
        final(out)@ == old(out)@ + input_bytes(crate::cert::divide::poly_views(input@), mono_views(pool.monos@)),
{
    let ghost pv = mono_views(pool.monos@);
    let ghost iv = crate::cert::divide::poly_views(input@);
    let ghost f = |i: int| poly_entry(iv[i], pv);
    put_varint(out, input.len() as u64);
    let ghost base = out@;
    let mut i: usize = 0;
    while i < input.len()
        invariant
            pv == mono_views(pool.monos@),
            iv == crate::cert::divide::poly_views(input@),
            f == (|i: int| poly_entry(iv[i], pv)),
            pool.wf(nvars),
            pool.monos@.len() <= u32::MAX,
            pooled(input@, pv),
            forall|i: int| 0 <= i < input@.len() ==> (#[trigger] input@[i]).wf() && input@[i].ring.nvars == nvars,
            i <= input@.len(),
            out@ == base + concat(Seq::new(i as nat, f)),
        decreases input@.len() - i,
    {
        let poly = &input[i];
        let ghost s = poly@;
        let ghost g = |k: int| term_entry(s[s.len() - 1 - k], pv);
        let n = poly.terms.len();
        proof {
            assert(s.len() == n);
            assert(poly.wf());
        }
        let ghost before = out@;
        put_varint(out, n as u64);
        let ghost mid = out@;
        let mut k: usize = 0;
        while k < n
            invariant
                s == poly@,
                s.len() == n,
                n == poly.terms@.len(),
                poly.wf(),
                poly.ring.nvars == nvars,
                pool.wf(nvars),
                pv == mono_views(pool.monos@),
                pool.monos@.len() <= u32::MAX,
                forall|t: int| 0 <= t < s.len() ==> pv.contains(#[trigger] s[t].1),
                g == (|k: int| term_entry(s[s.len() - 1 - k], pv)),
                k <= n,
                out@ == mid + concat(Seq::new(k as nat, g)),
            decreases n - k,
        {
            let term = &poly.terms[n - 1 - k];
            proof {
                assert(s[n - 1 - k] == term@);
                assert(pv.contains(s[n - 1 - k].1));
                assert(0 < s[n - 1 - k].0 && s[n - 1 - k].1.len() == nvars);
            }
            let ghost pre = out@;
            put_varint(out, term.coeff.value);
            let place = pool.at(&term.mono, Ghost(nvars));
            put_varint(out, place as u64);
            proof {
                lemma_new_push(k as nat, g);
                lemma_concat_push(Seq::new(k as nat, g), g(k as int));
                assert(out@ =~= mid + concat(Seq::new((k + 1) as nat, g)));
            }
            k += 1;
        }
        proof {
            assert(iv[i as int] == s);
            lemma_new_push(i as nat, f);
            lemma_concat_push(Seq::new(i as nat, f), f(i as int));
            assert(out@ =~= base + concat(Seq::new((i + 1) as nat, f)));
        }
        i += 1;
    }
}

/// The gap a step of a combination records: its node, then the distance
/// from the node before it, less one.
pub open spec fn step_gap(steps: Seq<(u32, u64)>, b: int) -> nat {
    if b == 0 {
        steps[0].0 as nat
    } else {
        (steps[b].0 - steps[b - 1].0 - 1) as nat
    }
}

/// The gaps of a combination's steps, in step order.
pub open spec fn comb_gaps(steps: Seq<(u32, u64)>) -> Seq<nat> {
    Seq::new(steps.len(), |b: int| step_gap(steps, b))
}

/// The nodes a reader recovers from gaps: the first gap is the first node,
/// and each later node lies one past the one before it plus its gap.
pub open spec fn gap_nodes(gaps: Seq<nat>) -> Seq<int>
    decreases gaps.len(),
{
    if gaps.len() == 0 {
        Seq::empty()
    } else {
        let prev = gap_nodes(gaps.drop_last());
        prev.push(
            if gaps.len() == 1 {
                gaps[0] as int
            } else {
                prev.last() + gaps.last() + 1
            },
        )
    }
}

/// Reading the written gaps back gives the nodes of the steps, for every
/// combination whose nodes strictly increase.
pub proof fn law_gaps_read_back(steps: Seq<(u32, u64)>)
    requires
        forall|a: int, b: int| 0 <= a < b < steps.len() ==> steps[a].0 < steps[b].0,
    ensures
        gap_nodes(comb_gaps(steps)) == steps.map_values(|s: (u32, u64)| s.0 as int),
    decreases steps.len(),
{
    let nodes = steps.map_values(|s: (u32, u64)| s.0 as int);
    if steps.len() > 0 {
        let front = steps.drop_last();
        law_gaps_read_back(front);
        let gaps = comb_gaps(steps);
        assert(gaps.drop_last() =~= comb_gaps(front));
        let prev = gap_nodes(gaps.drop_last());
        assert(prev =~= front.map_values(|s: (u32, u64)| s.0 as int));
        let n = steps.len() - 1;
        if n > 0 {
            assert(prev.last() == steps[n - 1].0 as int);
            assert(steps[n - 1].0 < steps[n].0);
            assert(gaps.last() == step_gap(steps, n));
        } else {
            assert(gaps[0] == steps[0].0 as nat);
        }
        assert(gap_nodes(gaps) =~= nodes);
    } else {
        assert(gap_nodes(comb_gaps(steps)) =~= nodes);
    }
}

/// The steps of a combination, each as its gap and its scalar.
pub open spec fn comb_bytes(steps: Seq<(u32, u64)>) -> Seq<u8> {
    concat(Seq::new(steps.len(), |b: int| varint(step_gap(steps, b)) + varint(steps[b].1 as nat)))
}

/// Read `n` combination steps from the front of `s`: each a gap and a
/// scalar, the first gap naming its node and each later gap the distance,
/// less one, past the node before it.
pub open spec fn read_steps(s: Seq<u8>, n: nat, prev: int, first: bool) -> Seq<(int, int)>
    decreases n,
{
    if n == 0 {
        Seq::empty()
    } else {
        let gap = read_varint(s);
        let after_gap = s.skip(gap.1);
        let scalar = read_varint(after_gap);
        let after_scalar = after_gap.skip(scalar.1);
        let node = if first {
            gap.0
        } else {
            prev + gap.0 + 1
        };
        seq![(node, scalar.0)] + read_steps(after_scalar, (n - 1) as nat, node, false)
    }
}

/// The byte strings of `a` then of `b` are those of `a + b`.
pub proof fn lemma_concat_append(a: Seq<Seq<u8>>, b: Seq<Seq<u8>>)
    ensures
        concat(a + b) == concat(a) + concat(b),
    decreases b.len(),
{
    if b.len() == 0 {
        assert(a + b =~= a);
        assert(concat(a) + concat(b) =~= concat(a));
    } else {
        assert((a + b).drop_last() =~= a + b.drop_last());
        assert((a + b).last() == b.last());
        lemma_concat_append(a, b.drop_last());
        assert(concat(a + b) =~= concat(a) + concat(b));
    }
}

/// The steps of a combination as written, one per step.
pub open spec fn comb_items(steps: Seq<(u32, u64)>) -> Seq<Seq<u8>> {
    Seq::new(steps.len(), |b: int| varint(step_gap(steps, b)) + varint(steps[b].1 as nat))
}

proof fn lemma_read_steps_from(steps: Seq<(u32, u64)>, rest: Seq<u8>, k: int)
    requires
        forall|a: int, b: int| 0 <= a < b < steps.len() ==> steps[a].0 < steps[b].0,
        0 <= k <= steps.len(),
    ensures
        read_steps(
            concat(comb_items(steps).skip(k)) + rest,
            (steps.len() - k) as nat,
            if k == 0 {
                0
            } else {
                steps[k - 1].0 as int
            },
            k == 0,
        ) == steps.skip(k).map_values(|s: (u32, u64)| (s.0 as int, s.1 as int)),
    decreases steps.len() - k,
{
    let items = comb_items(steps);
    let tail = steps.skip(k).map_values(|s: (u32, u64)| (s.0 as int, s.1 as int));
    if k == steps.len() {
        assert(tail =~= Seq::<(int, int)>::empty());
    } else {
        lemma_read_steps_from(steps, rest, k + 1);
        let later = concat(items.skip(k + 1));
        assert(items.skip(k) =~= seq![items[k]] + items.skip(k + 1));
        lemma_concat_append(seq![items[k]], items.skip(k + 1));
        assert(concat(seq![items[k]]) =~= items[k]) by {
            let one = seq![items[k]];
            assert(one.drop_last() =~= Seq::<Seq<u8>>::empty());
            assert(concat(one.drop_last()) =~= Seq::<u8>::empty());
            assert(one.last() == items[k]);
            assert(concat(one) == concat(one.drop_last()) + one.last());
        }
        let gap = step_gap(steps, k);
        let scalar = steps[k].1 as nat;
        let s = concat(items.skip(k)) + rest;
        let tail_bytes = later + rest;
        assert(s =~= varint(gap) + (varint(scalar) + tail_bytes));
        law_varint_reads_back(gap, varint(scalar) + tail_bytes);
        assert(s.skip(varint(gap).len() as int) =~= varint(scalar) + tail_bytes);
        law_varint_reads_back(scalar, tail_bytes);
        assert((varint(scalar) + tail_bytes).skip(varint(scalar).len() as int) =~= tail_bytes);
        if k > 0 {
            assert(steps[k - 1].0 < steps[k].0);
        }
        assert(tail =~= seq![(steps[k].0 as int, steps[k].1 as int)] + steps.skip(k + 1).map_values(
            |s: (u32, u64)| (s.0 as int, s.1 as int),
        ));
    }
}

/// Reading the bytes written for a combination back gives its steps, node
/// and scalar, whatever bytes follow them.
pub proof fn law_comb_reads_back(steps: Seq<(u32, u64)>, rest: Seq<u8>)
    requires
        forall|a: int, b: int| 0 <= a < b < steps.len() ==> steps[a].0 < steps[b].0,
    ensures
        read_steps(comb_bytes(steps) + rest, steps.len(), 0, true) == steps.map_values(
            |s: (u32, u64)| (s.0 as int, s.1 as int),
        ),
{
    lemma_read_steps_from(steps, rest, 0);
    assert(comb_items(steps).skip(0) =~= comb_items(steps));
    assert(steps.skip(0) =~= steps);
    assert(comb_bytes(steps) == concat(comb_items(steps)));
}

/// One node: its kind, its use count, and its payload.
pub open spec fn node_entry(node: Node, uses: u32, pv: Seq<Seq<u16>>) -> Seq<u8> {
    match node {
        Node::Input { index } => varint(0) + varint(uses as nat) + varint(index as nat),
        Node::Mul { src, mono } => varint(1) + varint(uses as nat) + varint(src as nat) + varint(
            index_of(pv, mono@) as nat,
        ),
        Node::Comb { steps } => varint(2) + varint(uses as nat) + varint(steps@.len()) + comb_bytes(steps@),
        Node::Scale { src, scalar } => varint(3) + varint(uses as nat) + varint(src as nat) + varint(scalar as nat),
    }
}

/// The trace section: the node count and each node with its use count.
pub open spec fn trace_bytes(nodes: Seq<Node>, uses: Seq<u32>, pv: Seq<Seq<u16>>) -> Seq<u8> {
    varint(nodes.len()) + concat(Seq::new(nodes.len(), |k: int| node_entry(nodes[k], uses[k], pv)))
}

/// The steps of every combination name strictly increasing nodes, and
/// every multiplier sits in the pool.
pub open spec fn nodes_encodable(nodes: Seq<Node>, pv: Seq<Seq<u16>>) -> bool {
    forall|k: int|
        0 <= k < nodes.len() ==> match #[trigger] nodes[k] {
            Node::Comb { steps } => forall|a: int, b: int| 0 <= a < b < steps@.len() ==> steps@[a].0 < steps@[b].0,
            Node::Mul { mono, .. } => pv.contains(mono@),
            _ => true,
        }
}

/// Append the trace section: each node with its kind, its use count, and
/// its payload.
pub fn trace_section(out: &mut Vec<u8>, nodes: &[Node], uses: &[u32], pool: &Pool, Ghost(nvars): Ghost<nat>)
    requires
        uses@.len() == nodes@.len(),
        pool.wf(nvars),
        pool.monos@.len() <= u32::MAX,
        nodes_encodable(nodes@, mono_views(pool.monos@)),
    ensures
        final(out)@ == old(out)@ + trace_bytes(nodes@, uses@, mono_views(pool.monos@)),
        forall|k: int|
            0 <= k < nodes@.len() ==> match #[trigger] nodes@[k] {
                Node::Comb { steps } => gap_nodes(comb_gaps(steps@)) == steps@.map_values(
                    |s: (u32, u64)| s.0 as int,
                ) && read_steps(comb_bytes(steps@), steps@.len(), 0, true) == steps@.map_values(
                    |s: (u32, u64)| (s.0 as int, s.1 as int),
                ),
                _ => true,
            },
{
    proof {
        assert forall|k: int| 0 <= k < nodes@.len() implies match #[trigger] nodes@[k] {
            Node::Comb { steps } => gap_nodes(comb_gaps(steps@)) == steps@.map_values(|s: (u32, u64)| s.0 as int)
                && read_steps(comb_bytes(steps@), steps@.len(), 0, true) == steps@.map_values(
                |s: (u32, u64)| (s.0 as int, s.1 as int),
            ),
            _ => true,
        } by {
            match nodes@[k] {
                Node::Comb { steps } => {
                    law_gaps_read_back(steps@);
                    law_comb_reads_back(steps@, Seq::empty());
                    assert(comb_bytes(steps@) + Seq::<u8>::empty() =~= comb_bytes(steps@));
                },
                _ => {},
            }
        }
    }
    let ghost pv = mono_views(pool.monos@);
    let ghost f = |k: int| node_entry(nodes@[k], uses@[k], pv);
    put_varint(out, nodes.len() as u64);
    let ghost base = out@;
    let mut k: usize = 0;
    while k < nodes.len()
        invariant
            pv == mono_views(pool.monos@),
            f == (|k: int| node_entry(nodes@[k], uses@[k], pv)),
            uses@.len() == nodes@.len(),
            pool.wf(nvars),
            pool.monos@.len() <= u32::MAX,
            nodes_encodable(nodes@, pv),
            k <= nodes@.len(),
            out@ == base + concat(Seq::new(k as nat, f)),
        decreases nodes@.len() - k,
    {
        let uses_k = uses[k];
        let ghost before = out@;
        match &nodes[k] {
            Node::Input { index } => {
                put_varint(out, 0);
                put_varint(out, uses_k as u64);
                put_varint(out, *index as u64);
            },
            Node::Mul { src, mono } => {
                proof {
                    assert(pv.contains(mono@));
                }
                put_varint(out, 1);
                put_varint(out, uses_k as u64);
                put_varint(out, *src as u64);
                let place = pool.at(mono, Ghost(nvars));
                put_varint(out, place as u64);
            },
            Node::Comb { steps } => {
                put_varint(out, 2);
                put_varint(out, uses_k as u64);
                put_varint(out, steps.len() as u64);
                let ghost sv = steps@;
                let ghost g = |b: int| varint(step_gap(sv, b)) + varint(sv[b].1 as nat);
                let ghost mid = out@;
                let mut b: usize = 0;
                while b < steps.len()
                    invariant
                        sv == steps@,
                        g == (|b: int| varint(step_gap(sv, b)) + varint(sv[b].1 as nat)),
                        forall|a: int, c: int| 0 <= a < c < sv.len() ==> sv[a].0 < sv[c].0,
                        b <= sv.len(),
                        out@ == mid + concat(Seq::new(b as nat, g)),
                    decreases sv.len() - b,
                {
                    if b == 0 {
                        put_varint(out, steps[0].0 as u64);
                    } else {
                        put_varint(out, (steps[b].0 - steps[b - 1].0 - 1) as u64);
                    }
                    put_varint(out, steps[b].1);
                    proof {
                        lemma_new_push(b as nat, g);
                        lemma_concat_push(Seq::new(b as nat, g), g(b as int));
                        assert(out@ =~= mid + concat(Seq::new((b + 1) as nat, g)));
                    }
                    b += 1;
                }
            },
            Node::Scale { src, scalar } => {
                put_varint(out, 3);
                put_varint(out, uses_k as u64);
                put_varint(out, *src as u64);
                put_varint(out, *scalar);
            },
        }
        proof {
            lemma_new_push(k as nat, f);
            lemma_concat_push(Seq::new(k as nat, f), f(k as int));
            assert(out@ =~= base + concat(Seq::new((k + 1) as nat, f)));
        }
        k += 1;
    }
}

/// The basis section: the root count and the node of each element.
pub open spec fn basis_bytes(roots: Seq<u32>) -> Seq<u8> {
    varint(roots.len()) + concat(Seq::new(roots.len(), |k: int| varint(roots[k] as nat)))
}

/// Append the node of each basis element.
pub fn basis_section(out: &mut Vec<u8>, roots: &[u32])
    ensures
        final(out)@ == old(out)@ + basis_bytes(roots@),
{
    let ghost f = |k: int| varint(roots@[k] as nat);
    put_varint(out, roots.len() as u64);
    let ghost base = out@;
    let mut k: usize = 0;
    while k < roots.len()
        invariant
            f == (|k: int| varint(roots@[k] as nat)),
            k <= roots@.len(),
            out@ == base + concat(Seq::new(k as nat, f)),
        decreases roots@.len() - k,
    {
        put_varint(out, roots[k] as u64);
        proof {
            lemma_new_push(k as nat, f);
            lemma_concat_push(Seq::new(k as nat, f), f(k as int));
            assert(out@ =~= base + concat(Seq::new((k + 1) as nat, f)));
        }
        k += 1;
    }
}


/// One division trace: the step count, then each step as the place of its
/// multiplier in the pool and the index of its element.
pub open spec fn steps_bytes(steps: Seq<Step>, pv: Seq<Seq<u16>>) -> Seq<u8> {
    varint(steps.len()) + concat(
        Seq::new(
            steps.len(),
            |k: int| varint(index_of(pv, steps[k].mono@) as nat) + varint(steps[k].element as nat),
        ),
    )
}

/// Every multiplier of the trace sits in the pool.
pub open spec fn steps_pooled(steps: Seq<Step>, pv: Seq<Seq<u16>>) -> bool {
    forall|k: int| 0 <= k < steps.len() ==> pv.contains(#[trigger] steps[k].mono@)
}

/// Append one division trace.
pub fn put_steps(out: &mut Vec<u8>, pool: &Pool, steps: &[Step], Ghost(nvars): Ghost<nat>)
    requires
        pool.wf(nvars),
        pool.monos@.len() <= u32::MAX,
        steps_pooled(steps@, mono_views(pool.monos@)),
    ensures
        final(out)@ == old(out)@ + steps_bytes(steps@, mono_views(pool.monos@)),
{
    let ghost pv = mono_views(pool.monos@);
    let ghost f = |k: int| varint(index_of(pv, steps@[k].mono@) as nat) + varint(steps@[k].element as nat);
    put_varint(out, steps.len() as u64);
    let ghost base = out@;
    let mut k: usize = 0;
    while k < steps.len()
        invariant
            pv == mono_views(pool.monos@),
            f == (|k: int| varint(index_of(pv, steps@[k].mono@) as nat) + varint(steps@[k].element as nat)),
            pool.wf(nvars),
            pool.monos@.len() <= u32::MAX,
            steps_pooled(steps@, pv),
            k <= steps@.len(),
            out@ == base + concat(Seq::new(k as nat, f)),
        decreases steps@.len() - k,
    {
        let place = pool.at(&steps[k].mono, Ghost(nvars));
        put_varint(out, place as u64);
        put_varint(out, steps[k].element as u64);
        proof {
            lemma_new_push(k as nat, f);
            lemma_concat_push(Seq::new(k as nat, f), f(k as int));
            assert(out@ =~= base + concat(Seq::new((k + 1) as nat, f)));
        }
        k += 1;
    }
}

/// The views of a list of division traces.
pub open spec fn trace_views(membership: Seq<Vec<Step>>) -> Seq<Seq<Step>> {
    membership.map_values(|t: Vec<Step>| t@)
}

/// The membership section: one division trace per input polynomial.
pub open spec fn membership_bytes(membership: Seq<Seq<Step>>, pv: Seq<Seq<u16>>) -> Seq<u8> {
    concat(Seq::new(membership.len(), |i: int| steps_bytes(membership[i], pv)))
}

/// Append one division trace per input polynomial, in input order.
pub fn membership_section(out: &mut Vec<u8>, pool: &Pool, membership: &[Vec<Step>], Ghost(nvars): Ghost<nat>)
    requires
        pool.wf(nvars),
        pool.monos@.len() <= u32::MAX,
        forall|i: int| 0 <= i < membership@.len() ==> steps_pooled(#[trigger] membership@[i]@, mono_views(pool.monos@)),
    ensures
        final(out)@ == old(out)@ + membership_bytes(trace_views(membership@), mono_views(pool.monos@)),
{
    let ghost pv = mono_views(pool.monos@);
    let ghost tv = trace_views(membership@);
    let ghost f = |i: int| steps_bytes(tv[i], pv);
    let ghost base = out@;
    let mut i: usize = 0;
    while i < membership.len()
        invariant
            pv == mono_views(pool.monos@),
            tv == trace_views(membership@),
            f == (|i: int| steps_bytes(tv[i], pv)),
            pool.wf(nvars),
            pool.monos@.len() <= u32::MAX,
            forall|i: int| 0 <= i < membership@.len() ==> steps_pooled(#[trigger] membership@[i]@, pv),
            i <= membership@.len(),
            out@ == base + concat(Seq::new(i as nat, f)),
        decreases membership@.len() - i,
    {
        put_steps(out, pool, membership[i].as_slice(), Ghost(nvars));
        proof {
            assert(tv[i as int] == membership@[i as int]@);
            lemma_new_push(i as nat, f);
            lemma_concat_push(Seq::new(i as nat, f), f(i as int));
            assert(out@ =~= base + concat(Seq::new((i + 1) as nat, f)));
        }
        i += 1;
    }
}

/// One pair witness: its kind and its payload.
pub open spec fn witness_entry(w: Witness, pv: Seq<Seq<u16>>) -> Seq<u8> {
    match w {
        Witness::Coprime => varint(0),
        Witness::Chain(k) => varint(1) + varint(k as nat),
        Witness::Reduce(steps) => varint(2) + steps_bytes(steps@, pv),
    }
}

/// The pairs section: one witness per pair, in lexicographic pair order.
pub open spec fn pairs_bytes(pairs: Seq<Witness>, pv: Seq<Seq<u16>>) -> Seq<u8> {
    concat(Seq::new(pairs.len(), |i: int| witness_entry(pairs[i], pv)))
}

/// Every trace of a witness has its multipliers in the pool.
pub open spec fn witnesses_pooled(pairs: Seq<Witness>, pv: Seq<Seq<u16>>) -> bool {
    forall|i: int|
        0 <= i < pairs.len() ==> match #[trigger] pairs[i] {
            Witness::Reduce(steps) => steps_pooled(steps@, pv),
            _ => true,
        }
}

/// Append one witness per pair, in lexicographic pair order.
pub fn pairs_section(out: &mut Vec<u8>, pool: &Pool, pairs: &[Witness], Ghost(nvars): Ghost<nat>)
    requires
        pool.wf(nvars),
        pool.monos@.len() <= u32::MAX,
        witnesses_pooled(pairs@, mono_views(pool.monos@)),
    ensures
        final(out)@ == old(out)@ + pairs_bytes(pairs@, mono_views(pool.monos@)),
{
    let ghost pv = mono_views(pool.monos@);
    let ghost f = |i: int| witness_entry(pairs@[i], pv);
    let ghost base = out@;
    let mut i: usize = 0;
    while i < pairs.len()
        invariant
            pv == mono_views(pool.monos@),
            f == (|i: int| witness_entry(pairs@[i], pv)),
            pool.wf(nvars),
            pool.monos@.len() <= u32::MAX,
            witnesses_pooled(pairs@, pv),
            i <= pairs@.len(),
            out@ == base + concat(Seq::new(i as nat, f)),
        decreases pairs@.len() - i,
    {
        match &pairs[i] {
            Witness::Coprime => {
                put_varint(out, 0);
            },
            Witness::Chain(k) => {
                put_varint(out, 1);
                put_varint(out, *k as u64);
            },
            Witness::Reduce(steps) => {
                put_varint(out, 2);
                put_steps(out, pool, steps.as_slice(), Ghost(nvars));
            },
        }
        proof {
            lemma_new_push(i as nat, f);
            lemma_concat_push(Seq::new(i as nat, f), f(i as int));
            assert(out@ =~= base + concat(Seq::new((i + 1) as nat, f)));
        }
        i += 1;
    }
}

/// The name of the contract.
pub const SCHEMA: &'static str = "sylv-gb-cert-v2";

/// The name of the monomial order.
pub const ORDER: &'static str = "grevlex-v1";

/// The eight magic bytes: `SYLVGB`, format 2, revision 0.
pub open spec fn magic() -> Seq<u8> {
    seq![0x53u8, 0x59u8, 0x4cu8, 0x56u8, 0x47u8, 0x42u8, 0x02u8, 0x00u8]
}

/// The header: the magic bytes, the schema, the order, the modulus, the
/// variable count, and the byte length of each section.
pub open spec fn header_bytes(modulus: u64, nvars: usize, lengths: Seq<nat>) -> Seq<u8> {
    magic() + string_bytes(SCHEMA.spec_bytes()) + string_bytes(ORDER.spec_bytes()) + varint(modulus as nat) + varint(
        nvars as nat,
    ) + concat(Seq::new(lengths.len(), |k: int| varint(lengths[k])))
}

/// The six sections, in header order.
pub open spec fn section_bytes(
    pv: Seq<Seq<u16>>,
    input: Seq<Seq<crate::poly::TermView>>,
    nodes: Seq<Node>,
    uses: Seq<u32>,
    roots: Seq<u32>,
    membership: Seq<Seq<Step>>,
    pairs: Seq<Witness>,
) -> Seq<Seq<u8>> {
    seq![
        pool_bytes(pv),
        input_bytes(input, pv),
        trace_bytes(nodes, uses, pv),
        basis_bytes(roots),
        membership_bytes(membership, pv),
        pairs_bytes(pairs, pv),
    ]
}

/// One certificate: the header, then the six sections.
pub open spec fn certificate_bytes(
    modulus: u64,
    nvars: usize,
    sections: Seq<Seq<u8>>,
) -> Seq<u8> {
    header_bytes(modulus, nvars, Seq::new(sections.len(), |k: int| sections[k].len())) + concat(sections)
}

/// Append a length and that many bytes.
fn put_string(out: &mut Vec<u8>, text: &str)
    ensures
        final(out)@ == old(out)@ + string_bytes(text.spec_bytes()),
{
    let bytes = text.as_bytes();
    put_varint(out, bytes.len() as u64);
    crate::cert::json::push_text(out, text);
}

/// The bytes held once each of the first `k` of `lengths` is charged in
/// turn, each charge saturating.
pub open spec fn held_after(held: usize, lengths: Seq<usize>, k: int) -> usize
    decreases k,
{
    if k <= 0 {
        held
    } else {
        saturating_total(held_after(held, lengths, k - 1), lengths[k - 1])
    }
}

/// `bytes` more fit beside `held` under the limit `memory`.
pub open spec fn room_for(memory: Option<usize>, held: usize, bytes: usize) -> bool {
    match memory {
        Some(limit) => saturating_total(held, bytes) <= limit,
        None => true,
    }
}

/// Each section fits as it is charged, and the body fits once more beside
/// them for the copy that goes behind the header.
pub open spec fn write_fits(memory: Option<usize>, held: usize, lengths: Seq<usize>, total: usize) -> bool {
    &&& forall|k: int|
        0 <= k < lengths.len() ==> room_for(memory, #[trigger] held_after(held, lengths, k), lengths[k])
    &&& room_for(memory, held_after(held, lengths, lengths.len() as int), total)
}

/// The charges depend only on the lengths charged so far.
proof fn lemma_held_prefix(held: usize, s: Seq<usize>, t: Seq<usize>, k: int)
    requires
        0 <= k <= s.len(),
        k <= t.len(),
        s.take(k) == t.take(k),
    ensures
        held_after(held, s, k) == held_after(held, t, k),
    decreases k,
{
    if k > 0 {
        assert(s.take(k - 1) =~= s.take(k).take(k - 1));
        assert(t.take(k - 1) =~= t.take(k).take(k - 1));
        assert(s[k - 1] == s.take(k)[k - 1]);
        assert(t[k - 1] == t.take(k)[k - 1]);
        lemma_held_prefix(held, s, t, k - 1);
    }
}

/// Charge one section of `length` bytes.
fn charge(budget: &mut Budget, lengths: &mut Vec<usize>, length: usize, Ghost(held): Ghost<usize>) -> (r: Result<
    (),
    ComputeError,
>)
    requires
        old(budget).held_spec() == held_after(held, old(lengths)@, old(lengths)@.len() as int),
    ensures
        final(lengths)@ == old(lengths)@.push(length),
        final(budget).held_spec() == held_after(held, final(lengths)@, final(lengths)@.len() as int),
        final(budget).stops_spec() == old(budget).stops_spec(),
        final(budget).memory_spec() == old(budget).memory_spec(),
        r is Ok <==> room_for(old(budget).memory_spec(), old(budget).held_spec(), length),
        r matches Err(e) ==> e == ComputeError::MemoryLimitExceeded,
{
    let ghost before = lengths@;
    lengths.push(length);
    proof {
        assert(lengths@.take(before.len() as int) =~= before.take(before.len() as int));
        lemma_held_prefix(held, lengths@, before, before.len() as int);
    }
    budget.hold_bytes(length)
}

/// The byte lengths of `sections`.
pub open spec fn lengths_of(sections: Seq<Seq<u8>>) -> Seq<usize> {
    Seq::new(sections.len(), |k: int| sections[k].len() as usize)
}

/// Write one certificate.
///
/// The header declares the byte length of every section, so the sections
/// go into one buffer and the header goes in front of it. The budget takes
/// each section as it is written, and checks the body once more before
/// the copy behind the header is made; the body is released once it is
/// copied. A section is charged after it is written, so the writer passes
/// the limit by at most one section.
#[verifier::rlimit(40)]
pub fn write(
    modulus: u64,
    nvars: usize,
    pool: &Pool,
    input: &[crate::poly::Polynomial],
    nodes: &[Node],
    uses: &[u32],
    roots: &[u32],
    membership: &[Vec<Step>],
    pairs: &[Witness],
    budget: &mut Budget,
) -> (r: Result<Vec<u8>, CertifyError>)
    requires
        pool.wf(nvars as nat),
        pool.monos@.len() <= u32::MAX,
        pooled(input@, mono_views(pool.monos@)),
        forall|i: int| 0 <= i < input@.len() ==> (#[trigger] input@[i]).wf() && input@[i].ring.nvars == nvars,
        uses@.len() == nodes@.len(),
        nodes_encodable(nodes@, mono_views(pool.monos@)),
        forall|i: int|
            0 <= i < membership@.len() ==> steps_pooled(#[trigger] membership@[i]@, mono_views(pool.monos@)),
        witnesses_pooled(pairs@, mono_views(pool.monos@)),
    ensures
        final(budget).stops_spec() == old(budget).stops_spec(),
        final(budget).memory_spec() == old(budget).memory_spec(),
        ({
            let sections = section_bytes(
                mono_views(pool.monos@),
                poly_views(input@),
                nodes@,
                uses@,
                roots@,
                trace_views(membership@),
                pairs@,
            );
            &&& r matches Ok(bytes) ==> bytes@ == certificate_bytes(modulus, nvars, sections)
            &&& r is Ok <==> write_fits(
                old(budget).memory_spec(),
                old(budget).held_spec(),
                lengths_of(sections),
                concat(sections).len() as usize,
            )
            &&& r matches Err(e) ==> e == CertifyError::WriterExhausted(ComputeError::MemoryLimitExceeded)
        }),
{
    let ghost pv = mono_views(pool.monos@);
    let ghost nv = nvars as nat;
    let ghost sections = section_bytes(
        pv,
        poly_views(input@),
        nodes@,
        uses@,
        roots@,
        trace_views(membership@),
        pairs@,
    );
    let ghost all = lengths_of(sections);
    let ghost held = budget.held_spec();
    let ghost memory = budget.memory_spec();
    let mut body: Vec<u8> = Vec::new();
    let mut lengths: Vec<usize> = Vec::new();
    let mut k: usize = 0;
    proof {
        assert(sections.take(0) =~= Seq::<Seq<u8>>::empty());
        assert(lengths@ =~= all.take(0));
    }
    while k < 6
        invariant
            k <= 6,
            sections.len() == 6,
            sections == section_bytes(pv, poly_views(input@), nodes@, uses@, roots@, trace_views(membership@), pairs@),
            all == lengths_of(sections),
            pv == mono_views(pool.monos@),
            nv == nvars as nat,
            pool.wf(nv),
            pool.monos@.len() <= u32::MAX,
            pooled(input@, pv),
            forall|i: int| 0 <= i < input@.len() ==> (#[trigger] input@[i]).wf() && input@[i].ring.nvars == nvars,
            uses@.len() == nodes@.len(),
            nodes_encodable(nodes@, pv),
            forall|i: int| 0 <= i < membership@.len() ==> steps_pooled(#[trigger] membership@[i]@, pv),
            witnesses_pooled(pairs@, pv),
            body@ == concat(sections.take(k as int)),
            lengths@ == all.take(k as int),
            budget.held_spec() == held_after(held, lengths@, k as int),
            budget.memory_spec() == memory,
            budget.stops_spec() == old(budget).stops_spec(),
            memory == old(budget).memory_spec(),
            held == old(budget).held_spec(),
            forall|j: int| 0 <= j < k ==> room_for(memory, #[trigger] held_after(held, all, j), all[j]),
            forall|j: int| 0 <= j < k ==> #[trigger] sections[j].len() == all[j] as nat,
        decreases 6 - k,
    {
        let start = body.len();
        if k == 0 {
            pool_section(&mut body, pool);
        } else if k == 1 {
            input_section(&mut body, input, pool, Ghost(nv));
        } else if k == 2 {
            trace_section(&mut body, nodes, uses, pool, Ghost(nv));
        } else if k == 3 {
            basis_section(&mut body, roots);
        } else if k == 4 {
            membership_section(&mut body, pool, membership, Ghost(nv));
        } else {
            pairs_section(&mut body, pool, pairs, Ghost(nv));
        }
        let length = body.len() - start;
        let ghost prev = lengths@;
        proof {
            lemma_concat_take(sections, k as int);
            assert(length == all[k as int]);
        }
        match charge(budget, &mut lengths, length, Ghost(held)) {
            Ok(()) => {},
            Err(e) => {
                proof {
                    lemma_write_stops(held, memory, sections, prev, length);
                }
                return Err(CertifyError::WriterExhausted(e));
            },
        }
        proof {
            assert(lengths@ =~= all.take(k + 1));
            assert(prev.take(k as int) =~= all.take(k as int));
            lemma_held_prefix(held, prev, all, k as int);
        }
        k += 1;
    }
    proof {
        assert(sections.take(6) =~= sections);
        assert(all.take(6) =~= all);
    }

    let mut out: Vec<u8> = Vec::new();
    out.push(0x53u8);
    out.push(0x59u8);
    out.push(0x4cu8);
    out.push(0x56u8);
    out.push(0x47u8);
    out.push(0x42u8);
    out.push(0x02u8);
    out.push(0x00u8);
    assert(out@ =~= magic());
    put_string(&mut out, SCHEMA);
    put_string(&mut out, ORDER);
    put_varint(&mut out, modulus);
    put_varint(&mut out, nvars as u64);
    let ghost head = out@;
    let ghost f = |k: int| varint(lengths@[k] as nat);
    let mut k: usize = 0;
    while k < lengths.len()
        invariant
            k <= lengths@.len(),
            f == (|k: int| varint(lengths@[k] as nat)),
            out@ == head + concat(Seq::new(k as nat, f)),
        decreases lengths@.len() - k,
    {
        put_varint(&mut out, lengths[k] as u64);
        proof {
            lemma_new_push(k as nat, f);
            lemma_concat_push(Seq::new(k as nat, f), f(k as int));
            assert(out@ =~= head + concat(Seq::new((k + 1) as nat, f)));
        }
        k += 1;
    }
    proof {
        assert forall|j: int| 0 <= j < 6 implies #[trigger] lengths@[j] as nat == sections[j].len() by {
            assert(sections[j].len() == all[j] as nat);
        }
        assert(Seq::new(k as nat, f) =~= Seq::new(6, |j: int| varint(Seq::new(6, |i: int| sections[i].len())[j])));
        assert(out@ == header_bytes(modulus, nvars, Seq::new(6, |i: int| sections[i].len())));
    }
    match budget.check_bytes(body.len()) {
        Ok(()) => {},
        Err(e) => {
            return Err(CertifyError::WriterExhausted(e));
        },
    }
    let ghost before = out@;
    let mut i: usize = 0;
    while i < body.len()
        invariant
            i <= body@.len(),
            out@ == before + body@.take(i as int),
        decreases body@.len() - i,
    {
        out.push(body[i]);
        proof {
            assert(body@.take(i as int + 1) =~= body@.take(i as int).push(body@[i as int]));
        }
        i += 1;
    }
    proof {
        assert(body@.take(i as int) =~= body@);
    }
    budget.release_bytes(body.len());
    Ok(out)
}

/// The body after `k` sections is the first `k` sections, one after
/// another.
proof fn lemma_concat_take(sections: Seq<Seq<u8>>, k: int)
    requires
        0 <= k < sections.len(),
    ensures
        concat(sections.take(k + 1)) == concat(sections.take(k)) + sections[k],
{
    assert(sections.take(k + 1) =~= sections.take(k).push(sections[k]));
    lemma_concat_push(sections.take(k), sections[k]);
}

/// A charge that did not fit makes the whole write not fit.
proof fn lemma_write_stops(held: usize, memory: Option<usize>, sections: Seq<Seq<u8>>, prev: Seq<usize>, length: usize)
    requires
        prev.len() < sections.len(),
        prev == lengths_of(sections).take(prev.len() as int),
        length == lengths_of(sections)[prev.len() as int],
        !room_for(memory, held_after(held, prev, prev.len() as int), length),
    ensures
        !write_fits(memory, held, lengths_of(sections), concat(sections).len() as usize),
{
    let all = lengths_of(sections);
    let j = prev.len() as int;
    assert(prev.take(j) =~= all.take(j));
    lemma_held_prefix(held, prev, all, j);
    assert(!room_for(memory, held_after(held, all, j), all[j]));
}

} // verus!
