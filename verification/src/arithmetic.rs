//! Budgeted arithmetic for polynomials.

use vstd::arithmetic::div_mod::*;
use vstd::arithmetic::power::{lemma_pow0, lemma_pow1, lemma_pow_adds, lemma_pow_increases, lemma_pow_positive, pow};
use vstd::prelude::*;

use crate::compute::{Budget, ComputeError, ComputeLimits, DEGREE_LIMIT, RunError, reported_error};
use crate::field::{Felt, MODULUS_LIMIT, is_prime, lemma_product_nonzero, valid_modulus};
use crate::product::{lemma_power_one, lemma_power_step, power_views, same_mod, terms_len};
use crate::monomial::{
    Monomial,
    grevlex_less,
    lemma_grevlex_asymmetric,
    lemma_grevlex_irreflexive,
    lemma_grevlex_total,
    lemma_grevlex_transitive,
    mono_mul,
    product_fits,
};
use crate::poly::{
    Polynomial,
    Term,
    TermView,
    coeff_at,
    is_combination,
    lemma_coeff_at_concat,
    lemma_coeff_at_empty_suffix,
    lemma_coeff_at_full,
    lemma_coeff_at_push,
    lemma_coeff_at_range,
    lemma_coeff_at_scaled,
    lemma_scaled_wf,
    scaled_list,
    scale_by_term,
    mul_views,
    is_product,
    products_fit,
    lemma_coeff_at_signed,
    lemma_coeff_at_sorted,
    lemma_coeff_at_suffix,
    lemma_mod_shift,
    lemma_sorted_concat,
    lemma_wf_subrange,
    lemma_widths,
    neg_coeff,
    signed_coeff,
    signed_list,
    signed_view,
    sorted_terms,
    term_value,
    terms_in_ring,
    terms_wf,
    views,
};

verus! {

/// Why a polynomial arithmetic operation stopped.
///
/// The operation checks its ring and its budget before it allocates a
/// result.
#[derive(Clone, Copy, Debug, PartialEq, Eq, Structural)]
pub enum ArithmeticError {
    /// The two operands belong to different rings.
    RingMismatch,
    /// A supplied coefficient cannot be read by the polynomial's field.
    CoefficientConversion,
    /// A product needs an exponent above `limit`.
    ExponentLimit {
        /// The largest value one exponent can hold.
        limit: u32,
    },
    /// The deadline passed.
    Timeout,
    /// The operation's live data passed the memory limit.
    MemoryLimitExceeded,
}

/// The bytes of the exponents one term keeps on the heap.
pub open spec fn exps_bytes_spec(nvars: int) -> int {
    nvars * 2
}

/// The bytes one term costs: the term itself and its exponents.
pub open spec fn per_term_spec(nvars: int) -> int {
    size_of::<Term>() + exps_bytes_spec(nvars)
}

/// The bytes `terms` terms of `nvars` variables cost.
pub open spec fn storage_spec(nvars: int, terms: int) -> int {
    per_term_spec(nvars) * terms
}

/// The sum of a list of byte counts.
pub open spec fn sum_parts(parts: Seq<usize>) -> int
    decreases parts.len(),
{
    if parts.len() == 0 {
        0
    } else {
        sum_parts(parts.drop_last()) + parts.last()
    }
}

/// The parts fit one `usize` together and the memory limit holds them.
pub open spec fn parts_fit(memory: Option<usize>, parts: Seq<usize>) -> bool {
    &&& sum_parts(parts) <= usize::MAX
    &&& match memory {
        Some(limit) => sum_parts(parts) <= limit,
        None => true,
    }
}

/// The bytes a polynomial holds.
pub open spec fn retained_spec(poly: &Polynomial) -> int {
    storage_spec(poly.ring.nvars as int, poly@.len() as int)
}

/// A count of bytes fits a `usize`.
pub open spec fn fits_usize(bytes: int) -> bool {
    0 <= bytes <= usize::MAX
}

/// The memory an addition or a subtraction charges before it merges.
pub open spec fn sum_charge(left: &Polynomial, right: &Polynomial) -> Seq<usize> {
    seq![
        retained_spec(left) as usize,
        retained_spec(right) as usize,
        storage_spec(left.ring.nvars as int, (left@.len() + right@.len()) as int) as usize,
    ]
}

/// Every estimate of an addition fits and the limit holds them.
pub open spec fn sum_fits(left: &Polynomial, right: &Polynomial, memory: Option<usize>) -> bool {
    &&& left@.len() + right@.len() <= usize::MAX
    &&& fits_usize(per_term_spec(left.ring.nvars as int))
    &&& fits_usize(storage_spec(left.ring.nvars as int, (left@.len() + right@.len()) as int))
    &&& fits_usize(retained_spec(left))
    &&& fits_usize(retained_spec(right))
    &&& parts_fit(memory, sum_charge(left, right))
}

proof fn lemma_storage_monotone(nvars: int, a: int, b: int)
    requires
        nvars >= 0,
        0 <= a <= b,
    ensures
        0 <= storage_spec(nvars, a) <= storage_spec(nvars, b),
{
    assert(per_term_spec(nvars) >= 0);
    assert(per_term_spec(nvars) * a <= per_term_spec(nvars) * b) by (nonlinear_arith)
        requires
            per_term_spec(nvars) >= 0,
            0 <= a <= b,
    ;
    assert(per_term_spec(nvars) * a >= 0) by (nonlinear_arith)
        requires
            per_term_spec(nvars) >= 0,
            0 <= a,
    ;
}

fn check_same_ring(left: &Polynomial, right: &Polynomial) -> (r: Result<(), ArithmeticError>)
    ensures
        r is Ok <==> left.ring == right.ring,
        r matches Err(e) ==> e == ArithmeticError::RingMismatch,
{
    if left.ring == right.ring {
        Ok(())
    } else {
        Err(ArithmeticError::RingMismatch)
    }
}

fn checked_sum(left: usize, right: usize) -> (r: Result<usize, ArithmeticError>)
    ensures
        r is Ok <==> left + right <= usize::MAX,
        r matches Ok(s) ==> s == left + right,
        r matches Err(e) ==> e == ArithmeticError::MemoryLimitExceeded,
{
    match left.checked_add(right) {
        Some(sum) => Ok(sum),
        None => Err(ArithmeticError::MemoryLimitExceeded),
    }
}

/// The bytes of the exponents one term of `nvars` variables keeps on the
/// heap.
fn heap_exps_bytes(nvars: usize) -> (r: Result<usize, ArithmeticError>)
    ensures
        r is Ok <==> fits_usize(exps_bytes_spec(nvars as int)),
        r matches Ok(b) ==> b == exps_bytes_spec(nvars as int),
        r matches Err(e) ==> e == ArithmeticError::MemoryLimitExceeded,
{
    match nvars.checked_mul(2) {
        Some(bytes) => Ok(bytes),
        None => Err(ArithmeticError::MemoryLimitExceeded),
    }
}

/// The bytes `terms` terms of `nvars` variables cost.
fn term_storage(nvars: usize, terms: usize) -> (r: Result<usize, ArithmeticError>)
    ensures
        r is Ok <==> fits_usize(per_term_spec(nvars as int)) && fits_usize(
            storage_spec(nvars as int, terms as int),
        ),
        r matches Ok(b) ==> b == storage_spec(nvars as int, terms as int),
        r matches Err(e) ==> e == ArithmeticError::MemoryLimitExceeded,
{
    let exps = match heap_exps_bytes(nvars) {
        Ok(bytes) => bytes,
        Err(e) => {
            proof {
                assert(per_term_spec(nvars as int) > usize::MAX);
            }
            return Err(e);
        },
    };
    let per_term = match size_of::<Term>().checked_add(exps) {
        Some(bytes) => bytes,
        None => {
            return Err(ArithmeticError::MemoryLimitExceeded);
        },
    };
    match per_term.checked_mul(terms) {
        Some(bytes) => Ok(bytes),
        None => Err(ArithmeticError::MemoryLimitExceeded),
    }
}

/// The bytes a polynomial holds: its terms and their exponents.
fn retained_bytes(poly: &Polynomial) -> (r: Result<usize, ArithmeticError>)
    ensures
        r is Ok <==> fits_usize(per_term_spec(poly.ring.nvars as int)) && fits_usize(
            retained_spec(poly),
        ),
        r matches Ok(b) ==> b == retained_spec(poly),
        r matches Err(e) ==> e == ArithmeticError::MemoryLimitExceeded,
{
    term_storage(poly.ring.nvars, poly.terms.len())
}

/// The error a stopped run reports.
fn stop_error(stop: RunError) -> (e: ArithmeticError)
    ensures
        reported_error(stop) == ComputeError::MemoryLimitExceeded ==> e
            == ArithmeticError::MemoryLimitExceeded,
        reported_error(stop) != ComputeError::MemoryLimitExceeded ==> e == ArithmeticError::Timeout,
{
    match stop.reported() {
        ComputeError::MemoryLimitExceeded => ArithmeticError::MemoryLimitExceeded,
        _ => ArithmeticError::Timeout,
    }
}

/// Stop when the deadline passed or the run is cancelled.
fn check_stop(limits: &ComputeLimits) -> (r: Result<(), ArithmeticError>)
    ensures
        limits.is_open() ==> r is Ok,
        r matches Err(e) ==> e == ArithmeticError::Timeout && !limits.is_open(),
{
    if let Some(stop) = limits.stop() {
        return Err(stop_error(stop));
    }
    Ok(())
}

/// Stop at item `index` of a loop, reading the clock every few items.
fn check_work(limits: &ComputeLimits, index: usize) -> (r: Result<(), ArithmeticError>)
    ensures
        limits.is_open() ==> r is Ok,
        r matches Err(e) ==> e == ArithmeticError::Timeout && !limits.is_open(),
{
    if let Some(stop) = limits.stop_every(index) {
        return Err(stop_error(stop));
    }
    Ok(())
}

/// Stop when the parts together pass the memory limit or a `usize`.
fn check_memory(limits: &ComputeLimits, parts: &[usize]) -> (r: Result<(), ArithmeticError>)
    ensures
        r is Ok ==> parts_fit(limits.memory, parts@),
        r matches Err(e) ==> (e == ArithmeticError::MemoryLimitExceeded && !parts_fit(
            limits.memory,
            parts@,
        )) || (e == ArithmeticError::Timeout && !limits.is_open()),
        limits.is_open() && parts_fit(limits.memory, parts@) ==> r is Ok,
{
    check_stop(limits)?;
    let mut bytes: usize = 0;
    let mut i: usize = 0;
    while i < parts.len()
        invariant
            i <= parts@.len(),
            bytes == sum_parts(parts@.take(i as int)),
        decreases parts@.len() - i,
    {
        proof {
            assert(parts@.take(i as int + 1).drop_last() =~= parts@.take(i as int));
            lemma_sum_parts_prefix(parts@, i as int + 1);
        }
        bytes = match bytes.checked_add(parts[i]) {
            Some(sum) => sum,
            None => {
                return Err(ArithmeticError::MemoryLimitExceeded);
            },
        };
        i += 1;
    }
    assert(parts@.take(i as int) =~= parts@);
    match limits.memory {
        Some(limit) => {
            if bytes > limit {
                return Err(ArithmeticError::MemoryLimitExceeded);
            }
        },
        None => {},
    }
    Ok(())
}

proof fn lemma_sum_parts_prefix(parts: Seq<usize>, k: int)
    requires
        0 <= k <= parts.len(),
    ensures
        sum_parts(parts.take(k)) <= sum_parts(parts),
        sum_parts(parts.take(k)) >= 0,
    decreases parts.len(),
{
    if parts.len() > 0 {
        if k == parts.len() {
            assert(parts.take(k) =~= parts);
            lemma_sum_parts_prefix(parts.drop_last(), k - 1);
            assert(parts.drop_last().take(k - 1) =~= parts.take(k - 1));
            lemma_sum_parts_prefix(parts.drop_last(), 0);
            assert(parts.drop_last().take(parts.len() - 1) =~= parts.drop_last());
        } else {
            lemma_sum_parts_prefix(parts.drop_last(), k);
            assert(parts.drop_last().take(k) =~= parts.take(k));
            lemma_sum_parts_prefix(parts.drop_last(), parts.len() - 1);
            assert(parts.drop_last().take(parts.len() - 1) =~= parts.drop_last());
        }
    } else {
        assert(parts.take(k) =~= parts);
    }
}

/// Work counters never wrap.
fn bump(work: usize) -> (r: usize)
    ensures
        r == (if work < usize::MAX {
            work + 1
        } else {
            work as int
        }),
{
    if work < usize::MAX {
        work + 1
    } else {
        work
    }
}

/// The term with its coefficient negated when `negate` holds.
fn signed_term(term: &Term, negate: bool, p: u64) -> (t: Term)
    requires
        p < MODULUS_LIMIT,
        term.coeff.value < p,
    ensures
        t@ == signed_view(term@, negate, p as int),
{
    let coeff = if negate {
        if term.coeff.value == 0 {
            term.coeff
        } else {
            Felt { value: p - term.coeff.value }
        }
    } else {
        term.coeff
    };
    Term { coeff, mono: term.mono.copy() }
}

/// The sum or the difference of two coefficients, or `None` when it is
/// zero.
fn combined_coefficient(left: &Term, right: &Term, subtract: bool, p: u64) -> (c: Option<Felt>)
    requires
        p < MODULUS_LIMIT,
        p > 0,
        left.coeff.value < p,
        right.coeff.value < p,
    ensures
        c is None <==> (left@.0 + signed_coeff(right@.0, subtract)) % (p as int) == 0,
        c matches Some(c) ==> c.value == (left@.0 + signed_coeff(right@.0, subtract)) % (p as int)
            && 0 < c.value < p,
{
    let value = if subtract {
        left.coeff.sub(right.coeff, p)
    } else {
        left.coeff.add(right.coeff, p)
    };
    if value.value == 0 {
        None
    } else {
        Some(value)
    }
}

/// The combination invariant of a merge, at one monomial.
pub open spec fn merge_holds(
    out: Seq<TermView>,
    a: Seq<TermView>,
    i: int,
    b: Seq<TermView>,
    j: int,
    negate: bool,
    p: int,
    m: Seq<u16>,
) -> bool {
    (coeff_at(out, m) + coeff_at(a.subrange(i, a.len() as int), m) + signed_coeff(
        coeff_at(b.subrange(j, b.len() as int), m),
        negate,
    )) % p == (coeff_at(a, m) + signed_coeff(coeff_at(b, m), negate)) % p
}

/// Push signed copies of `terms[from..]` onto `out`.
fn copy_tail(
    out: &mut Vec<Term>,
    terms: &Vec<Term>,
    from: usize,
    negate: bool,
    p: u64,
    limits: &ComputeLimits,
    work: usize,
) -> (r: Result<(), ArithmeticError>)
    requires
        p < MODULUS_LIMIT,
        from <= terms@.len(),
        forall|k: int| 0 <= k < terms@.len() ==> (#[trigger] terms@[k]).coeff.value < p,
    ensures
        r is Ok ==> views(final(out)@) == views(old(out)@) + views(terms@).subrange(
            from as int,
            terms@.len() as int,
        ).map_values(|t: TermView| signed_view(t, negate, p as int)),
        r is Ok ==> views(final(out)@) == views(old(out)@) + signed_list(
            views(terms@).subrange(from as int, terms@.len() as int),
            negate,
            p as int,
        ),
        limits.is_open() ==> r is Ok,
        r matches Err(e) ==> e == ArithmeticError::Timeout && !limits.is_open(),
{
    let ghost start = views(out@);
    let mut k: usize = from;
    let mut work = work;
    while k < terms.len()
        invariant
            p < MODULUS_LIMIT,
            from <= k <= terms@.len(),
            forall|q: int| 0 <= q < terms@.len() ==> (#[trigger] terms@[q]).coeff.value < p,
            views(out@) == start + views(terms@).subrange(from as int, k as int).map_values(
                |t: TermView| signed_view(t, negate, p as int),
            ),
        decreases terms@.len() - k,
    {
        check_work(limits, work)?;
        let t = signed_term(&terms[k], negate, p);
        let ghost before = out@;
        out.push(t);
        proof {
            assert(views(out@) =~= views(before).push(t@));
            assert(views(terms@).subrange(from as int, k as int + 1).map_values(
                |t: TermView| signed_view(t, negate, p as int),
            ) =~= views(terms@).subrange(from as int, k as int).map_values(
                |t: TermView| signed_view(t, negate, p as int),
            ).push(signed_view(views(terms@)[k as int], negate, p as int)));
        }
        work = bump(work);
        k += 1;
    }
    Ok(())
}

proof fn lemma_merge_left(
    out: Seq<TermView>,
    a: Seq<TermView>,
    i: int,
    b: Seq<TermView>,
    j: int,
    negate: bool,
    p: int,
)
    requires
        0 <= i < a.len(),
        0 <= j <= b.len(),
        forall|m: Seq<u16>| #[trigger] merge_holds(out, a, i, b, j, negate, p, m),
    ensures
        forall|m: Seq<u16>| #[trigger] merge_holds(out.push(a[i]), a, i + 1, b, j, negate, p, m),
{
    assert forall|m: Seq<u16>| #[trigger] merge_holds(out.push(a[i]), a, i + 1, b, j, negate, p, m) by {
        assert(merge_holds(out, a, i, b, j, negate, p, m));
        lemma_coeff_at_push(out, a[i], m);
        lemma_coeff_at_suffix(a, i, m);
    }
}

proof fn lemma_merge_right(
    out: Seq<TermView>,
    a: Seq<TermView>,
    i: int,
    b: Seq<TermView>,
    j: int,
    negate: bool,
    p: int,
)
    requires
        p > 0,
        0 <= i <= a.len(),
        0 <= j < b.len(),
        forall|m: Seq<u16>| #[trigger] merge_holds(out, a, i, b, j, negate, p, m),
    ensures
        forall|m: Seq<u16>|
            #[trigger] merge_holds(out.push(signed_view(b[j], negate, p)), a, i, b, j + 1, negate, p, m),
{
    let t = signed_view(b[j], negate, p);
    assert forall|m: Seq<u16>| #[trigger] merge_holds(out.push(t), a, i, b, j + 1, negate, p, m) by {
        assert(merge_holds(out, a, i, b, j, negate, p, m));
        lemma_coeff_at_push(out, t, m);
        lemma_coeff_at_suffix(b, j, m);
        let ra = coeff_at(a.subrange(i, a.len() as int), m);
        let rb = coeff_at(b.subrange(j + 1, b.len() as int), m);
        let x = coeff_at(out, m) + ra + signed_coeff(rb, negate);
        if negate && b[j].1 == m && b[j].0 != 0 {
            assert(coeff_at(out.push(t), m) + ra + signed_coeff(rb, negate) == x + term_value(t, m));
            assert(term_value(t, m) == p - b[j].0);
            lemma_mod_shift(x - b[j].0, p, p);
            lemma_mod_self_0(p);
        }
    }
}

proof fn lemma_merge_equal(
    out: Seq<TermView>,
    a: Seq<TermView>,
    i: int,
    b: Seq<TermView>,
    j: int,
    negate: bool,
    p: int,
    pushed: Seq<TermView>,
)
    requires
        p > 0,
        0 <= i < a.len(),
        0 <= j < b.len(),
        a[i].1 == b[j].1,
        pushed.len() <= 1,
        pushed.len() == 1 ==> pushed[0] == ((a[i].0 + signed_coeff(b[j].0, negate)) % p, a[i].1),
        pushed.len() == 0 ==> (a[i].0 + signed_coeff(b[j].0, negate)) % p == 0,
        forall|m: Seq<u16>| #[trigger] merge_holds(out, a, i, b, j, negate, p, m),
    ensures
        forall|m: Seq<u16>| #[trigger] merge_holds(out + pushed, a, i + 1, b, j + 1, negate, p, m),
{
    assert forall|m: Seq<u16>| #[trigger] merge_holds(out + pushed, a, i + 1, b, j + 1, negate, p, m) by {
        assert(merge_holds(out, a, i, b, j, negate, p, m));
        lemma_coeff_at_concat(out, pushed, m);
        lemma_coeff_at_suffix(a, i, m);
        lemma_coeff_at_suffix(b, j, m);
        let ra = coeff_at(a.subrange(i + 1, a.len() as int), m);
        let rb = coeff_at(b.subrange(j + 1, b.len() as int), m);
        let base = coeff_at(out, m) + ra + signed_coeff(rb, negate);
        let w = term_value(a[i], m) + signed_coeff(term_value(b[j], m), negate);
        assert(coeff_at(out, m) + coeff_at(a.subrange(i, a.len() as int), m) + signed_coeff(
            coeff_at(b.subrange(j, b.len() as int), m),
            negate,
        ) == base + w);
        let v = coeff_at(pushed, m);
        assert(coeff_at(Seq::<TermView>::empty(), m) == 0);
        if pushed.len() == 1 {
            assert(pushed.drop_last() =~= Seq::<TermView>::empty());
            assert(v == term_value(pushed[0], m));
        } else {
            assert(pushed =~= Seq::<TermView>::empty());
            assert(v == 0);
        }
        assert(v % p == w % p) by {
            lemma_small_mod(0, p as nat);
            if a[i].1 == m {
                assert(w == a[i].0 + signed_coeff(b[j].0, negate));
                lemma_mod_twice(a[i].0 + signed_coeff(b[j].0, negate), p);
            } else {
                assert(w == 0);
                assert(v == 0);
            }
        }
        lemma_add_mod_noop(base, v, p);
        lemma_add_mod_noop(base, w, p);
    }
}

/// Merge two canonical term lists into their sum, or their difference when
/// `subtract` holds.
pub fn combine_terms(left: &Polynomial, right: &Polynomial, subtract: bool, limits: &ComputeLimits) -> (r:
    Result<Vec<Term>, ArithmeticError>)
    requires
        left.wf(),
        right.wf(),
        left.ring == right.ring,
    ensures
        r matches Ok(out) ==> terms_wf(
            views(out@),
            left.ring.modulus as int,
            left.ring.nvars as nat,
        ) && is_combination(views(out@), left@, right@, subtract, left.ring.modulus as int) && out@.len()
            <= left@.len() + right@.len(),
        r matches Err(e) ==> (e == ArithmeticError::MemoryLimitExceeded && left@.len() + right@.len()
            > usize::MAX) || (e == ArithmeticError::Timeout && !limits.is_open()),
        limits.is_open() && left@.len() + right@.len() <= usize::MAX ==> r is Ok,
{
    let capacity = checked_sum(left.terms.len(), right.terms.len())?;
    merge_terms(left, right, subtract, limits, Vec::with_capacity(capacity))
}

/// Merge two canonical term lists into `out`, which starts empty: their
/// sum, or their difference when `subtract` holds.
#[verifier::rlimit(40)]
#[verifier::spinoff_prover]
pub fn merge_terms(left: &Polynomial, right: &Polynomial, subtract: bool, limits: &ComputeLimits, out: Vec<Term>) -> (r:
    Result<Vec<Term>, ArithmeticError>)
    requires
        left.wf(),
        right.wf(),
        left.ring == right.ring,
        out@.len() == 0,
    ensures
        r matches Ok(out) ==> terms_wf(
            views(out@),
            left.ring.modulus as int,
            left.ring.nvars as nat,
        ) && is_combination(views(out@), left@, right@, subtract, left.ring.modulus as int) && out@.len()
            <= left@.len() + right@.len(),
        r matches Err(e) ==> e == ArithmeticError::Timeout && !limits.is_open(),
        limits.is_open() ==> r is Ok,
{
    let mut out = out;
    let p = left.ring.modulus;
    let ghost pi = p as int;
    let ghost nv = left.ring.nvars as nat;
    let ghost a = left@;
    let ghost b = right@;
    let mut i: usize = 0;
    let mut j: usize = 0;
    let mut work: usize = 0;
    proof {
        assert forall|m: Seq<u16>| #[trigger] merge_holds(views(out@), a, 0, b, 0, subtract, pi, m) by {
            assert(views(out@) =~= Seq::<TermView>::empty());
            lemma_coeff_at_full(a, m);
            lemma_coeff_at_full(b, m);
        }
    }
    while i < left.terms.len() && j < right.terms.len()
        invariant
            left.wf(),
            right.wf(),
            left.ring == right.ring,
            p == left.ring.modulus,
            pi == p,
            nv == left.ring.nvars,
            a == left@,
            b == right@,
            i <= a.len(),
            j <= b.len(),
            out@.len() <= i + j,
            terms_in_ring(views(out@), pi, nv),
            sorted_terms(views(out@)),
            views(out@).len() > 0 ==> (i < a.len() ==> grevlex_less(views(out@).last().1, a[i as int].1))
                && (j < b.len() ==> grevlex_less(views(out@).last().1, b[j as int].1)),
            forall|m: Seq<u16>| #[trigger] merge_holds(views(out@), a, i as int, b, j as int, subtract, pi, m),
        decreases a.len() + b.len() - i - j,
    {
        check_work(limits, work)?;
        let left_term = &left.terms[i];
        let right_term = &right.terms[j];
        let ghost before = views(out@);
        assert(a[i as int] == left_term@);
        assert(b[j as int] == right_term@);
        assert(0 < a[i as int].0 < pi);
        assert(0 < b[j as int].0 < pi);
        if left_term.mono.less_than(&right_term.mono) {
            let t = left_term.copy();
            out.push(t);
            proof {
                assert(views(out@) =~= before.push(a[i as int]));
                lemma_merge_left(before, a, i as int, b, j as int, subtract, pi);
                lemma_push_sorted(before, a[i as int], pi, nv);
                assert(sorted_terms(views(out@)));
                if i + 1 < a.len() {
                    assert(grevlex_less(a[i as int].1, a[i as int + 1].1));
                }
            }
            i += 1;
        } else if right_term.mono.less_than(&left_term.mono) {
            let t = signed_term(right_term, subtract, p);
            out.push(t);
            proof {
                assert(views(out@) =~= before.push(signed_view(b[j as int], subtract, pi)));
                lemma_merge_right(before, a, i as int, b, j as int, subtract, pi);
                lemma_push_sorted(before, signed_view(b[j as int], subtract, pi), pi, nv);
                assert(sorted_terms(views(out@)));
                if j + 1 < b.len() {
                    assert(grevlex_less(b[j as int].1, b[j as int + 1].1));
                }
            }
            j += 1;
        } else {
            proof {
                if a[i as int].1 != b[j as int].1 {
                    lemma_grevlex_total(a[i as int].1, b[j as int].1);
                }
            }
            let ghost pushed: Seq<TermView>;
            match combined_coefficient(left_term, right_term, subtract, p) {
                Some(coeff) => {
                    let t = Term { coeff, mono: left_term.mono.copy() };
                    out.push(t);
                    proof {
                        pushed = seq![t@];
                        assert(views(out@) =~= before + pushed);
                        assert(before + pushed =~= before.push(t@));
                        lemma_push_sorted(before, t@, pi, nv);
                        assert(sorted_terms(views(out@)));
                    }
                },
                None => {
                    proof {
                        pushed = Seq::<TermView>::empty();
                        assert(views(out@) =~= before + pushed);
                        assert(before + pushed =~= before);
                    }
                },
            }
            proof {
                lemma_merge_equal(before, a, i as int, b, j as int, subtract, pi, pushed);
                lemma_widths(before, pi, nv);
                lemma_widths(a, pi, nv);
                lemma_widths(b, pi, nv);
                if i + 1 < a.len() {
                    assert(grevlex_less(a[i as int].1, a[i as int + 1].1));
                    if before.len() > 0 {
                        lemma_grevlex_transitive(before.last().1, a[i as int].1, a[i as int + 1].1);
                    }
                }
                if j + 1 < b.len() {
                    assert(grevlex_less(b[j as int].1, b[j as int + 1].1));
                    if before.len() > 0 {
                        lemma_grevlex_transitive(before.last().1, b[j as int].1, b[j as int + 1].1);
                    }
                }
            }
            i += 1;
            j += 1;
        }
        work = bump(work);
    }
    let ghost mid = views(out@);
    let ghost (mi, mj) = (i as int, j as int);
    proof {
        assert forall|k: int| 0 <= k < left.terms@.len() implies (#[trigger] left.terms@[k]).coeff.value
            < p by {
            assert(0 < a[k].0 < pi);
        }
        assert forall|k: int| 0 <= k < right.terms@.len() implies (#[trigger] right.terms@[k]).coeff.value
            < p by {
            assert(0 < b[k].0 < pi);
        }
    }
    copy_tail(&mut out, &left.terms, i, false, p, limits, work)?;
    let ghost after_left = views(out@);
    let right_work = bump(work);
    copy_tail(&mut out, &right.terms, j, subtract, p, limits, right_work)?;
    proof {
        let ta = a.subrange(mi, a.len() as int);
        let tb = b.subrange(mj, b.len() as int);
        let fa = |t: TermView| signed_view(t, false, pi);
        let fb = |t: TermView| signed_view(t, subtract, pi);
        assert(ta.map_values(fa) =~= ta);
        let sb = signed_list(tb, subtract, pi);
        assert(after_left == mid + ta);
        assert(views(out@) == mid + ta + sb);
        lemma_wf_subrange(a, pi, nv, mi, a.len() as int);
        lemma_wf_subrange(b, pi, nv, mj, b.len() as int);
        lemma_signed_wf(tb, subtract, pi, nv);
        lemma_widths(mid, pi, nv);
        lemma_widths(ta, pi, nv);
        lemma_widths(sb, pi, nv);
        lemma_sorted_concat(mid, ta, nv);
        if ta.len() > 0 {
            assert(sb.len() == 0);
            assert(mid + ta + sb =~= mid + ta);
        } else {
            assert(mid + ta =~= mid);
            if mid.len() > 0 && sb.len() > 0 {
                assert(sb[0].1 == b[mj].1);
            }
            lemma_sorted_concat(mid, sb, nv);
        }
        assert forall|k: int| 0 <= k < views(out@).len() implies 0 < #[trigger] views(out@)[k].0
            < pi && views(out@)[k].1.len() == nv by {
            let z = views(out@);
            if k < mid.len() {
                assert(z[k] == mid[k]);
            } else if k < mid.len() + ta.len() {
                assert(z[k] == ta[k - mid.len()]);
            } else {
                assert(z[k] == sb[k - mid.len() - ta.len()]);
            }
        }
        assert forall|m: Seq<u16>| #[trigger] coeff_at(views(out@), m) == (coeff_at(a, m)
            + signed_coeff(coeff_at(b, m), subtract)) % pi by {
            assert(merge_holds(mid, a, mi, b, mj, subtract, pi, m));
            lemma_coeff_at_concat(mid + ta, sb, m);
            lemma_coeff_at_concat(mid, ta, m);
            lemma_coeff_at_signed(tb, subtract, pi, m);
            if mi < a.len() {
                assert(tb.len() == 0);
                assert(tb =~= b.subrange(b.len() as int, b.len() as int));
                lemma_coeff_at_empty_suffix(b, m);
                assert(sb =~= Seq::<TermView>::empty());
            } else {
                assert(ta =~= a.subrange(a.len() as int, a.len() as int));
                lemma_coeff_at_empty_suffix(a, m);
            }
            let x = coeff_at(mid, m) + coeff_at(ta, m);
            lemma_add_mod_noop(x, coeff_at(sb, m), pi);
            lemma_add_mod_noop(x, signed_coeff(coeff_at(tb, m), subtract), pi);
            lemma_coeff_at_range(views(out@), pi, nv, m);
        }
    }
    Ok(out)
}

/// Pushing a term above every exponent vector of a canonical list keeps it
/// canonical.
proof fn lemma_push_sorted(s: Seq<TermView>, t: TermView, p: int, nvars: nat)
    requires
        terms_in_ring(s, p, nvars),
        sorted_terms(s),
        0 < t.0 < p,
        t.1.len() == nvars,
        s.len() > 0 ==> grevlex_less(s.last().1, t.1),
    ensures
        terms_in_ring(s.push(t), p, nvars),
        sorted_terms(s.push(t)),
{
    let z = s.push(t);
    assert forall|k: int| 0 <= k < z.len() implies 0 < #[trigger] z[k].0 < p && z[k].1.len()
        == nvars by {
        if k < s.len() {
            assert(z[k] == s[k]);
        }
    }
    assert(sorted_terms(seq![t]));
    assert(s.push(t) =~= s + seq![t]);
    assert forall|k: int| 0 <= k < s.len() implies (#[trigger] s[k]).1.len() == nvars by {
        assert(0 < s[k].0 < p);
    }
    lemma_sorted_concat(s, seq![t], nvars);
}

/// Negating every coefficient of a canonical list keeps it canonical.
proof fn lemma_signed_wf(s: Seq<TermView>, negate: bool, p: int, nvars: nat)
    requires
        terms_wf(s, p, nvars),
    ensures
        terms_wf(signed_list(s, negate, p), p, nvars),
        forall|k: int|
            0 <= k < s.len() ==> (#[trigger] signed_list(s, negate, p)[k]).1
                == s[k].1,
{
    let z = signed_list(s, negate, p);
    assert forall|k: int| 0 <= k < z.len() implies 0 < #[trigger] z[k].0 < p && z[k].1.len()
        == nvars by {
        assert(z[k] == signed_view(s[k], negate, p));
    }
    assert forall|i: int, j: int| 0 <= i < j < z.len() implies grevlex_less(
        #[trigger] z[i].1,
        #[trigger] z[j].1,
    ) by {
        assert(z[i].1 == s[i].1 && z[j].1 == s[j].1);
    }
}

proof fn lemma_sum_parts_1(x: usize)
    ensures
        sum_parts(seq![x]) == x,
{
    assert(seq![x].drop_last() =~= Seq::<usize>::empty());
    assert(sum_parts(Seq::<usize>::empty()) == 0);
    assert(seq![x].last() == x);
}

proof fn lemma_sum_parts_2(x: usize, y: usize)
    ensures
        sum_parts(seq![x, y]) == x + y,
{
    assert(seq![x, y].drop_last() =~= seq![x]);
    lemma_sum_parts_1(x);
}

proof fn lemma_sum_parts_3(x: usize, y: usize, z: usize)
    ensures
        sum_parts(seq![x, y, z]) == x + y + z,
{
    assert(seq![x, y, z].drop_last() =~= seq![x, y]);
    lemma_sum_parts_2(x, y);
}

/// The polynomial of `source`'s ring with these canonical terms, once the
/// memory limit holds both.
fn finish(source: &Polynomial, terms: Vec<Term>, limits: &ComputeLimits) -> (r: Result<
    Polynomial,
    ArithmeticError,
>)
    requires
        source.ring.wf(),
        terms_wf(views(terms@), source.ring.modulus as int, source.ring.nvars as nat),
    ensures
        r matches Ok(poly) ==> poly.wf() && poly.ring == source.ring && poly.terms@ == terms@,
        r matches Err(e) ==> (e == ArithmeticError::MemoryLimitExceeded && !(fits_usize(
            per_term_spec(source.ring.nvars as int),
        ) && fits_usize(retained_spec(source)) && fits_usize(
            storage_spec(source.ring.nvars as int, terms@.len() as int),
        ) && parts_fit(
            limits.memory,
            seq![retained_spec(source) as usize, storage_spec(source.ring.nvars as int, terms@.len() as int) as usize],
        ))) || (e == ArithmeticError::Timeout && !limits.is_open()),
        limits.is_open() && fits_usize(per_term_spec(source.ring.nvars as int)) && fits_usize(
            retained_spec(source),
        ) && fits_usize(storage_spec(source.ring.nvars as int, terms@.len() as int)) && parts_fit(
            limits.memory,
            seq![retained_spec(source) as usize, storage_spec(source.ring.nvars as int, terms@.len() as int) as usize],
        ) ==> r is Ok,
{
    let result = Polynomial { ring: source.ring, terms };
    let held = retained_bytes(source)?;
    let built = retained_bytes(&result)?;
    let parts = [held, built];
    assert(parts@ =~= seq![held, built]);
    check_memory(limits, &parts)?;
    Ok(result)
}

/// The memory a negation or a scaling charges before it builds.
pub open spec fn map_fits(poly: &Polynomial, memory: Option<usize>) -> bool {
    &&& fits_usize(per_term_spec(poly.ring.nvars as int))
    &&& fits_usize(retained_spec(poly))
    &&& parts_fit(memory, seq![retained_spec(poly) as usize, retained_spec(poly) as usize])
}

/// The residue of `value` modulo `p`.
pub fn residue_of(value: i64, p: u64) -> (r: u64)
    requires
        0 < p < MODULUS_LIMIT,
    ensures
        r < p,
        r == (value as int) % (p as int),
{
    if value >= 0 {
        (value as u64) % p
    } else {
        let magnitude: u64 = if value == i64::MIN {
            0x8000_0000_0000_0000u64
        } else {
            (-value) as u64
        };
        let m = magnitude % p;
        proof {
            lemma_fundamental_div_mod(magnitude as int, p as int);
            lemma_mod_bound(magnitude as int, p as int);
            let q = magnitude as int / p as int;
            assert(value as int == -(magnitude as int));
            if m == 0 {
                assert(value as int == p * (-q)) by (nonlinear_arith)
                    requires
                        magnitude == p * q + 0,
                        value as int == -(magnitude as int),
                ;
                lemma_mod_multiples_basic(-q, p as int);
                assert((-q) * p == p * (-q)) by (nonlinear_arith);
            } else {
                assert(value as int == p * (-q - 1) + (p - m)) by (nonlinear_arith)
                    requires
                        magnitude == p * q + m,
                        value as int == -(magnitude as int),
                ;
                lemma_fundamental_div_mod_converse(value as int, p as int, -q - 1, (p - m) as int);
            }
        }
        if m == 0 {
            0
        } else {
            p - m
        }
    }
}

/// The scalar `value` names in the polynomial's field, or `None` when it
/// is zero, once the memory limit holds the result.
fn converted_scalar(poly: &Polynomial, value: i64, limits: &ComputeLimits) -> (r: Result<
    Option<Felt>,
    ArithmeticError,
>)
    requires
        poly.ring.wf(),
    ensures
        r matches Ok(Some(c)) ==> c.value == (value as int) % (poly.ring.modulus as int) && c.value != 0,
        r matches Ok(None) ==> (value as int) % (poly.ring.modulus as int) == 0,
        r is Ok ==> map_fits(poly, limits.memory),
        r matches Err(e) ==> (e == ArithmeticError::MemoryLimitExceeded && !map_fits(
            poly,
            limits.memory,
        )) || (e == ArithmeticError::Timeout && !limits.is_open()),
        limits.is_open() && map_fits(poly, limits.memory) ==> r is Ok,
{
    check_stop(limits)?;
    let held = retained_bytes(poly)?;
    let output = term_storage(poly.ring.nvars, poly.terms.len())?;
    let parts = [held, output];
    assert(parts@ =~= seq![retained_spec(poly) as usize, retained_spec(poly) as usize]);
    check_memory(limits, &parts)?;
    let residue = residue_of(value, poly.ring.modulus);
    check_stop(limits)?;
    if residue == 0 {
        Ok(None)
    } else {
        Ok(Some(Felt { value: residue }))
    }
}

/// Multiply every coefficient by a nonzero scalar.
fn scale_nonzero(poly: &Polynomial, scalar: Felt, limits: &ComputeLimits) -> (r: Result<
    Polynomial,
    ArithmeticError,
>)
    requires
        poly.wf(),
        0 < scalar.value < poly.ring.modulus,
    ensures
        r matches Ok(q) ==> q.wf() && q.ring == poly.ring && q@ == scaled_list(
            poly@,
            scalar.value as int,
            poly.ring.modulus as int,
        ),
        r matches Err(e) ==> (e == ArithmeticError::MemoryLimitExceeded && !map_fits(
            poly,
            limits.memory,
        )) || (e == ArithmeticError::Timeout && !limits.is_open()),
        limits.is_open() && map_fits(poly, limits.memory) ==> r is Ok,
{
    if poly.is_zero() {
        let z = poly.zero_like();
        assert(z@ =~= scaled_list(poly@, scalar.value as int, poly.ring.modulus as int));
        return Ok(z);
    }
    let p = poly.ring.modulus;
    let ghost pi = p as int;
    let ghost target = scaled_list(poly@, scalar.value as int, pi);
    let mut terms: Vec<Term> = Vec::with_capacity(poly.terms.len());
    let mut index: usize = 0;
    while index < poly.terms.len()
        invariant
            poly.wf(),
            p == poly.ring.modulus,
            pi == p,
            0 < scalar.value < p,
            target == scaled_list(poly@, scalar.value as int, pi),
            index <= poly@.len(),
            views(terms@) == target.take(index as int),
        decreases poly@.len() - index,
    {
        check_work(limits, index)?;
        let term = &poly.terms[index];
        assert(0 < poly@[index as int].0 < pi);
        let t = Term { coeff: term.coeff.mul(scalar, p), mono: term.mono.copy() };
        let ghost before = terms@;
        terms.push(t);
        proof {
            assert(views(terms@) =~= views(before).push(t@));
            assert(target.take(index as int + 1) =~= target.take(index as int).push(target[index as int]));
        }
        index += 1;
    }
    proof {
        assert(target.take(index as int) =~= target);
        lemma_scaled_wf(poly@, scalar.value as int, pi, poly.ring.nvars as nat);
        lemma_sum_parts_2(retained_spec(poly) as usize, retained_spec(poly) as usize);
    }
    let result = finish(poly, terms, limits);
    result
}

/// The exponent vectors never descend.
pub open spec fn sorted_le(s: Seq<TermView>) -> bool {
    forall|i: int, j: int| 0 <= i < j < s.len() ==> !grevlex_less(#[trigger] s[j].1, #[trigger] s[i].1)
}

/// The merge-sort invariant, at one monomial.
proof fn lemma_sorted_le_push(s: Seq<TermView>, t: TermView, nvars: nat)
    requires
        sorted_le(s),
        forall|k: int| 0 <= k < s.len() ==> (#[trigger] s[k]).1.len() == nvars,
        t.1.len() == nvars,
        s.len() > 0 ==> !grevlex_less(t.1, s.last().1),
    ensures
        sorted_le(s.push(t)),
{
    let z = s.push(t);
    assert forall|i: int, j: int| 0 <= i < j < z.len() implies !grevlex_less(
        #[trigger] z[j].1,
        #[trigger] z[i].1,
    ) by {
        if j == s.len() {
            let l = s.len() - 1;
            if i < l && grevlex_less(t.1, s[i].1) {
                assert(!grevlex_less(s[l].1, s[i].1));
                if s[l].1 == s[i].1 {
                } else {
                    lemma_grevlex_total(s[l].1, s[i].1);
                    lemma_grevlex_transitive(t.1, s[i].1, s[l].1);
                }
            }
            assert(z[i] == s[i]);
        } else {
            assert(z[i] == s[i] && z[j] == s[j]);
        }
    }
}

/// Merge two lists whose exponent vectors never descend into one such
/// list with the same terms.
fn merge_sorted(left: Vec<Term>, right: Vec<Term>, Ghost(p): Ghost<int>, Ghost(nvars): Ghost<nat>) -> (out:
    Vec<Term>)
    requires
        sorted_le(views(left@)),
        sorted_le(views(right@)),
        terms_in_ring(views(left@), p, nvars),
        terms_in_ring(views(right@), p, nvars),
    ensures
        sorted_le(views(out@)),
        terms_in_ring(views(out@), p, nvars),
        out@.len() == left@.len() + right@.len(),
        forall|m: Seq<u16>| #[trigger] coeff_at(views(out@), m) == coeff_at(views(left@), m) + coeff_at(
            views(right@),
            m,
        ),
{
    let ghost a = views(left@);
    let ghost b = views(right@);
    let mut out: Vec<Term> = Vec::new();
    let mut i: usize = 0;
    let mut j: usize = 0;
    proof {
        lemma_widths(a, p, nvars);
        lemma_widths(b, p, nvars);
        assert forall|m: Seq<u16>| #[trigger] coeff_at(views(out@), m) + coeff_at(
            a.subrange(0, a.len() as int),
            m,
        ) + coeff_at(b.subrange(0, b.len() as int), m) == coeff_at(a, m) + coeff_at(b, m) by {
            assert(views(out@) =~= Seq::<TermView>::empty());
            lemma_coeff_at_full(a, m);
            lemma_coeff_at_full(b, m);
        }
    }
    while i < left.len() || j < right.len()
        invariant
            a == views(left@),
            b == views(right@),
            sorted_le(a),
            sorted_le(b),
            terms_in_ring(a, p, nvars),
            terms_in_ring(b, p, nvars),
            forall|k: int| 0 <= k < a.len() ==> (#[trigger] a[k]).1.len() == nvars,
            forall|k: int| 0 <= k < b.len() ==> (#[trigger] b[k]).1.len() == nvars,
            i <= a.len(),
            j <= b.len(),
            out@.len() == i + j,
            sorted_le(views(out@)),
            terms_in_ring(views(out@), p, nvars),
            views(out@).len() > 0 ==> (i < a.len() ==> !grevlex_less(a[i as int].1, views(out@).last().1))
                && (j < b.len() ==> !grevlex_less(b[j as int].1, views(out@).last().1)),
            forall|m: Seq<u16>|
                #[trigger] coeff_at(views(out@), m) + coeff_at(a.subrange(i as int, a.len() as int), m)
                    + coeff_at(b.subrange(j as int, b.len() as int), m) == coeff_at(a, m) + coeff_at(b, m),
        decreases a.len() + b.len() - i - j,
    {
        let ghost before = views(out@);
        proof {
            lemma_widths(before, p, nvars);
        }
        let take_left = if i == left.len() {
            false
        } else if j == right.len() {
            true
        } else {
            assert(a[i as int].1.len() == nvars && b[j as int].1.len() == nvars);
            !right[j].mono.less_than(&left[i].mono)
        };
        if take_left {
            let t = left[i].copy();
            out.push(t);
            proof {
                assert(views(out@) =~= before.push(a[i as int]));
                assert(0 < a[i as int].0 < p);
                lemma_sorted_le_push(before, a[i as int], nvars);
                assert forall|m: Seq<u16>| #[trigger] coeff_at(views(out@), m) + coeff_at(
                    a.subrange(i as int + 1, a.len() as int),
                    m,
                ) + coeff_at(b.subrange(j as int, b.len() as int), m) == coeff_at(a, m) + coeff_at(b, m) by {
                    lemma_coeff_at_push(before, a[i as int], m);
                    lemma_coeff_at_suffix(a, i as int, m);
                }
                assert forall|k: int| 0 <= k < views(out@).len() implies 0 < #[trigger] views(out@)[k].0 < p
                    && views(out@)[k].1.len() == nvars by {
                    if k < before.len() {
                        assert(views(out@)[k] == before[k]);
                    }
                }
                if i + 1 < a.len() {
                    assert(!grevlex_less(a[i as int + 1].1, a[i as int].1));
                }
            }
            i += 1;
        } else {
            let t = right[j].copy();
            out.push(t);
            proof {
                assert(views(out@) =~= before.push(b[j as int]));
                assert(0 < b[j as int].0 < p);
                if i < a.len() {
                    lemma_grevlex_asymmetric(b[j as int].1, a[i as int].1);
                }
                lemma_sorted_le_push(before, b[j as int], nvars);
                assert forall|m: Seq<u16>| #[trigger] coeff_at(views(out@), m) + coeff_at(
                    a.subrange(i as int, a.len() as int),
                    m,
                ) + coeff_at(b.subrange(j as int + 1, b.len() as int), m) == coeff_at(a, m) + coeff_at(b, m) by {
                    lemma_coeff_at_push(before, b[j as int], m);
                    lemma_coeff_at_suffix(b, j as int, m);
                }
                assert forall|k: int| 0 <= k < views(out@).len() implies 0 < #[trigger] views(out@)[k].0 < p
                    && views(out@)[k].1.len() == nvars by {
                    if k < before.len() {
                        assert(views(out@)[k] == before[k]);
                    }
                }
                if j + 1 < b.len() {
                    assert(!grevlex_less(b[j as int + 1].1, b[j as int].1));
                }
            }
            j += 1;
        }
    }
    proof {
        assert forall|m: Seq<u16>| #[trigger] coeff_at(views(out@), m) == coeff_at(a, m) + coeff_at(b, m) by {
            lemma_coeff_at_empty_suffix(a, m);
            lemma_coeff_at_empty_suffix(b, m);
        }
    }
    out
}

/// Sort a list of terms so that its exponent vectors never descend.
fn sort_terms(terms: Vec<Term>, Ghost(p): Ghost<int>, Ghost(nvars): Ghost<nat>) -> (out: Vec<Term>)
    requires
        terms_in_ring(views(terms@), p, nvars),
    ensures
        sorted_le(views(out@)),
        terms_in_ring(views(out@), p, nvars),
        out@.len() == terms@.len(),
        forall|m: Seq<u16>| #[trigger] coeff_at(views(out@), m) == coeff_at(views(terms@), m),
    decreases terms@.len(),
{
    let n = terms.len();
    if n <= 1 {
        return terms;
    }
    let mut left = terms;
    let ghost whole = views(left@);
    let right = left.split_off(n / 2);
    proof {
        assert(views(left@) =~= whole.subrange(0, n as int / 2));
        assert(views(right@) =~= whole.subrange(n as int / 2, n as int));
        assert(whole =~= views(left@) + views(right@));
        lemma_wf_ring_subrange(whole, p, nvars, 0, n as int / 2);
        lemma_wf_ring_subrange(whole, p, nvars, n as int / 2, n as int);
    }
    let sorted_left = sort_terms(left, Ghost(p), Ghost(nvars));
    let sorted_right = sort_terms(right, Ghost(p), Ghost(nvars));
    let out = merge_sorted(sorted_left, sorted_right, Ghost(p), Ghost(nvars));
    proof {
        assert forall|m: Seq<u16>| #[trigger] coeff_at(views(out@), m) == coeff_at(whole, m) by {
            lemma_coeff_at_concat(views(left@), views(right@), m);
        }
    }
    out
}

proof fn lemma_wf_ring_subrange(s: Seq<TermView>, p: int, nvars: nat, lo: int, hi: int)
    requires
        terms_in_ring(s, p, nvars),
        0 <= lo <= hi <= s.len(),
    ensures
        terms_in_ring(s.subrange(lo, hi), p, nvars),
{
    let t = s.subrange(lo, hi);
    assert forall|i: int| 0 <= i < t.len() implies 0 < #[trigger] t[i].0 < p && t[i].1.len()
        == nvars by {
        assert(t[i] == s[lo + i]);
    }
}

/// Report whether the product of two exponent vectors fits the width.
fn check_monomial_product(left: &Monomial, right: &Monomial) -> (r: Result<(), ArithmeticError>)
    requires
        left@.len() == right@.len(),
    ensures
        r is Ok <==> product_fits(left@, right@),
        r matches Err(e) ==> e == (ArithmeticError::ExponentLimit { limit: DEGREE_LIMIT }),
{
    let mut k: usize = 0;
    while k < left.exps.len()
        invariant
            k <= left@.len(),
            left@.len() == right@.len(),
            forall|q: int| 0 <= q < k ==> left@[q] + right@[q] <= u16::MAX,
        decreases left@.len() - k,
    {
        if left.exps[k].checked_add(right.exps[k]).is_none() {
            return Err(ArithmeticError::ExponentLimit { limit: DEGREE_LIMIT });
        }
        k += 1;
    }
    Ok(())
}

/// Report whether every product of a left and a right monomial fits.
fn check_products(left: &Polynomial, right: &Polynomial, limits: &ComputeLimits) -> (r: Result<
    (),
    ArithmeticError,
>)
    requires
        left.wf(),
        right.wf(),
        left.ring == right.ring,
    ensures
        r is Ok ==> products_fit(left@, right@),
        r matches Err(e) ==> (e == (ArithmeticError::ExponentLimit { limit: DEGREE_LIMIT })
            && !products_fit(left@, right@)) || (e == ArithmeticError::Timeout && !limits.is_open()),
        limits.is_open() && products_fit(left@, right@) ==> r is Ok,
{
    let ghost a = left@;
    let ghost b = right@;
    let ghost pi = left.ring.modulus as int;
    let ghost nv = left.ring.nvars as nat;
    proof {
        lemma_widths(a, pi, nv);
        lemma_widths(b, pi, nv);
    }
    let mut work: usize = 0;
    let mut i: usize = 0;
    while i < left.terms.len()
        invariant
            a == left@,
            b == right@,
            left.wf(),
            right.wf(),
            left.ring == right.ring,
            forall|k: int| 0 <= k < a.len() ==> (#[trigger] a[k]).1.len() == nv,
            forall|k: int| 0 <= k < b.len() ==> (#[trigger] b[k]).1.len() == nv,
            i <= a.len(),
            forall|x: int, y: int|
                0 <= x < i && 0 <= y < b.len() ==> product_fits(#[trigger] a[x].1, #[trigger] b[y].1),
        decreases a.len() - i,
    {
        let mut j: usize = 0;
        while j < right.terms.len()
            invariant
                a == left@,
                b == right@,
                forall|k: int| 0 <= k < a.len() ==> (#[trigger] a[k]).1.len() == nv,
                forall|k: int| 0 <= k < b.len() ==> (#[trigger] b[k]).1.len() == nv,
                i < a.len(),
                j <= b.len(),
                forall|x: int, y: int|
                    0 <= x < i && 0 <= y < b.len() ==> product_fits(#[trigger] a[x].1, #[trigger] b[y].1),
                forall|y: int| 0 <= y < j ==> product_fits(a[i as int].1, #[trigger] b[y].1),
            decreases b.len() - j,
        {
            check_work(limits, work)?;
            assert(a[i as int].1.len() == nv && b[j as int].1.len() == nv);
            match check_monomial_product(&left.terms[i].mono, &right.terms[j].mono) {
                Ok(()) => {},
                Err(e) => {
                    return Err(e);
                },
            }
            work = bump(work);
            j += 1;
        }
        i += 1;
    }
    Ok(())
}

/// The number of products a multiplication forms.
fn pair_count(left: &Polynomial, right: &Polynomial) -> (r: Result<usize, ArithmeticError>)
    ensures
        r is Ok <==> left@.len() * right@.len() <= usize::MAX,
        r matches Ok(n) ==> n == left@.len() * right@.len(),
        r matches Err(e) ==> e == ArithmeticError::MemoryLimitExceeded,
{
    match left.terms.len().checked_mul(right.terms.len()) {
        Some(pairs) => Ok(pairs),
        None => Err(ArithmeticError::MemoryLimitExceeded),
    }
}

/// The products of a canonical pair lie in the ring.
proof fn lemma_products_in_ring(a: Seq<TermView>, b: Seq<TermView>, p: int, nvars: nat)
    requires
        terms_wf(a, p, nvars),
        terms_wf(b, p, nvars),
        is_prime(p as nat),
    ensures
        terms_in_ring(mul_views(a, b, p), p, nvars),
        mul_views(a, b, p).len() == a.len() * b.len(),
    decreases a.len(),
{
    if a.len() > 0 {
        let front = a.drop_last();
        lemma_wf_subrange(a, p, nvars, 0, a.len() - 1);
        assert(a.subrange(0, a.len() - 1) =~= front);
        lemma_products_in_ring(front, b, p, nvars);
        let row = scale_by_term(b, a.last(), p);
        let z = mul_views(a, b, p);
        assert(0 < a.last().0 < p && a.last().1.len() == nvars);
        assert forall|k: int| 0 <= k < z.len() implies 0 < #[trigger] z[k].0 < p && z[k].1.len()
            == nvars by {
            let fl = mul_views(front, b, p);
            if k < fl.len() {
                assert(z[k] == fl[k]);
            } else {
                let q = k - fl.len();
                assert(z[k] == row[q]);
                assert(0 < b[q].0 < p);
                lemma_product_nonzero(a.last().0, b[q].0, p);
                lemma_mod_bound(a.last().0 * b[q].0, p);
            }
        }
        assert(a.len() * b.len() == front.len() * b.len() + b.len()) by (nonlinear_arith)
            requires
                a.len() == front.len() + 1,
        ;
    }
}

/// Every product of a left term and a right term, row by row.
fn product_terms(left: &Polynomial, right: &Polynomial, limits: &ComputeLimits) -> (r: Result<
    Vec<Term>,
    ArithmeticError,
>)
    requires
        left.wf(),
        right.wf(),
        left.ring == right.ring,
        products_fit(left@, right@),
    ensures
        r matches Ok(v) ==> views(v@) == mul_views(left@, right@, left.ring.modulus as int),
        r matches Err(e) ==> (e == ArithmeticError::MemoryLimitExceeded && left@.len() * right@.len()
            > usize::MAX) || (e == ArithmeticError::Timeout && !limits.is_open()),
        limits.is_open() && left@.len() * right@.len() <= usize::MAX ==> r is Ok,
{
    let pairs = match left.terms.len().checked_mul(right.terms.len()) {
        Some(pairs) => pairs,
        None => {
            return Err(ArithmeticError::MemoryLimitExceeded);
        },
    };
    let ghost a = left@;
    let ghost b = right@;
    let ghost pi = left.ring.modulus as int;
    let ghost nv = left.ring.nvars as nat;
    let p = left.ring.modulus;
    proof {
        lemma_widths(a, pi, nv);
        lemma_widths(b, pi, nv);
    }
    let mut terms: Vec<Term> = Vec::with_capacity(pairs);
    let mut work: usize = 0;
    let mut i: usize = 0;
    while i < left.terms.len()
        invariant
            a == left@,
            b == right@,
            left.wf(),
            right.wf(),
            left.ring == right.ring,
            p == left.ring.modulus,
            pi == p,
            products_fit(a, b),
            forall|k: int| 0 <= k < a.len() ==> (#[trigger] a[k]).1.len() == nv,
            forall|k: int| 0 <= k < b.len() ==> (#[trigger] b[k]).1.len() == nv,
            i <= a.len(),
            views(terms@) == mul_views(a.take(i as int), b, pi),
        decreases a.len() - i,
    {
        let ghost row_start = views(terms@);
        let mut j: usize = 0;
        while j < right.terms.len()
            invariant
                a == left@,
                b == right@,
                left.wf(),
                right.wf(),
                left.ring == right.ring,
                p == left.ring.modulus,
                pi == p,
                products_fit(a, b),
                forall|k: int| 0 <= k < a.len() ==> (#[trigger] a[k]).1.len() == nv,
                forall|k: int| 0 <= k < b.len() ==> (#[trigger] b[k]).1.len() == nv,
                i < a.len(),
                j <= b.len(),
                row_start == mul_views(a.take(i as int), b, pi),
                views(terms@) == row_start + scale_by_term(b, a[i as int], pi).take(j as int),
            decreases b.len() - j,
        {
            check_work(limits, work)?;
            let left_term = &left.terms[i];
            let right_term = &right.terms[j];
            assert(0 < a[i as int].0 < pi && 0 < b[j as int].0 < pi);
            assert(product_fits(a[i as int].1, b[j as int].1));
            let mono = match left_term.mono.checked_mul(&right_term.mono) {
                Some(mono) => mono,
                None => {
                    return Err(ArithmeticError::ExponentLimit { limit: DEGREE_LIMIT });
                },
            };
            let t = Term { coeff: left_term.coeff.mul(right_term.coeff, p), mono };
            let ghost before = terms@;
            terms.push(t);
            proof {
                assert(views(terms@) =~= views(before).push(t@));
                assert(scale_by_term(b, a[i as int], pi).take(j as int + 1) =~= scale_by_term(
                    b,
                    a[i as int],
                    pi,
                ).take(j as int).push(scale_by_term(b, a[i as int], pi)[j as int]));
                assert(views(terms@) =~= row_start + scale_by_term(b, a[i as int], pi).take(j as int + 1));
            }
            work = bump(work);
            j += 1;
        }
        proof {
            assert(scale_by_term(b, a[i as int], pi).take(j as int) =~= scale_by_term(b, a[i as int], pi));
            assert(a.take(i as int + 1).drop_last() =~= a.take(i as int));
            assert(a.take(i as int + 1).last() == a[i as int]);
        }
        i += 1;
    }
    proof {
        assert(a.take(i as int) =~= a);
    }
    Ok(terms)
}

/// The compaction invariant, at one monomial.
pub open spec fn compact_holds(out: Seq<TermView>, s: Seq<TermView>, read: int, p: int, m: Seq<u16>) -> bool {
    (coeff_at(out, m) + coeff_at(s.subrange(read, s.len() as int), m)) % p == coeff_at(s, m) % p
}

/// Fold a duplicate term into the last term of `out`; report whether the
/// sum is nonzero. A zero sum drops the last term.
fn merge_duplicate(out: &mut Vec<Term>, term: &Term, p: u64) -> (kept: bool)
    requires
        old(out)@.len() > 0,
        0 < p < MODULUS_LIMIT,
        old(out)@.last().coeff.value < p,
        term.coeff.value < p,
    ensures
        kept <==> (views(old(out)@).last().0 + term@.0) % (p as int) != 0,
        kept ==> views(final(out)@) == views(old(out)@).drop_last().push(
            ((views(old(out)@).last().0 + term@.0) % (p as int), views(old(out)@).last().1),
        ),
        !kept ==> views(final(out)@) == views(old(out)@).drop_last(),
{
    let last = out.pop().unwrap();
    let coeff = last.coeff.add(term.coeff, p);
    if coeff.value == 0 {
        proof {
            assert(views(out@) =~= views(old(out)@).drop_last());
        }
        false
    } else {
        let ghost before = out@;
        out.push(Term { coeff, mono: last.mono });
        proof {
            assert(views(out@) =~= views(old(out)@).drop_last().push(
                ((views(old(out)@).last().0 + term@.0) % (p as int), views(old(out)@).last().1),
            ));
        }
        true
    }
}

/// Sort the products and fold the terms of one monomial together,
/// dropping the monomials whose coefficients cancel.
pub(crate) fn merge_product_terms(terms: Vec<Term>, p: u64, Ghost(nvars): Ghost<nat>, limits: &ComputeLimits) -> (r:
    Result<Vec<Term>, ArithmeticError>)
    requires
        valid_modulus(p),
        terms_in_ring(views(terms@), p as int, nvars),
    ensures
        r matches Ok(out) ==> terms_wf(views(out@), p as int, nvars) && out@.len() <= terms@.len() && (
        forall|m: Seq<u16>| #[trigger] coeff_at(views(out@), m) == coeff_at(views(terms@), m) % (
        p as int)),
        r matches Err(e) ==> e == ArithmeticError::Timeout && !limits.is_open(),
        limits.is_open() ==> r is Ok,
{
    let ghost pi = p as int;
    let ghost input = views(terms@);
    check_stop(limits)?;
    let sorted = sort_terms(terms, Ghost(pi), Ghost(nvars));
    check_stop(limits)?;
    let ghost s = views(sorted@);
    let mut out: Vec<Term> = Vec::new();
    proof {
        lemma_widths(s, pi, nvars);
        assert forall|m: Seq<u16>| #[trigger] compact_holds(views(out@), s, 0, pi, m) by {
            assert(views(out@) =~= Seq::<TermView>::empty());
            lemma_coeff_at_full(s, m);
        }
    }
    let mut read: usize = 0;
    while read < sorted.len()
        invariant
            valid_modulus(p),
            pi == p,
            s == views(sorted@),
            sorted_le(s),
            terms_in_ring(s, pi, nvars),
            forall|k: int| 0 <= k < s.len() ==> (#[trigger] s[k]).1.len() == nvars,
            read <= s.len(),
            out@.len() <= read,
            terms_wf(views(out@), pi, nvars),
            views(out@).len() > 0 && read < s.len() ==> !grevlex_less(s[read as int].1, views(out@).last().1),
            forall|m: Seq<u16>| #[trigger] compact_holds(views(out@), s, read as int, pi, m),
        decreases s.len() - read,
    {
        check_work(limits, read)?;
        let term = &sorted[read];
        let ghost before = views(out@);
        let ghost t = s[read as int];
        assert(0 < t.0 < pi && t.1.len() == nvars);
        proof {
            lemma_widths(before, pi, nvars);
            if before.len() > 0 {
                assert(0 < before.last().0 < pi);
            }
        }
        let duplicate = out.len() > 0 && out[out.len() - 1].mono.equals(&term.mono);
        if duplicate {
            let kept = merge_duplicate(&mut out, term, p);
            proof {
                let last = before.last();
                let front = before.drop_last();
                lemma_wf_subrange(before, pi, nvars, 0, before.len() - 1);
                assert(before.subrange(0, before.len() - 1) =~= front);
                assert(before =~= front.push(last));
                assert forall|m: Seq<u16>| #[trigger] compact_holds(views(out@), s, read as int + 1, pi, m) by {
                    assert(compact_holds(before, s, read as int, pi, m));
                    lemma_coeff_at_suffix(s, read as int, m);
                    lemma_coeff_at_push(front, last, m);
                    let rest = coeff_at(s.subrange(read as int + 1, s.len() as int), m);
                    let base = coeff_at(front, m) + rest;
                    let w = term_value(last, m) + term_value(t, m);
                    assert((coeff_at(before, m) + coeff_at(s.subrange(read as int, s.len() as int), m))
                        == base + w);
                    if kept {
                        let nl = ((last.0 + t.0) % pi, last.1);
                        lemma_coeff_at_push(front, nl, m);
                        if last.1 == m {
                            lemma_mod_twice(last.0 + t.0, pi);
                        }
                        lemma_small_mod(0, pi as nat);
                        lemma_add_mod_noop(base, term_value(nl, m), pi);
                        lemma_add_mod_noop(base, w, pi);
                    } else {
                        lemma_small_mod(0, pi as nat);
                        lemma_add_mod_noop(base, w, pi);
                        lemma_add_mod_noop(base, 0, pi);
                    }
                }
                if kept {
                    let nl = ((last.0 + t.0) % pi, last.1);
                    lemma_mod_bound(last.0 + t.0, pi);
                    lemma_widths(front, pi, nvars);
                    if front.len() > 0 {
                        assert(grevlex_less(front.last().1, last.1)) by {
                            assert(front.last() == before[before.len() - 2]);
                        }
                    }
                    lemma_push_sorted(front, nl, pi, nvars);
                    if read + 1 < s.len() {
                        assert(!grevlex_less(s[read as int + 1].1, s[read as int].1));
                    }
                } else {
                    if front.len() > 0 && read + 1 < s.len() {
                        assert(grevlex_less(front.last().1, last.1)) by {
                            assert(front.last() == before[before.len() - 2]);
                        }
                        assert(!grevlex_less(s[read as int + 1].1, s[read as int].1));
                        if grevlex_less(s[read as int + 1].1, front.last().1) {
                            if s[read as int + 1].1 != last.1 {
                                lemma_grevlex_total(s[read as int + 1].1, last.1);
                                lemma_grevlex_transitive(front.last().1, last.1, s[read as int + 1].1);
                                lemma_grevlex_asymmetric(front.last().1, s[read as int + 1].1);
                            } else {
                                lemma_grevlex_asymmetric(front.last().1, last.1);
                            }
                        }
                    }
                }
            }
        } else {
            let t_copy = term.copy();
            out.push(t_copy);
            proof {
                assert(views(out@) =~= before.push(t));
                if before.len() > 0 {
                    if before.last().1 != t.1 {
                        lemma_grevlex_total(before.last().1, t.1);
                    }
                }
                lemma_push_sorted(before, t, pi, nvars);
                assert forall|m: Seq<u16>| #[trigger] compact_holds(views(out@), s, read as int + 1, pi, m) by {
                    assert(compact_holds(before, s, read as int, pi, m));
                    lemma_coeff_at_suffix(s, read as int, m);
                    lemma_coeff_at_push(before, t, m);
                }
                if read + 1 < s.len() {
                    assert(!grevlex_less(s[read as int + 1].1, s[read as int].1));
                }
            }
        }
        read += 1;
    }
    proof {
        assert forall|m: Seq<u16>| #[trigger] coeff_at(views(out@), m) == coeff_at(input, m) % pi by {
            assert(compact_holds(views(out@), s, s.len() as int, pi, m));
            lemma_coeff_at_empty_suffix(s, m);
            lemma_coeff_at_range(views(out@), pi, nvars, m);
        }
    }
    Ok(out)
}

/// What a multiplication charges before it builds the products.
pub open spec fn mul_fits(left: &Polynomial, right: &Polynomial, extra: usize, memory: Option<usize>) -> bool {
    let n = left.ring.nvars as int;
    let pairs = (left@.len() * right@.len()) as int;
    &&& pairs <= usize::MAX
    &&& fits_usize(per_term_spec(n))
    &&& fits_usize(retained_spec(left))
    &&& fits_usize(retained_spec(right))
    &&& pairs == 0 ==> parts_fit(
        memory,
        seq![retained_spec(left) as usize, retained_spec(right) as usize, extra],
    )
    &&& pairs > 0 ==> fits_usize(storage_spec(n, pairs)) && parts_fit(
        memory,
        seq![
            retained_spec(left) as usize,
            retained_spec(right) as usize,
            extra,
            storage_spec(n, pairs) as usize,
        ],
    )
}

proof fn lemma_sum_parts_4(x: usize, y: usize, z: usize, w: usize)
    ensures
        sum_parts(seq![x, y, z, w]) == x + y + z + w,
{
    assert(seq![x, y, z, w].drop_last() =~= seq![x, y, z]);
    lemma_sum_parts_3(x, y, z);
}

/// A product of an empty polynomial has no terms.
proof fn lemma_empty_product(a: Seq<TermView>, b: Seq<TermView>, p: int, nvars: nat, m: Seq<u16>)
    requires
        terms_wf(a, p, nvars),
        terms_wf(b, p, nvars),
        is_prime(p as nat),
        a.len() * b.len() == 0,
    ensures
        coeff_at(mul_views(a, b, p), m) == 0,
{
    lemma_products_in_ring(a, b, p, nvars);
    assert(mul_views(a, b, p) =~= Seq::<TermView>::empty());
}

/// Charge the operands and `extra` when a product has no terms.
fn empty_product_preflight(left: &Polynomial, right: &Polynomial, limits: &ComputeLimits, extra: usize) -> (r:
    Result<(), ArithmeticError>)
    ensures
        r is Ok ==> fits_usize(per_term_spec(left.ring.nvars as int)) && fits_usize(retained_spec(left))
            && fits_usize(retained_spec(right)) && right.ring.nvars == left.ring.nvars ==> parts_fit(
            limits.memory,
            seq![retained_spec(left) as usize, retained_spec(right) as usize, extra],
        ),
        r is Ok ==> fits_usize(per_term_spec(left.ring.nvars as int)) && fits_usize(retained_spec(left)),
        r is Ok ==> fits_usize(per_term_spec(right.ring.nvars as int)) && fits_usize(retained_spec(right)),
        r is Ok ==> parts_fit(
            limits.memory,
            seq![retained_spec(left) as usize, retained_spec(right) as usize, extra],
        ),
        r matches Err(e) ==> (e == ArithmeticError::MemoryLimitExceeded && !(fits_usize(
            per_term_spec(left.ring.nvars as int),
        ) && fits_usize(retained_spec(left)) && fits_usize(per_term_spec(right.ring.nvars as int))
            && fits_usize(retained_spec(right)) && parts_fit(
            limits.memory,
            seq![retained_spec(left) as usize, retained_spec(right) as usize, extra],
        ))) || (e == ArithmeticError::Timeout && !limits.is_open()),
        limits.is_open() && fits_usize(per_term_spec(left.ring.nvars as int)) && fits_usize(
            retained_spec(left),
        ) && fits_usize(per_term_spec(right.ring.nvars as int)) && fits_usize(retained_spec(right))
            && parts_fit(
            limits.memory,
            seq![retained_spec(left) as usize, retained_spec(right) as usize, extra],
        ) ==> r is Ok,
{
    let left_held = retained_bytes(left)?;
    let right_held = retained_bytes(right)?;
    let parts = [left_held, right_held, extra];
    assert(parts@ =~= seq![retained_spec(left) as usize, retained_spec(right) as usize, extra]);
    check_memory(limits, &parts)
}

/// Charge the operands, `extra`, and the product terms.
fn product_memory_preflight(
    left: &Polynomial,
    right: &Polynomial,
    limits: &ComputeLimits,
    extra: usize,
    term_bytes: usize,
) -> (r: Result<(), ArithmeticError>)
    requires
        left.ring == right.ring,
    ensures
        r is Ok ==> fits_usize(per_term_spec(left.ring.nvars as int)) && fits_usize(retained_spec(left))
            && fits_usize(retained_spec(right)) && parts_fit(
            limits.memory,
            seq![retained_spec(left) as usize, retained_spec(right) as usize, extra, term_bytes],
        ),
        r matches Err(e) ==> (e == ArithmeticError::MemoryLimitExceeded && !(fits_usize(
            per_term_spec(left.ring.nvars as int),
        ) && fits_usize(retained_spec(left)) && fits_usize(retained_spec(right)) && parts_fit(
            limits.memory,
            seq![retained_spec(left) as usize, retained_spec(right) as usize, extra, term_bytes],
        ))) || (e == ArithmeticError::Timeout && !limits.is_open()),
        limits.is_open() && fits_usize(per_term_spec(left.ring.nvars as int)) && fits_usize(
            retained_spec(left),
        ) && fits_usize(retained_spec(right)) && parts_fit(
            limits.memory,
            seq![retained_spec(left) as usize, retained_spec(right) as usize, extra, term_bytes],
        ) ==> r is Ok,
{
    let left_held = retained_bytes(left)?;
    let right_held = retained_bytes(right)?;
    let parts = [left_held, right_held, extra, term_bytes];
    assert(parts@ =~= seq![retained_spec(left) as usize, retained_spec(right) as usize, extra, term_bytes]);
    check_memory(limits, &parts)
}

/// Check the budget and the exponents of a product before it is built;
/// return the number of products.
fn product_preflight(left: &Polynomial, right: &Polynomial, limits: &ComputeLimits, extra: usize) -> (r:
    Result<usize, ArithmeticError>)
    requires
        left.wf(),
        right.wf(),
        left.ring == right.ring,
    ensures
        r matches Ok(pairs) ==> pairs == left@.len() * right@.len() && mul_fits(
            left,
            right,
            extra,
            limits.memory,
        ) && products_fit(left@, right@),
        r matches Err(e) ==> (e == ArithmeticError::MemoryLimitExceeded && !mul_fits(
            left,
            right,
            extra,
            limits.memory,
        )) || (e == (ArithmeticError::ExponentLimit { limit: DEGREE_LIMIT }) && !products_fit(
            left@,
            right@,
        )) || (e == ArithmeticError::Timeout && !limits.is_open()),
        limits.is_open() ==> (r is Ok <==> mul_fits(left, right, extra, limits.memory) && products_fit(
            left@,
            right@,
        )),
{
    check_stop(limits)?;
    let pairs = pair_count(left, right)?;
    if pairs == 0 {
        empty_product_preflight(left, right, limits, extra)?;
        proof {
            assert forall|i: int, j: int|
                0 <= i < left@.len() && 0 <= j < right@.len() implies product_fits(
                #[trigger] left@[i].1,
                #[trigger] right@[j].1,
            ) by {
                assert(left@.len() * right@.len() > 0) by (nonlinear_arith)
                    requires
                        0 <= i < left@.len(),
                        0 <= j < right@.len(),
                ;
            }
        }
        return Ok(0);
    }
    let term_bytes = match term_storage(left.ring.nvars, pairs) {
        Ok(bytes) => bytes,
        Err(e) => {
            return Err(e);
        },
    };
    product_memory_preflight(left, right, limits, extra, term_bytes)?;
    check_products(left, right, limits)?;
    Ok(pairs)
}

/// Multiply two polynomials of one ring, charging `extra` bytes the caller
/// holds beside the operands.
fn mul_with_extra(left: &Polynomial, right: &Polynomial, limits: &ComputeLimits, extra: usize) -> (r:
    Result<Polynomial, ArithmeticError>)
    requires
        left.wf(),
        right.wf(),
        left.ring == right.ring,
    ensures
        r matches Ok(prod) ==> prod.wf() && prod.ring == left.ring && is_product(
            prod@,
            left@,
            right@,
            left.ring.modulus as int,
        ),
        r matches Ok(prod) ==> prod@.len() <= left@.len() * right@.len(),
        r matches Err(e) ==> (e == ArithmeticError::MemoryLimitExceeded && !mul_fits(
            left,
            right,
            extra,
            limits.memory,
        )) || (e == (ArithmeticError::ExponentLimit { limit: DEGREE_LIMIT }) && !products_fit(
            left@,
            right@,
        )) || (e == ArithmeticError::Timeout && !limits.is_open()),
        limits.is_open() ==> (r is Ok <==> mul_fits(left, right, extra, limits.memory) && products_fit(
            left@,
            right@,
        )),
{
    let ghost pi = left.ring.modulus as int;
    let ghost nv = left.ring.nvars as nat;
    let pairs = product_preflight(left, right, limits, extra)?;
    if pairs == 0 {
        let z = left.zero_like();
        proof {
            assert forall|m: Seq<u16>| #[trigger] coeff_at(z@, m) == coeff_at(mul_views(left@, right@, pi), m)
                % pi by {
                lemma_empty_product(left@, right@, pi, nv, m);
                lemma_small_mod(0, pi as nat);
                assert(z@ =~= Seq::<TermView>::empty());
            }
        }
        return Ok(z);
    }
    let terms = product_terms(left, right, limits)?;
    proof {
        lemma_products_in_ring(left@, right@, pi, nv);
    }
    let merged = merge_product_terms(terms, left.ring.modulus, Ghost(nv), limits)?;
    proof {
        let n = nv as int;
        lemma_storage_monotone(n, merged@.len() as int, pairs as int);
        lemma_sum_parts_4(
            retained_spec(left) as usize,
            retained_spec(right) as usize,
            extra,
            storage_spec(n, pairs as int) as usize,
        );
        lemma_sum_parts_2(retained_spec(left) as usize, storage_spec(n, merged@.len() as int) as usize);
    }
    finish(left, merged, limits)
}

/// Every estimate a merge of `left` and `right` makes fits, so the check
/// after the merge holds too.
proof fn lemma_sum_fits_finish(left: &Polynomial, right: &Polynomial, memory: Option<usize>, out_len: int)
    requires
        sum_fits(left, right, memory),
        0 <= out_len <= left@.len() + right@.len(),
        left.ring == right.ring,
    ensures
        fits_usize(per_term_spec(left.ring.nvars as int)),
        fits_usize(retained_spec(left)),
        fits_usize(storage_spec(left.ring.nvars as int, out_len)),
        parts_fit(
            memory,
            seq![retained_spec(left) as usize, storage_spec(left.ring.nvars as int, out_len) as usize],
        ),
{
    let n = left.ring.nvars as int;
    let total = (left@.len() + right@.len()) as int;
    lemma_storage_monotone(n, out_len, total);
    lemma_storage_monotone(n, right@.len() as int, total);
    lemma_storage_monotone(n, left@.len() as int, total);
    lemma_sum_parts_3(
        retained_spec(left) as usize,
        retained_spec(right) as usize,
        storage_spec(n, total) as usize,
    );
    lemma_sum_parts_2(retained_spec(left) as usize, storage_spec(n, out_len) as usize);
}

/// The terms of the constant one in `nvars` variables.
pub open spec fn one_view(nvars: nat) -> Seq<TermView> {
    seq![(1int, Seq::new(nvars, |k: int| 0u16))]
}

/// Each exponent times `e` is at most `cap` times `u16::MAX`.
pub open spec fn exps_capped(s: Seq<TermView>, e: int, cap: int) -> bool {
    forall|i: int, v: int|
        0 <= i < s.len() && 0 <= v < s[i].1.len() ==> #[trigger] s[i].1[v] * e <= cap * u16::MAX
}

/// Every exponent of `s`, multiplied by `e`, fits a `u16`: the check a
/// power makes before it multiplies.
pub open spec fn power_fits(s: Seq<TermView>, e: int) -> bool {
    exps_capped(s, e, 1)
}

/// A monomial with a nonzero coefficient occurs among the terms.
proof fn lemma_coeff_nonzero_occurs(s: Seq<TermView>, m: Seq<u16>)
    requires
        coeff_at(s, m) != 0,
    ensures
        exists|k: int| 0 <= k < s.len() && #[trigger] s[k].1 == m,
    decreases s.len(),
{
    if s.len() > 0 {
        if s.last().1 == m {
            assert(s[s.len() - 1].1 == m);
        } else {
            let front = s.drop_last();
            lemma_coeff_nonzero_occurs(front, m);
            let k = choose|k: int| 0 <= k < front.len() && #[trigger] front[k].1 == m;
            assert(s[k] == front[k]);
        }
    }
}

/// Every monomial of a product list is the product of a left and a right
/// monomial.
proof fn lemma_product_origin(a: Seq<TermView>, b: Seq<TermView>, p: int, k: int)
    requires
        0 <= k < mul_views(a, b, p).len(),
    ensures
        exists|i: int, j: int|
            0 <= i < a.len() && 0 <= j < b.len() && mul_views(a, b, p)[k].1 == mono_mul(
                #[trigger] a[i].1,
                #[trigger] b[j].1,
            ),
    decreases a.len(),
{
    if a.len() > 0 {
        let front = a.drop_last();
        let fl = mul_views(front, b, p);
        let row = scale_by_term(b, a.last(), p);
        let z = mul_views(a, b, p);
        if k < fl.len() {
            lemma_product_origin(front, b, p, k);
            let (i, j) = choose|i: int, j: int|
                0 <= i < front.len() && 0 <= j < b.len() && fl[k].1 == mono_mul(
                    #[trigger] front[i].1,
                    #[trigger] b[j].1,
                );
            assert(z[k] == fl[k]);
            assert(a[i] == front[i]);
        } else {
            let q = k - fl.len();
            assert(z[k] == row[q]);
            assert(a[a.len() - 1] == a.last());
            assert(z[k].1 == mono_mul(a[a.len() - 1].1, b[q].1));
        }
    }
}

/// Lists whose exponents are capped by `c1` and `c2` multiply within
/// `u16` when `c1 + c2 <= e`.
proof fn lemma_capped_products_fit(a: Seq<TermView>, b: Seq<TermView>, e: int, c1: int, c2: int)
    requires
        exps_capped(a, e, c1),
        exps_capped(b, e, c2),
        0 <= c1,
        0 <= c2,
        c1 + c2 <= e,
        e >= 1,
    ensures
        products_fit(a, b),
{
    let lim = u16::MAX as int;
    assert forall|i: int, j: int| 0 <= i < a.len() && 0 <= j < b.len() implies product_fits(
        #[trigger] a[i].1,
        #[trigger] b[j].1,
    ) by {
        assert forall|v: int| 0 <= v < a[i].1.len() && v < b[j].1.len() implies a[i].1[v] + b[j].1[v]
            <= u16::MAX by {
            let x = a[i].1[v] as int;
            let y = b[j].1[v] as int;
            assert(x * e <= c1 * lim);
            assert(y * e <= c2 * lim);
            assert((x + y) * e <= (c1 + c2) * lim) by (nonlinear_arith)
                requires
                    x * e <= c1 * lim,
                    y * e <= c2 * lim,
            ;
            assert((c1 + c2) * lim <= e * lim) by (nonlinear_arith)
                requires
                    c1 + c2 <= e,
                    lim > 0,
            ;
            assert(x + y <= lim) by (nonlinear_arith)
                requires
                    (x + y) * e <= e * lim,
                    e >= 1,
            ;
        }
    }
}

/// The canonical product of lists capped by `c1` and `c2` is capped by
/// `c1 + c2`.
proof fn lemma_product_capped(
    r: Seq<TermView>,
    a: Seq<TermView>,
    b: Seq<TermView>,
    p: int,
    nvars: nat,
    e: int,
    c1: int,
    c2: int,
)
    requires
        terms_wf(r, p, nvars),
        terms_wf(a, p, nvars),
        terms_wf(b, p, nvars),
        is_prime(p as nat),
        is_product(r, a, b, p),
        exps_capped(a, e, c1),
        exps_capped(b, e, c2),
        0 <= c1,
        0 <= c2,
        c1 + c2 <= e,
        e >= 1,
    ensures
        products_fit(a, b),
        exps_capped(r, e, c1 + c2),
{
    let lim = u16::MAX as int;
    lemma_capped_products_fit(a, b, e, c1, c2);
    assert forall|i: int, v: int| 0 <= i < r.len() && 0 <= v < r[i].1.len() implies #[trigger] r[i].1[v]
        * e <= (c1 + c2) * u16::MAX by {
        let m = r[i].1;
        lemma_coeff_at_sorted(r, m);
        assert(coeff_at(r, m) == r[i].0);
        assert(coeff_at(r, m) == coeff_at(mul_views(a, b, p), m) % p);
        assert(coeff_at(mul_views(a, b, p), m) != 0) by {
            if coeff_at(mul_views(a, b, p), m) == 0 {
                lemma_small_mod(0, p as nat);
            }
        }
        lemma_coeff_nonzero_occurs(mul_views(a, b, p), m);
        let k = choose|k: int| 0 <= k < mul_views(a, b, p).len() && #[trigger] mul_views(a, b, p)[k].1
            == m;
        lemma_product_origin(a, b, p, k);
        let (i2, j2) = choose|i2: int, j2: int|
            0 <= i2 < a.len() && 0 <= j2 < b.len() && mul_views(a, b, p)[k].1 == mono_mul(
                #[trigger] a[i2].1,
                #[trigger] b[j2].1,
            );
        assert(product_fits(a[i2].1, b[j2].1));
        assert(0 < a[i2].0 && a[i2].1.len() == nvars && 0 < b[j2].0 && b[j2].1.len() == nvars);
        assert(0 < r[i].0 && m.len() == nvars);
        let x = a[i2].1[v] as int;
        let y = b[j2].1[v] as int;
        assert(m[v] == x + y);
        assert(x * e <= c1 * lim);
        assert(y * e <= c2 * lim);
        assert((x + y) * e <= (c1 + c2) * lim) by (nonlinear_arith)
            requires
                x * e <= c1 * lim,
                y * e <= c2 * lim,
        ;
    }
}

/// A cap holds under any larger cap.
proof fn lemma_capped_monotone(s: Seq<TermView>, e: int, c1: int, c2: int)
    requires
        exps_capped(s, e, c1),
        c1 <= c2,
    ensures
        exps_capped(s, e, c2),
{
    assert forall|i: int, v: int| 0 <= i < s.len() && 0 <= v < s[i].1.len() implies #[trigger] s[i].1[v]
        * e <= c2 * u16::MAX by {
        assert(c1 * u16::MAX <= c2 * u16::MAX) by (nonlinear_arith)
            requires
                c1 <= c2,
        ;
    }
}

/// Check that every exponent of `poly`, raised to `exponent`, fits a
/// `u16`.
fn check_power_exponents(poly: &Polynomial, exponent: u32, limits: &ComputeLimits) -> (r: Result<
    (),
    ArithmeticError,
>)
    requires
        poly.wf(),
    ensures
        r is Ok ==> power_fits(poly@, exponent as int),
        r matches Err(e) ==> (e == (ArithmeticError::ExponentLimit { limit: DEGREE_LIMIT })
            && !power_fits(poly@, exponent as int)) || (e == ArithmeticError::Timeout
            && !limits.is_open()),
        limits.is_open() ==> (r is Ok <==> power_fits(poly@, exponent as int)),
{
    let nvars = poly.ring.nvars;
    let ghost s = poly@;
    let ghost e = exponent as int;
    let mut work: usize = 0;
    let mut variable: usize = 0;
    while variable < nvars
        invariant
            poly.wf(),
            s == poly@,
            e == exponent as int,
            nvars == poly.ring.nvars,
            variable <= nvars,
            forall|i: int, v: int|
                0 <= i < s.len() && 0 <= v < variable ==> #[trigger] s[i].1[v] * e <= u16::MAX,
        decreases nvars - variable,
    {
        let mut maximum: u16 = 0;
        let ghost mut at: int = 0;
        let mut k: usize = 0;
        while k < poly.terms.len()
            invariant
                poly.wf(),
                s == poly@,
                nvars == poly.ring.nvars,
                variable < nvars,
                k <= s.len(),
                forall|i: int| 0 <= i < k ==> #[trigger] s[i].1[variable as int] <= maximum,
                maximum > 0 ==> 0 <= at < k && s[at].1[variable as int] == maximum,
            decreases s.len() - k,
        {
            check_work(limits, work)?;
            assert(s.len() == poly.terms@.len());
            assert(terms_in_ring(s, poly.ring.modulus as int, poly.ring.nvars as nat));
            assert(s[k as int] == poly.terms@[k as int]@);
            assert(0 <= k < s.len());
            assert(0 < s[k as int].0);
            assert(s[k as int].1.len() == nvars);
            let value = poly.terms[k].mono.exps[variable];
            if value > maximum {
                maximum = value;
                proof {
                    at = k as int;
                }
            }
            work = bump(work);
            k += 1;
        }
        assert((maximum as u64) * (exponent as u64) <= 65535 * 4294967295u64) by (nonlinear_arith)
            requires
                maximum <= 65535,
                exponent <= 4294967295u64,
        ;
        let bound = (maximum as u64) * (exponent as u64);
        if bound > 65535 {
            proof {
                assert(maximum > 0) by (nonlinear_arith)
                    requires
                        bound == maximum * exponent,
                        bound > 65535,
                ;
                assert(0 < s[at].0 && s[at].1.len() == nvars);
                assert(s[at].1[variable as int] * e > u16::MAX);
            }
            return Err(ArithmeticError::ExponentLimit { limit: DEGREE_LIMIT });
        }
        proof {
            assert forall|i: int| 0 <= i < s.len() implies #[trigger] s[i].1[variable as int] * e
                <= u16::MAX by {
                let x = s[i].1[variable as int] as int;
                assert(x <= maximum);
                assert(x * e <= maximum * e) by (nonlinear_arith)
                    requires
                        x <= maximum,
                        e >= 0,
                ;
            }
        }
        variable += 1;
    }
    proof {
        assert forall|i: int, v: int| 0 <= i < s.len() && 0 <= v < s[i].1.len() implies #[trigger] s[i].1[v]
            * e <= 1 * u16::MAX by {
            assert(0 < s[i].0 && s[i].1.len() == nvars);
        }
    }
    Ok(())
}

/// The bytes the constant one costs in `poly`'s ring.
pub open spec fn one_fits(poly: &Polynomial, memory: Option<usize>) -> bool {
    let n = poly.ring.nvars as int;
    &&& fits_usize(per_term_spec(n))
    &&& fits_usize(storage_spec(n, 1))
    &&& fits_usize(retained_spec(poly))
    &&& parts_fit(memory, seq![retained_spec(poly) as usize, storage_spec(n, 1) as usize])
}

/// The bytes `poly` holds fit and the memory limit holds them.
pub open spec fn held_fits(poly: &Polynomial, memory: Option<usize>) -> bool {
    &&& fits_usize(per_term_spec(poly.ring.nvars as int))
    &&& fits_usize(retained_spec(poly))
    &&& parts_fit(memory, seq![retained_spec(poly) as usize])
}

/// The constant one of `poly`'s ring, once the memory limit holds it
/// beside `poly`.
fn one_with_limits(poly: &Polynomial, limits: &ComputeLimits) -> (r: Result<Polynomial, ArithmeticError>)
    requires
        poly.wf(),
    ensures
        r matches Ok(one) ==> one.wf() && one.ring == poly.ring && one@ == one_view(
            poly.ring.nvars as nat,
        ),
        r matches Err(e) ==> (e == ArithmeticError::MemoryLimitExceeded && !one_fits(poly, limits.memory))
            || (e == ArithmeticError::Timeout && !limits.is_open()),
        limits.is_open() ==> (r is Ok <==> one_fits(poly, limits.memory)),
{
    let one_bytes = term_storage(poly.ring.nvars, 1)?;
    let held = retained_bytes(poly)?;
    let parts = [held, one_bytes];
    assert(parts@ =~= seq![held, one_bytes]);
    check_memory(limits, &parts)?;
    Ok(poly.ring.one())
}

/// Room for a power: every list a power of `poly` to `e` builds has at
/// most `pow(len, e)` terms, and six such lists of bytes fit a `usize`.
pub open spec fn power_room(poly: &Polynomial, e: nat) -> bool {
    let t = per_term_spec(poly.ring.nvars as int);
    let b = vstd::arithmetic::power::pow(poly@.len() as int, e);
    &&& b <= usize::MAX
    &&& 6 * t * b <= usize::MAX
}

/// A count at most `big` costs at most `big` counts of bytes.
proof fn lemma_bytes_le(t: int, x: int, big: int)
    by (nonlinear_arith)
    requires
        0 <= t,
        0 <= x <= big,
    ensures
        t * x <= t * big,
{
}

/// A product of bounded counts is bounded by the product of the bounds.
proof fn lemma_count_product(a: int, b: int, ba: int, bb: int)
    by (nonlinear_arith)
    requires
        0 <= a <= ba,
        0 <= b <= bb,
    ensures
        a * b <= ba * bb,
{
}

/// The starting pair of a power: the constant one and a copy of `poly`.
fn power_initial(poly: &Polynomial, limits: &ComputeLimits) -> (r: Result<
    (Polynomial, Polynomial),
    ArithmeticError,
>)
    requires
        poly.wf(),
    ensures
        r matches Ok((one, base)) ==> one.wf() && one.ring == poly.ring && one@ == one_view(
            poly.ring.nvars as nat,
        ) && base.wf() && base.ring == poly.ring && base@ == poly@,
        r matches Err(e) ==> e == ArithmeticError::MemoryLimitExceeded || (e == ArithmeticError::Timeout
            && !limits.is_open()),
        limits.is_open() && limits.memory is None && poly@.len() > 0 && fits_usize(
            3 * per_term_spec(poly.ring.nvars as int) * poly@.len(),
        ) ==> r is Ok,
{
    let ghost t = per_term_spec(poly.ring.nvars as int);
    let ghost l = poly@.len() as int;
    proof {
        if poly@.len() > 0 {
            lemma_bytes_le(t, 1, l);
            lemma_bytes_le(t, l, 3 * l);
            assert(t * (3 * l) == 3 * t * l) by (nonlinear_arith);
            assert(poly@.len() == poly.terms@.len());
        }
    }
    let one_bytes = term_storage(poly.ring.nvars, 1)?;
    let poly_bytes = retained_bytes(poly)?;
    let parts = [poly_bytes, one_bytes, poly_bytes];
    proof {
        assert(parts@ =~= seq![poly_bytes, one_bytes, poly_bytes]);
        lemma_sum_parts_3(poly_bytes, one_bytes, poly_bytes);
        if poly@.len() > 0 {
            assert(poly_bytes == t * l);
            assert(one_bytes == t * 1);
            assert(t * l + t * 1 + t * l <= 3 * t * l) by (nonlinear_arith)
                requires
                    t * 1 <= t * l,
            ;
        }
    }
    check_memory(limits, &parts)?;
    let result = poly.ring.one();
    let base = poly.copy();
    let held_result = retained_bytes(&result)?;
    let held_base = retained_bytes(&base)?;
    let parts = [poly_bytes, held_result, held_base];
    proof {
        assert(parts@ =~= seq![poly_bytes, held_result, held_base]);
        lemma_sum_parts_3(poly_bytes, held_result, held_base);
        assert(result@.len() == 1);
        assert(base@ == poly@);
        if poly@.len() > 0 {
            assert(held_result == t * 1);
            assert(held_base == t * l);
            assert(t * l + t * 1 + t * l <= 3 * t * l) by (nonlinear_arith)
                requires
                    t * 1 <= t * l,
            ;
        }
    }
    check_memory(limits, &parts)?;
    Ok((result, base))
}

/// Within the room, one list of up to `big` terms fits a `usize`.
proof fn lemma_room_basics(t: int, x: int, big: int)
    by (nonlinear_arith)
    requires
        t >= 0,
        0 <= x <= big,
        1 <= big,
        6 * t * big <= usize::MAX,
    ensures
        t <= usize::MAX,
        t * x <= usize::MAX,
        t * x <= t * big,
        t * x + t * big <= usize::MAX,
        t * big + t * big <= 2 * t * big,
{
}

/// Powers of a positive count grow with the exponent.
proof fn lemma_pow_le(l: int, k: int, e: int)
    requires
        l >= 1,
        0 <= k <= e,
    ensures
        1 <= pow(l, k as nat) <= pow(l, e as nat),
{
    lemma_pow_increases(l as nat, k as nat, e as nat);
    lemma_pow_positive(l, k as nat);
}

/// The bytes of one multiplication step of a power fit the room.
proof fn lemma_room_for_product(rl: int, bl: int, l: int, done: int, scale: int, e: int, t: int, held: int)
    requires
        l >= 1,
        0 <= done,
        1 <= scale,
        done + scale <= e,
        0 <= rl <= pow(l, done as nat),
        0 <= bl <= pow(l, scale as nat),
        t >= 0,
        0 <= held <= t * pow(l, e as nat),
        pow(l, e as nat) <= usize::MAX,
        6 * t * pow(l, e as nat) <= usize::MAX,
    ensures
        rl * bl <= pow(l, e as nat),
        t * rl <= t * pow(l, e as nat),
        t * bl <= t * pow(l, e as nat),
        t * (rl * bl) <= t * pow(l, e as nat),
        t * rl + t * bl + held + t * (rl * bl) <= 4 * t * pow(l, e as nat),
{
    let big = pow(l, e as nat);
    lemma_pow_le(l, done, e);
    lemma_pow_le(l, scale, e);
    lemma_pow_le(l, done + scale, e);
    lemma_pow_adds(l, done as nat, scale as nat);
    assert((done + scale) as nat == (done as nat + scale as nat));
    lemma_count_product(rl, bl, pow(l, done as nat), pow(l, scale as nat));
    lemma_bytes_le(t, rl, big);
    lemma_bytes_le(t, bl, big);
    lemma_bytes_le(t, rl * bl, big);
    assert(t * big + t * big + t * big + t * big == 4 * t * big) by (nonlinear_arith);
}

/// The bytes of one squaring step of a power fit the room.
proof fn lemma_room_for_square(bl: int, l: int, half: int, e: int, t: int, extra: int)
    requires
        l >= 1,
        1 <= half,
        2 * half <= e + half,
        half <= e,
        0 <= bl <= pow(l, half as nat),
        t >= 0,
        0 <= extra <= 2 * t * pow(l, e as nat),
        pow(l, e as nat) <= usize::MAX,
        6 * t * pow(l, e as nat) <= usize::MAX,
    ensures
        bl * bl <= pow(l, (2 * half) as nat),
        t * bl <= t * pow(l, e as nat),
        t * bl + t * bl + extra <= 4 * t * pow(l, e as nat),
{
    let big = pow(l, e as nat);
    lemma_pow_le(l, half, e);
    lemma_pow_adds(l, half as nat, half as nat);
    assert((2 * half) as nat == half as nat + half as nat);
    lemma_count_product(bl, bl, pow(l, half as nat), pow(l, half as nat));
    lemma_bytes_le(t, bl, big);
    assert(t * big + t * big + 2 * t * big == 4 * t * big) by (nonlinear_arith);
}

/// Raise `poly` to `exponent` by squaring, once every exponent of the
/// power is known to fit.
fn pow_nontrivial(poly: &Polynomial, exponent: u32, limits: &ComputeLimits) -> (r: Result<
    Polynomial,
    ArithmeticError,
>)
    requires
        poly.wf(),
        exponent >= 1,
        power_fits(poly@, exponent as int),
    ensures
        r matches Ok(q) ==> q.wf() && q.ring == poly.ring,
        r matches Ok(q) ==> same_mod(
            q@,
            power_views(poly@, exponent as nat, poly.ring.nvars as nat, poly.ring.modulus as int),
            poly.ring.modulus as int,
        ),
        r matches Err(e) ==> e == ArithmeticError::MemoryLimitExceeded || (e == ArithmeticError::Timeout
            && !limits.is_open()),
        limits.is_open() && limits.memory is None && poly@.len() > 0 && power_room(poly, exponent as nat) ==> r is Ok,
{
    let ghost pi = poly.ring.modulus as int;
    let ghost nv = poly.ring.nvars as nat;
    let ghost e = exponent as int;
    let ghost l = poly@.len() as int;
    let ghost t = per_term_spec(poly.ring.nvars as int);
    let ghost big = pow(l, exponent as nat);
    let ghost room = limits.is_open() && limits.memory is None && poly@.len() > 0 && power_room(poly, exponent as nat);
    proof {
        if room {
            lemma_pow_le(l, 1, e);
            lemma_pow1(l);
            lemma_bytes_le(t, l, big);
            lemma_pow0(l);
            assert(big >= 1);
            assert(3 * t * l <= 6 * t * big) by (nonlinear_arith)
                requires
                    t * l <= t * big,
                    t >= 0,
                    big >= 1,
            ;
        }
    }
    let (mut result, mut base) = power_initial(poly, limits)?;
    proof {
        if room {
            lemma_pow0(l);
            lemma_pow1(l);
        }
    }
    proof {
        assert(pi > 0) by {
            assert(valid_modulus(poly.ring.modulus));
        }
        assert(terms_len(poly@, nv)) by {
            assert forall|i: int| 0 <= i < poly@.len() implies (#[trigger] poly@[i]).1.len() == nv by {
                assert(terms_in_ring(poly@, pi, nv));
                assert(0 < poly@[i].0 < pi);
            }
        }
        lemma_power_one(poly@, nv, pi);
        assert(same_mod(result@, power_views(poly@, 0, nv, pi), pi));
        assert(same_mod(base@, power_views(poly@, 1, nv, pi), pi));
        assert forall|i: int, v: int|
            0 <= i < result@.len() && 0 <= v < result@[i].1.len() implies #[trigger] result@[i].1[v] * e
            <= 0 * u16::MAX by {
            assert(result@[i].1[v] == 0);
        }
    }
    let mut power = exponent;
    let mut step: usize = 0;
    let ghost mut scale: int = 1;
    let ghost mut done: int = 0;
    while power != 0
        invariant
            poly.wf(),
            result.wf(),
            base.wf(),
            result.ring == poly.ring,
            base.ring == poly.ring,
            pi == poly.ring.modulus as int,
            nv == poly.ring.nvars as nat,
            e == exponent as int,
            e == power * scale + done,
            0 <= done < scale,
            exps_capped(result@, e, done),
            exps_capped(base@, e, scale),
            pi > 0,
            terms_len(poly@, nv),
            same_mod(result@, power_views(poly@, done as nat, nv, pi), pi),
            power != 0 ==> same_mod(base@, power_views(poly@, scale as nat, nv, pi), pi),
            l == poly@.len(),
            e >= 1,
            t == per_term_spec(poly.ring.nvars as int),
            big == pow(l, exponent as nat),
            room == (limits.is_open() && limits.memory is None && poly@.len() > 0 && power_room(poly, exponent as nat)),
            room ==> result@.len() <= pow(l, done as nat),
            room ==> (power != 0 ==> base@.len() <= pow(l, scale as nat)),
        decreases power,
    {
        proof {
            if room {
                lemma_pow_le(l, 1, e);
                lemma_pow1(l);
                lemma_room_basics(t, l, big);
                assert(retained_spec(poly) == t * l);
                assert(poly@.len() == poly.terms@.len());
            }
        }
        check_work(limits, step)?;
        let held = retained_bytes(poly)?;
        if power % 2 == 1 {
            proof {
                assert(done + scale <= e) by (nonlinear_arith)
                    requires
                        e == power * scale + done,
                        power % 2 == 1,
                        scale >= 1,
                ;
                lemma_capped_products_fit(result@, base@, e, done, scale);
                if room {
                    lemma_room_for_product(
                        result@.len() as int,
                        base@.len() as int,
                        l,
                        done,
                        scale,
                        e,
                        t,
                        held as int,
                    );
                    assert(result@.len() == result.terms@.len());
                    assert(base@.len() == base.terms@.len());
                    let pairs = result@.len() * base@.len();
                    lemma_pow_le(l, 1, e);
                    lemma_pow1(l);
                    lemma_room_basics(t, l, big);
                    assert(held == t * l);
                    lemma_sum_parts_3(retained_spec(&result) as usize, retained_spec(&base) as usize, held);
                    lemma_sum_parts_4(
                        retained_spec(&result) as usize,
                        retained_spec(&base) as usize,
                        held,
                        storage_spec(nv as int, pairs as int) as usize,
                    );
                    assert(4 * t * big <= usize::MAX) by (nonlinear_arith)
                        requires
                            6 * t * big <= usize::MAX,
                            t >= 0,
                            big >= 1,
                    ;
                    assert(retained_spec(&result) == t * result@.len());
                    assert(retained_spec(&base) == t * base@.len());
                    assert(storage_spec(nv as int, pairs as int) == t * pairs);
                    assert(products_fit(result@, base@));
                    assert(mul_fits(&result, &base, held, limits.memory));
                }
            }
            let next = match mul_with_extra(&result, &base, limits, held) {
                Ok(q) => q,
                Err(err) => {
                    return Err(err);
                },
            };
            proof {
                lemma_product_capped(next@, result@, base@, pi, nv, e, done, scale);
                lemma_power_step(result@, base@, next@, poly@, done as nat, scale as nat, nv, pi);
                if room {
                    lemma_count_product(
                        result@.len() as int,
                        base@.len() as int,
                        pow(l, done as nat),
                        pow(l, scale as nat),
                    );
                    lemma_pow_adds(l, done as nat, scale as nat);
                }
                done = done + scale;
            }
            result = next;
        }
        proof {
            assert(e == (power / 2) * (2 * scale) + done) by (nonlinear_arith)
                requires
                    e == power * scale + (if power % 2 == 1 { done - scale } else { done }),
            ;
        }
        power = power / 2;
        proof {
            scale = 2 * scale;
        }
        if power != 0 {
            proof {
                if room {
                    assert(done <= e);
                    lemma_pow_le(l, done, e);
                    lemma_pow_le(l, 1, e);
                    lemma_pow1(l);
                    lemma_room_basics(t, result@.len() as int, big);
                    lemma_room_basics(t, l, big);
                    assert(retained_spec(&result) == t * result@.len());
                    assert(held == t * l);
                    assert(result@.len() == result.terms@.len());
                }
            }
            let held_result = retained_bytes(&result)?;
            let extra = checked_sum(held, held_result)?;
            proof {
                if room {
                    assert(scale / 2 <= e) by (nonlinear_arith)
                        requires
                            e == power * scale + done,
                            power >= 1,
                            done >= 0,
                            scale >= 2,
                    ;
                    assert(held == t * l);
                    lemma_pow_le(l, 1, e);
                    lemma_pow1(l);
                    lemma_bytes_le(t, l, big);
                    assert(held_result == t * result@.len());
                    assert(extra <= 2 * t * big) by (nonlinear_arith)
                        requires
                            extra == held + held_result,
                            held <= t * big,
                            held_result <= t * big,
                    ;
                    lemma_room_for_square(base@.len() as int, l, scale / 2, e, t, extra as int);
                    assert(base@.len() == base.terms@.len());
                    let pairs = base@.len() * base@.len();
                    lemma_sum_parts_3(retained_spec(&base) as usize, retained_spec(&base) as usize, extra);
                    lemma_sum_parts_4(
                        retained_spec(&base) as usize,
                        retained_spec(&base) as usize,
                        extra,
                        storage_spec(nv as int, pairs as int) as usize,
                    );
                    let half = scale / 2;
                    assert(scale <= e) by (nonlinear_arith)
                        requires
                            e == power * scale + done,
                            power >= 1,
                            done >= 0,
                            scale >= 2,
                    ;
                    assert(2 * half == scale);
                    assert((2 * half) as nat == scale as nat);
                    lemma_pow_le(l, scale, e);
                    lemma_bytes_le(t, pairs as int, big);
                    assert(t * pairs + 4 * t * big <= usize::MAX) by (nonlinear_arith)
                        requires
                            t * pairs <= t * big,
                            6 * t * big <= usize::MAX,
                            t >= 0,
                            big >= 1,
                    ;
                    assert(retained_spec(&base) == t * base@.len());
                    assert(storage_spec(nv as int, pairs as int) == t * pairs);
                    assert(mul_fits(&base, &base, extra, limits.memory));
                }
                assert(scale / 2 + scale / 2 <= e) by (nonlinear_arith)
                    requires
                        e == power * scale + done,
                        power >= 1,
                        done >= 0,
                        scale >= 2,
                        scale % 2 == 0,
                ;
                lemma_capped_products_fit(base@, base@, e, scale / 2, scale / 2);
            }
            let next = match mul_with_extra(&base, &base, limits, extra) {
                Ok(q) => q,
                Err(err) => {
                    return Err(err);
                },
            };
            proof {
                lemma_product_capped(next@, base@, base@, pi, nv, e, scale / 2, scale / 2);
                lemma_power_step(base@, base@, next@, poly@, (scale / 2) as nat, (scale / 2) as nat, nv, pi);
                assert((scale / 2) as nat + (scale / 2) as nat == scale as nat);
                if room {
                    lemma_count_product(
                        base@.len() as int,
                        base@.len() as int,
                        pow(l, (scale / 2) as nat),
                        pow(l, (scale / 2) as nat),
                    );
                    lemma_pow_adds(l, (scale / 2) as nat, (scale / 2) as nat);
                }
            }
            base = next;
        } else {
            proof {
                lemma_capped_monotone(base@, e, scale / 2, scale);
            }
        }
        step = bump(step);
    }
    proof {
        if room {
            assert(done == e);
            lemma_pow_le(l, 1, e);
            lemma_pow1(l);
            lemma_room_basics(t, l, big);
            lemma_room_basics(t, result@.len() as int, big);
            assert(retained_spec(poly) == t * l);
            assert(retained_spec(&result) == t * result@.len());
            assert(result@.len() == result.terms@.len());
            assert(poly@.len() == poly.terms@.len());
            assert(t * l + t * result@.len() <= usize::MAX) by (nonlinear_arith)
                requires
                    t * l <= t * big,
                    t * result@.len() <= t * big,
                    6 * t * big <= usize::MAX,
                    t >= 0,
                    big >= 1,
            ;
        }
    }
    let held = retained_bytes(poly)?;
    let held_result = retained_bytes(&result)?;
    let parts = [held, held_result];
    proof {
        assert(parts@ =~= seq![held, held_result]);
        lemma_sum_parts_2(held, held_result);
    }
    check_memory(limits, &parts)?;
    Ok(result)
}

impl Polynomial {
    /// Multiply two polynomials under absolute limits.
    ///
    /// A product that needs an exponent above `u16::MAX` is
    /// [`ArithmeticError::ExponentLimit`].
    pub fn try_mul_with_limits(&self, other: &Self, limits: &ComputeLimits) -> (r: Result<
        Polynomial,
        ArithmeticError,
    >)
        requires
            self.wf(),
            other.wf(),
        ensures
            (r == Err::<Polynomial, ArithmeticError>(ArithmeticError::RingMismatch)) <==> self.ring
                != other.ring,
            r matches Ok(prod) ==> prod.wf() && prod.ring == self.ring && is_product(
                prod@,
                self@,
                other@,
                self.ring.modulus as int,
            ),
            r matches Err(e) ==> e == ArithmeticError::RingMismatch || (e
                == ArithmeticError::MemoryLimitExceeded && !mul_fits(self, other, 0, limits.memory)) || (e
                == (ArithmeticError::ExponentLimit { limit: DEGREE_LIMIT }) && !products_fit(
                self@,
                other@,
            )) || (e == ArithmeticError::Timeout && !limits.is_open()),
            self.ring == other.ring && limits.is_open() ==> (r is Ok <==> mul_fits(
                self,
                other,
                0,
                limits.memory,
            ) && products_fit(self@, other@)),
    {
        check_same_ring(self, other)?;
        mul_with_extra(self, other, limits, 0)
    }

    /// Negate a polynomial under absolute limits.
    ///
    /// The memory limit charges the input and the result capacity.
    pub fn try_neg_with_limits(&self, limits: &ComputeLimits) -> (r: Result<Polynomial, ArithmeticError>)
        requires
            self.wf(),
        ensures
            r matches Ok(neg) ==> neg.wf() && neg.ring == self.ring && neg@ == signed_list(
                self@,
                true,
                self.ring.modulus as int,
            ) && (forall|m: Seq<u16>| #[trigger] coeff_at(neg@, m) == (-coeff_at(self@, m)) % (
            self.ring.modulus as int)),
            r matches Err(e) ==> (e == ArithmeticError::MemoryLimitExceeded && !map_fits(
                self,
                limits.memory,
            )) || (e == ArithmeticError::Timeout && !limits.is_open()),
            limits.is_open() ==> (r is Ok <==> map_fits(self, limits.memory)),
    {
        check_stop(limits)?;
        let capacity = self.terms.len();
        let output = term_storage(self.ring.nvars, capacity)?;
        let held = retained_bytes(self)?;
        let parts = [held, output];
        assert(parts@ =~= seq![retained_spec(self) as usize, retained_spec(self) as usize]);
        check_memory(limits, &parts)?;
        let p = self.ring.modulus;
        let ghost pi = p as int;
        let ghost target = signed_list(self@, true, pi);
        let mut terms: Vec<Term> = Vec::with_capacity(capacity);
        let mut index: usize = 0;
        while index < self.terms.len()
            invariant
                self.wf(),
                p == self.ring.modulus,
                pi == p,
                target == signed_list(self@, true, pi),
                index <= self@.len(),
                views(terms@) == target.take(index as int),
            decreases self@.len() - index,
        {
            check_work(limits, index)?;
            assert(0 < self@[index as int].0 < pi);
            let t = signed_term(&self.terms[index], true, p);
            let ghost before = terms@;
            terms.push(t);
            proof {
                assert(views(terms@) =~= views(before).push(t@));
                assert(target.take(index as int + 1) =~= target.take(index as int).push(
                    target[index as int],
                ));
            }
            index += 1;
        }
        proof {
            assert(target.take(index as int) =~= target);
            lemma_signed_wf(self@, true, pi, self.ring.nvars as nat);
            lemma_sum_parts_2(retained_spec(self) as usize, retained_spec(self) as usize);
            assert forall|m: Seq<u16>| #[trigger] coeff_at(target, m) == (-coeff_at(self@, m)) % pi by {
                lemma_coeff_at_signed(self@, true, pi, m);
                lemma_coeff_at_range(target, pi, self.ring.nvars as nat, m);
            }
        }
        finish(self, terms, limits)
    }

    /// Scale a polynomial by a coefficient under absolute limits.
    ///
    /// The coefficient is read as its residue modulo the ring's prime.
    pub fn try_scale_with_limits(&self, value: i64, limits: &ComputeLimits) -> (r: Result<
        Polynomial,
        ArithmeticError,
    >)
        requires
            self.wf(),
        ensures
            r matches Ok(q) ==> q.wf() && q.ring == self.ring && (forall|m: Seq<u16>|
                #[trigger] coeff_at(q@, m) == (coeff_at(self@, m) * value) % (self.ring.modulus as int)),
            r matches Err(e) ==> (e == ArithmeticError::MemoryLimitExceeded && !map_fits(
                self,
                limits.memory,
            )) || (e == ArithmeticError::Timeout && !limits.is_open()),
            limits.is_open() ==> (r is Ok <==> map_fits(self, limits.memory)),
    {
        check_stop(limits)?;
        let held = retained_bytes(self)?;
        let parts = [held];
        assert(parts@ =~= seq![held]);
        proof {
            lemma_sum_parts_1(held);
            lemma_sum_parts_2(held, held);
        }
        check_memory(limits, &parts)?;
        let ghost pi = self.ring.modulus as int;
        let ghost c = (value as int) % pi;
        match converted_scalar(self, value, limits)? {
            None => {
                let z = self.zero_like();
                proof {
                    assert forall|m: Seq<u16>| #[trigger] coeff_at(z@, m) == (coeff_at(self@, m) * value)
                        % pi by {
                        lemma_mul_mod_noop_right(coeff_at(self@, m), value as int, pi);
                        lemma_small_mod(0, pi as nat);
                        assert(coeff_at(self@, m) * 0 == 0);
                        assert(z@ =~= Seq::<TermView>::empty());
                    }
                }
                Ok(z)
            },
            Some(scalar) => {
                let q = scale_nonzero(self, scalar, limits)?;
                proof {
                    lemma_scaled_wf(self@, c, pi, self.ring.nvars as nat);
                    assert forall|m: Seq<u16>| #[trigger] coeff_at(q@, m) == (coeff_at(self@, m) * value)
                        % pi by {
                        lemma_coeff_at_scaled(self@, c, pi, m);
                        lemma_coeff_at_range(q@, pi, self.ring.nvars as nat, m);
                        lemma_mul_mod_noop_right(coeff_at(self@, m), value as int, pi);
                    }
                }
                Ok(q)
            },
        }
    }

    /// Add two polynomials under absolute limits.
    ///
    /// The memory limit charges both operands and the result capacity.
    pub fn try_add_with_limits(&self, other: &Self, limits: &ComputeLimits) -> (r: Result<
        Polynomial,
        ArithmeticError,
    >)
        requires
            self.wf(),
            other.wf(),
        ensures
            (r == Err::<Polynomial, ArithmeticError>(ArithmeticError::RingMismatch)) <==> self.ring
                != other.ring,
            r matches Ok(sum) ==> sum.wf() && sum.ring == self.ring && is_combination(
                sum@,
                self@,
                other@,
                false,
                self.ring.modulus as int,
            ),
            r matches Err(e) ==> e == ArithmeticError::RingMismatch || (e
                == ArithmeticError::MemoryLimitExceeded && !sum_fits(self, other, limits.memory)) || (e
                == ArithmeticError::Timeout && !limits.is_open()),
            self.ring == other.ring && limits.is_open() ==> (r is Ok <==> sum_fits(
                self,
                other,
                limits.memory,
            )),
    {
        check_same_ring(self, other)?;
        check_stop(limits)?;
        let capacity = checked_sum(self.terms.len(), other.terms.len())?;
        let output = term_storage(self.ring.nvars, capacity)?;
        let left_held = retained_bytes(self)?;
        let right_held = retained_bytes(other)?;
        let parts = [left_held, right_held, output];
        assert(parts@ =~= sum_charge(self, other));
        check_memory(limits, &parts)?;
        let terms = combine_terms(self, other, false, limits)?;
        proof {
            lemma_sum_fits_finish(self, other, limits.memory, terms@.len() as int);
        }
        finish(self, terms, limits)
    }

    /// Subtract `other` from this polynomial under absolute limits.
    ///
    /// The memory limit charges both operands and the result capacity.
    pub fn try_sub_with_limits(&self, other: &Self, limits: &ComputeLimits) -> (r: Result<
        Polynomial,
        ArithmeticError,
    >)
        requires
            self.wf(),
            other.wf(),
        ensures
            (r == Err::<Polynomial, ArithmeticError>(ArithmeticError::RingMismatch)) <==> self.ring
                != other.ring,
            r matches Ok(diff) ==> diff.wf() && diff.ring == self.ring && is_combination(
                diff@,
                self@,
                other@,
                true,
                self.ring.modulus as int,
            ),
            r matches Err(e) ==> e == ArithmeticError::RingMismatch || (e
                == ArithmeticError::MemoryLimitExceeded && !sum_fits(self, other, limits.memory)) || (e
                == ArithmeticError::Timeout && !limits.is_open()),
            self.ring == other.ring && limits.is_open() ==> (r is Ok <==> sum_fits(
                self,
                other,
                limits.memory,
            )),
    {
        check_same_ring(self, other)?;
        check_stop(limits)?;
        let capacity = checked_sum(self.terms.len(), other.terms.len())?;
        let output = term_storage(self.ring.nvars, capacity)?;
        let left_held = retained_bytes(self)?;
        let right_held = retained_bytes(other)?;
        let parts = [left_held, right_held, output];
        assert(parts@ =~= sum_charge(self, other));
        check_memory(limits, &parts)?;
        let terms = combine_terms(self, other, true, limits)?;
        proof {
            lemma_sum_fits_finish(self, other, limits.memory, terms@.len() as int);
        }
        finish(self, terms, limits)
    }

    /// Raise a polynomial to a nonnegative integer power under absolute
    /// limits.
    ///
    /// The exponent zero gives the constant one; every product charges the
    /// same memory limit as the call.
    pub fn try_pow_with_limits(&self, exponent: u32, limits: &ComputeLimits) -> (r: Result<
        Polynomial,
        ArithmeticError,
    >)
        requires
            self.wf(),
        ensures
            r matches Ok(q) ==> q.wf() && q.ring == self.ring,
            r matches Ok(q) ==> same_mod(
                q@,
                power_views(self@, exponent as nat, self.ring.nvars as nat, self.ring.modulus as int),
                self.ring.modulus as int,
            ),
            exponent == 0 ==> (r matches Ok(q) ==> q@ == one_view(self.ring.nvars as nat)),
            exponent == 0 && limits.is_open() ==> (r is Ok <==> one_fits(self, limits.memory)),
            exponent > 0 && self@.len() == 0 ==> (r matches Ok(q) ==> q@.len() == 0),
            exponent > 0 && self@.len() == 0 && limits.is_open() ==> (r is Ok <==> held_fits(
                self,
                limits.memory,
            )),
            exponent == 1 ==> (r matches Ok(q) ==> q@ == self@),
            exponent == 1 && self@.len() > 0 && limits.is_open() ==> (r is Ok <==> map_fits(
                self,
                limits.memory,
            )),
            r == Err::<Polynomial, ArithmeticError>(ArithmeticError::ExponentLimit { limit: DEGREE_LIMIT })
                ==> exponent >= 2 && self@.len() > 0 && !power_fits(self@, exponent as int),
            exponent >= 2 && self@.len() > 0 && limits.is_open() && !power_fits(self@, exponent as int)
                ==> r == Err::<Polynomial, ArithmeticError>(
                ArithmeticError::ExponentLimit { limit: DEGREE_LIMIT },
            ),
            exponent >= 2 && self@.len() > 0 && limits.is_open() && limits.memory is None && power_fits(
                self@,
                exponent as int,
            ) && power_room(self, exponent as nat) ==> r is Ok,
            r matches Err(e) ==> e == ArithmeticError::MemoryLimitExceeded || e == (
            ArithmeticError::ExponentLimit { limit: DEGREE_LIMIT }) || (e == ArithmeticError::Timeout
                && !limits.is_open()),
    {
        check_stop(limits)?;
        if exponent == 0 {
            return one_with_limits(self, limits);
        }
        if self.is_zero() {
            let held = retained_bytes(self)?;
            let parts = [held];
            assert(parts@ =~= seq![held]);
            check_memory(limits, &parts)?;
            proof {
                crate::product::lemma_power_empty(self@, exponent as nat, self.ring.nvars as nat, self.ring.modulus as int);
            }
            return Ok(self.zero_like());
        }
        if exponent == 1 {
            let held = retained_bytes(self)?;
            let parts = [held, held];
            assert(parts@ =~= seq![held, held]);
            check_memory(limits, &parts)?;
            proof {
                let pm = self.ring.modulus as int;
                let nv = self.ring.nvars as nat;
                assert(pm > 0) by {
                    assert(valid_modulus(self.ring.modulus));
                }
                assert(terms_len(self@, nv)) by {
                    assert forall|i: int| 0 <= i < self@.len() implies (#[trigger] self@[i]).1.len() == nv by {
                        assert(terms_in_ring(self@, pm, nv));
                        assert(0 < self@[i].0 < pm);
                    }
                }
                lemma_power_one(self@, nv, pm);
            }
            return Ok(self.copy());
        }
        check_power_exponents(self, exponent, limits)?;
        pow_nontrivial(self, exponent, limits)
    }
}

impl Polynomial {
    /// Add two polynomials under `budget`.
    ///
    /// The operands must belong to equal rings. The result keeps the
    /// ring's ascending term order. The memory limit charges both operands
    /// and the result capacity.
    pub fn try_add(&self, other: &Self, budget: Budget) -> (r: Result<Polynomial, ArithmeticError>)
        requires
            self.wf(),
            other.wf(),
        ensures
            (r == Err::<Polynomial, ArithmeticError>(ArithmeticError::RingMismatch)) <==> self.ring
                != other.ring,
            r matches Ok(sum) ==> sum.wf() && sum.ring == self.ring && is_combination(
                sum@,
                self@,
                other@,
                false,
                self.ring.modulus as int,
            ),
            r matches Err(e) ==> e == ArithmeticError::RingMismatch || (e
                == ArithmeticError::MemoryLimitExceeded && !sum_fits(
                self,
                other,
                budget.memory_limit_spec(),
            )) || (e == ArithmeticError::Timeout && !budget.is_open()),
            self.ring == other.ring && budget.is_open() ==> (r is Ok <==> sum_fits(
                self,
                other,
                budget.memory_limit_spec(),
            )),
    {
        let limits = ComputeLimits::of_budget(&budget);
        self.try_add_with_limits(other, &limits)
    }

    /// Subtract `other` from this polynomial under `budget`.
    ///
    /// The operands must belong to equal rings. The memory limit charges
    /// both operands and the result capacity.
    pub fn try_sub(&self, other: &Self, budget: Budget) -> (r: Result<Polynomial, ArithmeticError>)
        requires
            self.wf(),
            other.wf(),
        ensures
            (r == Err::<Polynomial, ArithmeticError>(ArithmeticError::RingMismatch)) <==> self.ring
                != other.ring,
            r matches Ok(diff) ==> diff.wf() && diff.ring == self.ring && is_combination(
                diff@,
                self@,
                other@,
                true,
                self.ring.modulus as int,
            ),
            r matches Err(e) ==> e == ArithmeticError::RingMismatch || (e
                == ArithmeticError::MemoryLimitExceeded && !sum_fits(
                self,
                other,
                budget.memory_limit_spec(),
            )) || (e == ArithmeticError::Timeout && !budget.is_open()),
            self.ring == other.ring && budget.is_open() ==> (r is Ok <==> sum_fits(
                self,
                other,
                budget.memory_limit_spec(),
            )),
    {
        let limits = ComputeLimits::of_budget(&budget);
        self.try_sub_with_limits(other, &limits)
    }

    /// Multiply two polynomials under `budget`.
    ///
    /// The operands must belong to equal rings. A product that needs an
    /// exponent above `u16::MAX` is [`ArithmeticError::ExponentLimit`].
    pub fn try_mul(&self, other: &Self, budget: Budget) -> (r: Result<Polynomial, ArithmeticError>)
        requires
            self.wf(),
            other.wf(),
        ensures
            (r == Err::<Polynomial, ArithmeticError>(ArithmeticError::RingMismatch)) <==> self.ring
                != other.ring,
            r matches Ok(prod) ==> prod.wf() && prod.ring == self.ring && is_product(
                prod@,
                self@,
                other@,
                self.ring.modulus as int,
            ),
            r matches Err(e) ==> e == ArithmeticError::RingMismatch || (e
                == ArithmeticError::MemoryLimitExceeded && !mul_fits(
                self,
                other,
                0,
                budget.memory_limit_spec(),
            )) || (e == (ArithmeticError::ExponentLimit { limit: DEGREE_LIMIT }) && !products_fit(
                self@,
                other@,
            )) || (e == ArithmeticError::Timeout && !budget.is_open()),
            self.ring == other.ring && budget.is_open() ==> (r is Ok <==> mul_fits(
                self,
                other,
                0,
                budget.memory_limit_spec(),
            ) && products_fit(self@, other@)),
    {
        let limits = ComputeLimits::of_budget(&budget);
        self.try_mul_with_limits(other, &limits)
    }

    /// Negate a polynomial under `budget`.
    ///
    /// The memory limit charges the input and the result capacity.
    pub fn try_neg(&self, budget: Budget) -> (r: Result<Polynomial, ArithmeticError>)
        requires
            self.wf(),
        ensures
            r matches Ok(neg) ==> neg.wf() && neg.ring == self.ring && (forall|m: Seq<u16>|
                #[trigger] coeff_at(neg@, m) == (-coeff_at(self@, m)) % (self.ring.modulus as int)),
            r matches Err(e) ==> (e == ArithmeticError::MemoryLimitExceeded && !map_fits(
                self,
                budget.memory_limit_spec(),
            )) || (e == ArithmeticError::Timeout && !budget.is_open()),
            budget.is_open() ==> (r is Ok <==> map_fits(self, budget.memory_limit_spec())),
    {
        let limits = ComputeLimits::of_budget(&budget);
        self.try_neg_with_limits(&limits)
    }

    /// Raise a polynomial to a nonnegative integer power under `budget`.
    ///
    /// The exponent zero gives the constant one. Every product uses the same
    /// deadline and memory limit as this call.
    pub fn try_pow(&self, exponent: u32, budget: Budget) -> (r: Result<Polynomial, ArithmeticError>)
        requires
            self.wf(),
        ensures
            r matches Ok(q) ==> q.wf() && q.ring == self.ring,
            r matches Ok(q) ==> same_mod(
                q@,
                power_views(self@, exponent as nat, self.ring.nvars as nat, self.ring.modulus as int),
                self.ring.modulus as int,
            ),
            exponent == 0 ==> (r matches Ok(q) ==> q@ == one_view(self.ring.nvars as nat)),
            exponent == 0 && budget.is_open() ==> (r is Ok <==> one_fits(self, budget.memory_limit_spec())),
            exponent > 0 && self@.len() == 0 ==> (r matches Ok(q) ==> q@.len() == 0),
            exponent > 0 && self@.len() == 0 && budget.is_open() ==> (r is Ok <==> held_fits(
                self,
                budget.memory_limit_spec(),
            )),
            exponent == 1 ==> (r matches Ok(q) ==> q@ == self@),
            exponent == 1 && self@.len() > 0 && budget.is_open() ==> (r is Ok <==> map_fits(
                self,
                budget.memory_limit_spec(),
            )),
            r == Err::<Polynomial, ArithmeticError>(ArithmeticError::ExponentLimit { limit: DEGREE_LIMIT })
                ==> exponent >= 2 && self@.len() > 0 && !power_fits(self@, exponent as int),
            exponent >= 2 && self@.len() > 0 && budget.is_open() && !power_fits(self@, exponent as int)
                ==> r == Err::<Polynomial, ArithmeticError>(
                ArithmeticError::ExponentLimit { limit: DEGREE_LIMIT },
            ),
            exponent >= 2 && self@.len() > 0 && budget.is_open() && budget.memory_limit_spec() is None
                && power_fits(self@, exponent as int) && power_room(self, exponent as nat) ==> r is Ok,
            r matches Err(e) ==> e == ArithmeticError::MemoryLimitExceeded || e == (
            ArithmeticError::ExponentLimit { limit: DEGREE_LIMIT }) || (e == ArithmeticError::Timeout
                && !budget.is_open()),
    {
        let limits = ComputeLimits::of_budget(&budget);
        self.try_pow_with_limits(exponent, &limits)
    }

    /// Scale a polynomial by a coefficient under `budget`.
    ///
    /// The coefficient is read as its residue modulo the ring's prime.
    pub fn try_scale(&self, value: i64, budget: Budget) -> (r: Result<Polynomial, ArithmeticError>)
        requires
            self.wf(),
        ensures
            r matches Ok(q) ==> q.wf() && q.ring == self.ring && (forall|m: Seq<u16>|
                #[trigger] coeff_at(q@, m) == (coeff_at(self@, m) * value) % (self.ring.modulus as int)),
            r matches Err(e) ==> (e == ArithmeticError::MemoryLimitExceeded && !map_fits(
                self,
                budget.memory_limit_spec(),
            )) || (e == ArithmeticError::Timeout && !budget.is_open()),
            budget.is_open() ==> (r is Ok <==> map_fits(self, budget.memory_limit_spec())),
    {
        let limits = ComputeLimits::of_budget(&budget);
        self.try_scale_with_limits(value, &limits)
    }
}

} // verus!
