//! Cofactor vectors over the canonical input.
//!
//! An origin holds one cofactor per input polynomial. For a value `g` the
//! engines carry, the origin `c` states the identity
//!
//! ```text
//! g = sum_i c_i * f_i
//! ```
//!
//! over the canonical input F. Every function here updates an origin by the
//! same scalar and monomial the polynomial step uses.

use vstd::arithmetic::div_mod::*;
use vstd::prelude::*;

use super::divide::{combo_coeff, poly_views};
use crate::exact::{ExponentOverflow, scale_fits};
use crate::field::{Felt, field_inverse, is_prime, lemma_field_inverse};
use crate::monomial::{Monomial, grevlex_less, lemma_grevlex_asymmetric, lemma_grevlex_total, product_fits};
use crate::poly::{
    Polynomial,
    PolynomialRing,
    TermView,
    coeff_at,
    is_combination,
    lemma_coeff_at_push,
    lemma_coeff_at_range,
    lemma_coeff_at_sorted,
    mul_views,
    scale_by_term,
    scaled_list,
    signed_coeff,
    term_value,
    terms_wf,
};

verus! {

/// One cofactor per input polynomial.
pub type Origin = Vec<Polynomial>;

/// Every polynomial of the list is canonical in `ring`.
pub open spec fn all_in_ring(s: Seq<Polynomial>, ring: PolynomialRing) -> bool {
    forall|k: int| 0 <= k < s.len() ==> (#[trigger] s[k]).wf() && s[k].ring == ring
}

/// Every term of every cofactor times its input polynomial stays in `u16`.
pub open spec fn products_in_range(origin: Seq<Polynomial>, input: Seq<Polynomial>) -> bool {
    forall|i: int, k: int|
        0 <= i < origin.len() && i < input.len() && 0 <= k < origin[i]@.len() ==> scale_fits(
            input[i]@,
            #[trigger] origin[i]@[k].1,
        )
}

/// The number of products `sum_i |c_i| * |f_i|`.
pub open spec fn product_count(origin: Seq<Polynomial>, input: Seq<Polynomial>) -> int
    decreases origin.len(),
{
    if origin.len() == 0 {
        0
    } else {
        product_count(origin.drop_last(), input) + origin.last()@.len() * input[origin.len() - 1]@.len()
    }
}

/// `poly = sum_i c_i * f_i` modulo `p`, monomial by monomial.
pub open spec fn origin_identity(origin: Seq<Polynomial>, input: Seq<Polynomial>, poly: Seq<TermView>, p: int) -> bool {
    &&& origin.len() == input.len()
    &&& forall|m: Seq<u16>| #[trigger] coeff_at(poly, m) == combo_coeff(
        poly_views(origin),
        poly_views(input),
        p,
        m,
    ) % p
}

/// Two canonical term lists with the same coefficients are the same list.
pub proof fn lemma_canonical_unique(a: Seq<TermView>, b: Seq<TermView>, p: int, nvars: nat)
    requires
        terms_wf(a, p, nvars),
        terms_wf(b, p, nvars),
        forall|m: Seq<u16>| #[trigger] coeff_at(a, m) == coeff_at(b, m),
    ensures
        a == b,
    decreases a.len() + b.len(),
{
    if a.len() == 0 && b.len() == 0 {
        assert(a =~= b);
    } else if a.len() == 0 {
        let lb = b.last();
        assert(b.last() == b[b.len() - 1]);
        assert(0 < b[b.len() - 1].0);
        lemma_coeff_at_sorted(b, lb.1);
        assert(coeff_at(a, lb.1) == coeff_at(b, lb.1));
    } else if b.len() == 0 {
        let la = a.last();
        assert(a.last() == a[a.len() - 1]);
        assert(0 < a[a.len() - 1].0);
        lemma_coeff_at_sorted(a, la.1);
        assert(coeff_at(a, la.1) == coeff_at(b, la.1));
    } else {
        let la = a.last();
        let lb = b.last();
        assert(a.last() == a[a.len() - 1]);
        assert(b.last() == b[b.len() - 1]);
        assert(0 < a[a.len() - 1].0 && la.1.len() == nvars);
        assert(0 < b[b.len() - 1].0 && lb.1.len() == nvars);
        lemma_coeff_at_sorted(a, la.1);
        lemma_coeff_at_sorted(b, lb.1);
        lemma_coeff_at_sorted(a, lb.1);
        lemma_coeff_at_sorted(b, la.1);
        assert(coeff_at(a, la.1) == coeff_at(b, la.1));
        assert(coeff_at(a, lb.1) == coeff_at(b, lb.1));
        if la.1 != lb.1 {
            lemma_grevlex_total(la.1, lb.1);
            if grevlex_less(la.1, lb.1) {
                assert forall|k: int| 0 <= k < a.len() implies #[trigger] a[k].1 != lb.1 by {
                    if k < a.len() - 1 {
                        assert(grevlex_less(a[k].1, la.1));
                        assert(0 < a[k].0);
                        crate::monomial::lemma_grevlex_transitive(a[k].1, la.1, lb.1);
                        crate::monomial::lemma_grevlex_irreflexive(lb.1);
                    }
                }
            } else {
                assert forall|k: int| 0 <= k < b.len() implies #[trigger] b[k].1 != la.1 by {
                    if k < b.len() - 1 {
                        assert(grevlex_less(b[k].1, lb.1));
                        assert(0 < b[k].0);
                        crate::monomial::lemma_grevlex_transitive(b[k].1, lb.1, la.1);
                        crate::monomial::lemma_grevlex_irreflexive(la.1);
                    }
                }
            }
        }
        let fa = a.drop_last();
        let fb = b.drop_last();
        crate::poly::lemma_wf_subrange(a, p, nvars, 0, a.len() - 1);
        crate::poly::lemma_wf_subrange(b, p, nvars, 0, b.len() - 1);
        assert(a.subrange(0, a.len() - 1) =~= fa);
        assert(b.subrange(0, b.len() - 1) =~= fb);
        assert forall|m: Seq<u16>| #[trigger] coeff_at(fa, m) == coeff_at(fb, m) by {
            assert(coeff_at(a, m) == coeff_at(b, m));
        }
        lemma_canonical_unique(fa, fb, p, nvars);
        assert(a =~= fa.push(la));
        assert(b =~= fb.push(lb));
    }
}

/// The count of a prefix grows by one product per cofactor.
proof fn lemma_product_count_step(origin: Seq<Polynomial>, input: Seq<Polynomial>, i: int)
    requires
        0 <= i < origin.len(),
    ensures
        product_count(origin.take(i + 1), input) == product_count(origin.take(i), input) + origin[i]@.len()
            * input[i]@.len(),
{
    assert(origin.take(i + 1).drop_last() =~= origin.take(i));
    assert(origin.take(i + 1).last() == origin[i]);
}

/// A prefix counts no more than the whole list.
proof fn lemma_product_count_prefix(origin: Seq<Polynomial>, input: Seq<Polynomial>, j: int)
    requires
        0 <= j <= origin.len(),
    ensures
        0 <= product_count(origin.take(j), input) <= product_count(origin, input),
    decreases origin.len(),
{
    if j == origin.len() {
        assert(origin.take(j) =~= origin);
        lemma_product_count_nonneg(origin, input);
    } else {
        let front = origin.drop_last();
        assert(origin.take(j) =~= front.take(j));
        lemma_product_count_prefix(front, input, j);
        assert(origin.last()@.len() * input[origin.len() - 1]@.len() >= 0) by (nonlinear_arith);
    }
}

proof fn lemma_product_count_nonneg(origin: Seq<Polynomial>, input: Seq<Polynomial>)
    ensures
        product_count(origin, input) >= 0,
    decreases origin.len(),
{
    if origin.len() > 0 {
        lemma_product_count_nonneg(origin.drop_last(), input);
        assert(origin.last()@.len() * input[origin.len() - 1]@.len() >= 0) by (nonlinear_arith);
    }
}

/// Report whether two polynomials hold the same terms.
pub(crate) fn same_terms(a: &Polynomial, b: &Polynomial) -> (r: bool)
    ensures
        r == (a@ == b@),
{
    assert(a@.len() == a.terms@.len() && b@.len() == b.terms@.len());
    if a.terms.len() != b.terms.len() {
        return false;
    }
    let mut i: usize = 0;
    while i < a.terms.len()
        invariant
            a.terms@.len() == b.terms@.len(),
            i <= a.terms@.len(),
            forall|k: int| 0 <= k < i ==> a@[k] == b@[k],
        decreases a.terms@.len() - i,
    {
        if a.terms[i].coeff.value != b.terms[i].coeff.value || !a.terms[i].mono.equals(&b.terms[i].mono) {
            proof {
                assert(a@[i as int] == a.terms@[i as int]@);
                assert(b@[i as int] == b.terms@[i as int]@);
                assert(a@[i as int] != b@[i as int]);
            }
            return false;
        }
        proof {
            assert(a@[i as int] == a.terms@[i as int]@);
            assert(b@[i as int] == b.terms@[i as int]@);
        }
        i += 1;
    }
    assert(a@ =~= b@);
    true
}

/// The origin of input polynomial `index` in a list of `count` inputs:
/// cofactor `index` is the constant 1, the rest are zero.
pub fn unit(ring: &PolynomialRing, index: usize, count: usize) -> (o: Origin)
    requires
        ring.wf(),
        index < count,
    ensures
        o@.len() == count,
        all_in_ring(o@, *ring),
        o@[index as int]@ == crate::arithmetic::one_view(ring.nvars as nat),
        forall|k: int| 0 <= k < count && k != index ==> (#[trigger] o@[k])@.len() == 0,
{
    let mut origin: Vec<Polynomial> = Vec::new();
    let mut k: usize = 0;
    while k < count
        invariant
            ring.wf(),
            index < count,
            k <= count,
            origin@.len() == k,
            all_in_ring(origin@, *ring),
            k > index ==> origin@[index as int]@ == crate::arithmetic::one_view(ring.nvars as nat),
            forall|j: int| 0 <= j < k && j != index ==> (#[trigger] origin@[j])@.len() == 0,
        decreases count - k,
    {
        if k == index {
            origin.push(ring.one());
        } else {
            origin.push(ring.zero());
        }
        k += 1;
    }
    origin
}

/// Apply `target -= coeff * mono * source`, cofactor by cofactor.
///
/// This is the origin step that matches subtracting `coeff * mono * g`
/// from a work polynomial, where `source` is the origin of `g`. A product
/// past the width of one exponent is [`ExponentOverflow`]; the origin is
/// then left partly updated, so the caller must drop it.
pub fn sub_scaled(target: &mut Origin, source: &Origin, coeff: Felt, mono: &Monomial, p: u64) -> (r: Result<
    (),
    ExponentOverflow,
>)
    requires
        old(target)@.len() > 0 ==> all_in_ring(old(target)@, old(target)@[0].ring),
        old(target)@.len() > 0 ==> all_in_ring(source@, old(target)@[0].ring),
        old(target)@.len() > 0 ==> p == old(target)@[0].ring.modulus && mono@.len()
            == old(target)@[0].ring.nvars,
        coeff.value < p,
    ensures
        final(target)@.len() == old(target)@.len(),
        old(target)@.len() > 0 ==> all_in_ring(final(target)@, old(target)@[0].ring),
        r is Ok ==> forall|k: int|
            0 <= k < old(target)@.len() && k < source@.len() ==> forall|m: Seq<u16>|
                #[trigger] coeff_at(final(target)@[k]@, m) == (coeff_at(old(target)@[k]@, m) - coeff_at(
                    scale_by_term(#[trigger] source@[k]@, (coeff.value as int, mono@), p as int),
                    m,
                )) % (p as int),
        r is Ok ==> forall|k: int|
            source@.len() <= k < old(target)@.len() ==> #[trigger] final(target)@[k] == old(target)@[k],
        r is Err ==> exists|k: int|
            0 <= k < old(target)@.len() && k < source@.len() && source@[k]@.len() > 0 && !scale_fits(
                #[trigger] source@[k]@,
                mono@,
            ),
{
    let ghost before = target@;
    assert(before == old(target)@);
    let n = target.len();
    let mut k: usize = 0;
    while k < n && k < source.len()
        invariant
            before == old(target)@,
            k <= source@.len(),
            n == before.len(),
            target@.len() == n,
            k <= n,
            n > 0 ==> all_in_ring(before, before[0].ring),
            n > 0 ==> all_in_ring(source@, before[0].ring),
            n > 0 ==> all_in_ring(target@, before[0].ring),
            n > 0 ==> p == before[0].ring.modulus && mono@.len() == before[0].ring.nvars,
            coeff.value < p,
            forall|j: int|
                0 <= j < k && j < source@.len() ==> forall|m: Seq<u16>|
                    #[trigger] coeff_at(target@[j]@, m) == (coeff_at(before[j]@, m) - coeff_at(
                        scale_by_term(#[trigger] source@[j]@, (coeff.value as int, mono@), p as int),
                        m,
                    )) % (p as int),
            forall|j: int| k <= j < n ==> #[trigger] target@[j] == before[j],
        decreases n - k,
    {
        let ghost slot = target@[k as int];
        proof {
            assert(slot == before[k as int]);
            assert(slot.wf());
            assert(source@[k as int].wf());
        }
        if source[k].terms.len() == 0 {
            proof {
                let pi = p as int;
                assert forall|m: Seq<u16>| #[trigger] coeff_at(target@[k as int]@, m) == (coeff_at(
                    before[k as int]@,
                    m,
                ) - coeff_at(scale_by_term(source@[k as int]@, (coeff.value as int, mono@), pi), m)) % pi by {
                    assert(scale_by_term(source@[k as int]@, (coeff.value as int, mono@), pi) =~= Seq::<
                        TermView,
                    >::empty());
                    lemma_coeff_at_range(slot@, pi, slot.ring.nvars as nat, m);
                }
            }
        } else {
            let next = match target[k].sub_scaled(&source[k], coeff, mono) {
                Ok(q) => q,
                Err(e) => {
                    return Err(e);
                },
            };
            target[k] = next;
        }
        k += 1;
    }
    Ok(())
}

/// Return `left_coeff * left_mono * left - right_coeff * right_mono * right`,
/// cofactor by cofactor.
///
/// This is the origin step that matches forming an S-polynomial from two
/// term-multiplied parents. A product past the width of one exponent is
/// [`ExponentOverflow`].
pub fn combine(
    left: &Origin,
    left_coeff: Felt,
    left_mono: &Monomial,
    right: &Origin,
    right_coeff: Felt,
    right_mono: &Monomial,
    p: u64,
) -> (r: Result<Origin, ExponentOverflow>)
    requires
        left@.len() > 0 ==> all_in_ring(left@, left@[0].ring) && all_in_ring(right@, left@[0].ring) && p
            == left@[0].ring.modulus && left_mono@.len() == left@[0].ring.nvars && right_mono@.len()
            == left@[0].ring.nvars,
        left_coeff.value < p,
        right_coeff.value < p,
    ensures
        r matches Ok(o) ==> o@.len() == (if left@.len() <= right@.len() {
            left@.len()
        } else {
            right@.len()
        }) && (left@.len() > 0 ==> all_in_ring(o@, left@[0].ring)) && forall|k: int|
            0 <= k < o@.len() ==> is_combination(
                (#[trigger] o@[k])@,
                scale_by_term(left@[k]@, (left_coeff.value as int, left_mono@), p as int),
                scale_by_term(right@[k]@, (right_coeff.value as int, right_mono@), p as int),
                true,
                p as int,
            ),
        r is Err ==> exists|k: int|
            0 <= k < left@.len() && k < right@.len() && (!scale_fits(#[trigger] left@[k]@, left_mono@)
                || !scale_fits(right@[k]@, right_mono@)),
{
    let mut out: Vec<Polynomial> = Vec::new();
    let mut k: usize = 0;
    while k < left.len() && k < right.len()
        invariant
            left@.len() > 0 ==> all_in_ring(left@, left@[0].ring) && all_in_ring(right@, left@[0].ring) && p
                == left@[0].ring.modulus && left_mono@.len() == left@[0].ring.nvars && right_mono@.len()
                == left@[0].ring.nvars,
            left_coeff.value < p,
            right_coeff.value < p,
            k <= left@.len(),
            k <= right@.len(),
            out@.len() == k,
            left@.len() > 0 ==> all_in_ring(out@, left@[0].ring),
            forall|j: int|
                0 <= j < k ==> is_combination(
                    (#[trigger] out@[j])@,
                    scale_by_term(left@[j]@, (left_coeff.value as int, left_mono@), p as int),
                    scale_by_term(right@[j]@, (right_coeff.value as int, right_mono@), p as int),
                    true,
                    p as int,
                ),
        decreases left@.len() - k,
    {
        proof {
            assert(left@[k as int].wf());
            assert(right@[k as int].wf());
        }
        let a = match left[k].scale_monomial(left_coeff, left_mono) {
            Ok(q) => q,
            Err(e) => {
                return Err(e);
            },
        };
        let b = match right[k].scale_monomial(right_coeff, right_mono) {
            Ok(q) => q,
            Err(e) => {
                return Err(e);
            },
        };
        let d = a.sub(&b);
        proof {
            let pi = p as int;
            let sa = scale_by_term(left@[k as int]@, (left_coeff.value as int, left_mono@), pi);
            let sb = scale_by_term(right@[k as int]@, (right_coeff.value as int, right_mono@), pi);
            assert forall|m: Seq<u16>| #[trigger] coeff_at(d@, m) == (coeff_at(sa, m) + signed_coeff(
                coeff_at(sb, m),
                true,
            )) % pi by {
                assert(coeff_at(d@, m) == (coeff_at(a@, m) - coeff_at(b@, m)) % pi);
                lemma_sub_mod_noop(coeff_at(sa, m), coeff_at(sb, m), pi);
                lemma_mod_twice(coeff_at(sa, m), pi);
                lemma_mod_twice(coeff_at(sb, m), pi);
                lemma_sub_mod_noop(coeff_at(a@, m), coeff_at(b@, m), pi);
            }
        }
        out.push(d);
        k += 1;
    }
    Ok(out)
}

/// Multiply every cofactor by a nonzero `coeff`; no term drops out and the
/// term order holds.
pub fn scale(target: &mut Origin, coeff: Felt, p: u64)
    requires
        old(target)@.len() > 0 ==> all_in_ring(old(target)@, old(target)@[0].ring) && p
            == old(target)@[0].ring.modulus,
        old(target)@.len() > 0 ==> 0 < coeff.value < p,
    ensures
        final(target)@.len() == old(target)@.len(),
        old(target)@.len() > 0 ==> all_in_ring(final(target)@, old(target)@[0].ring),
        forall|k: int|
            0 <= k < old(target)@.len() ==> (#[trigger] final(target)@[k])@ == scaled_list(
                old(target)@[k]@,
                coeff.value as int,
                p as int,
            ),
{
    let ghost before = target@;
    let n = target.len();
    let mut k: usize = 0;
    while k < n
        invariant
            n == before.len(),
            target@.len() == n,
            k <= n,
            n > 0 ==> all_in_ring(before, before[0].ring) && p == before[0].ring.modulus,
            n > 0 ==> 0 < coeff.value < p,
            n > 0 ==> all_in_ring(target@, before[0].ring),
            forall|j: int| 0 <= j < k ==> (#[trigger] target@[j])@ == scaled_list(before[j]@, coeff.value as int, p as int),
            forall|j: int| k <= j < n ==> #[trigger] target@[j] == before[j],
        decreases n - k,
    {
        let next = scale_poly(&target[k], coeff, p);
        target[k] = next;
        k += 1;
    }
}

/// One polynomial times a nonzero residue.
fn scale_poly(poly: &Polynomial, coeff: Felt, p: u64) -> (r: Polynomial)
    requires
        poly.wf(),
        p == poly.ring.modulus,
        0 < coeff.value < p,
    ensures
        r.wf(),
        r.ring == poly.ring,
        r@ == scaled_list(poly@, coeff.value as int, p as int),
{
    let ghost pi = p as int;
    let ghost c = coeff.value as int;
    let ghost target = scaled_list(poly@, c, pi);
    let mut terms: Vec<crate::poly::Term> = Vec::new();
    let mut i: usize = 0;
    while i < poly.terms.len()
        invariant
            poly.wf(),
            p == poly.ring.modulus,
            pi == p,
            c == coeff.value,
            0 < c < pi,
            target == scaled_list(poly@, c, pi),
            i <= poly@.len(),
            crate::poly::views(terms@) == target.take(i as int),
        decreases poly@.len() - i,
    {
        assert(poly@[i as int] == poly.terms@[i as int]@);
        assert(0 < poly@[i as int].0);
        assert(poly@[i as int].0 < pi);
        let value = poly.terms[i].coeff.mul(coeff, p);
        let ghost before = terms@;
        terms.push(crate::poly::Term { coeff: value, mono: poly.terms[i].mono.copy() });
        proof {
            assert(crate::poly::views(terms@) =~= crate::poly::views(before).push(terms@.last()@));
            assert(target.take(i as int + 1) =~= target.take(i as int).push(target[i as int]));
        }
        i += 1;
    }
    proof {
        assert(target.take(i as int) =~= target);
        crate::poly::lemma_scaled_wf(poly@, c, pi, poly.ring.nvars as nat);
    }
    Polynomial { ring: poly.ring, terms }
}

/// Make `poly` monic and scale `target` by the same factor.
///
/// Returns the monic polynomial. The zero polynomial has no leading
/// coefficient, so it leaves the origin alone.
pub fn make_monic(poly: &Polynomial, target: &mut Origin, p: u64) -> (r: Polynomial)
    requires
        poly.wf(),
        p == poly.ring.modulus,
        old(target)@.len() > 0 ==> all_in_ring(old(target)@, poly.ring),
    ensures
        r.wf(),
        r.ring == poly.ring,
        poly@.len() == 0 ==> r@.len() == 0 && final(target)@ == old(target)@,
        poly@.len() > 0 ==> r@ == scaled_list(poly@, field_inverse(poly@.last().0, p as int), p as int),
        poly@.len() > 0 ==> r@.last().0 == 1,
        final(target)@.len() == old(target)@.len(),
        old(target)@.len() > 0 ==> all_in_ring(final(target)@, poly.ring),
        poly@.len() > 0 ==> forall|k: int|
            0 <= k < old(target)@.len() ==> (#[trigger] final(target)@[k])@ == scaled_list(
                old(target)@[k]@,
                field_inverse(poly@.last().0, p as int),
                p as int,
            ),
{
    match poly.lc() {
        Some(lc) => {
            proof {
                assert(poly@.last() == poly@[poly@.len() - 1]);
                assert(0 < poly@[poly@.len() - 1].0 < p);
            }
            let inv = lc.inv(p);
            proof {
                lemma_field_inverse(lc.value as int, inv.value as int, p as int);
                if inv.value == 0 {
                    assert(lc.value * 0 == 0);
                    lemma_small_mod(0, p as nat);
                }
            }
            scale(target, inv, p);
        },
        None => {},
    }
    poly.make_monic()
}

/// Report whether `poly` equals `sum_i c_i * f_i` over the input.
///
/// A cofactor term whose product with its input polynomial passes the
/// width of one exponent makes the check fail.
pub fn holds(origin: &Origin, input: &[Polynomial], poly: &Polynomial, p: u64) -> (r: bool)
    requires
        poly.wf(),
        p == poly.ring.modulus,
        all_in_ring(origin@, poly.ring),
        all_in_ring(input@, poly.ring),
    ensures
        r ==> origin_identity(origin@, input@, poly@, p as int),
        origin_identity(origin@, input@, poly@, p as int) && products_in_range(origin@, input@)
            && product_count(origin@, input@) <= usize::MAX ==> r,
{
    if origin.len() != input.len() {
        return false;
    }
    let ghost pi = p as int;
    let ghost nv = poly.ring.nvars as nat;
    let ghost ov = poly_views(origin@);
    let ghost iv = poly_views(input@);
    let mut sum = poly.zero_like();
    let mut i: usize = 0;
    proof {
        assert forall|m: Seq<u16>| #[trigger] coeff_at(sum@, m) == combo_coeff(ov.take(0), iv, pi, m) % pi by {
            assert(sum@ =~= Seq::<TermView>::empty());
            lemma_small_mod(0, pi as nat);
        }
    }
    while i < origin.len()
        invariant
            poly.wf(),
            p == poly.ring.modulus,
            pi == p,
            nv == poly.ring.nvars,
            all_in_ring(origin@, poly.ring),
            all_in_ring(input@, poly.ring),
            origin@.len() == input@.len(),
            ov == poly_views(origin@),
            iv == poly_views(input@),
            i <= origin@.len(),
            sum.wf(),
            sum.ring == poly.ring,
            sum@.len() <= product_count(origin@.take(i as int), input@),
            forall|m: Seq<u16>| #[trigger] coeff_at(sum@, m) == combo_coeff(ov.take(i as int), iv, pi, m) % pi,
        decreases origin@.len() - i,
    {
        let cofactor = &origin[i];
        let f = &input[i];
        proof {
            assert(cofactor.wf());
            assert(f.wf());
        }
        let ghost base = sum@;
        proof {
            assert forall|m: Seq<u16>| #[trigger] coeff_at(sum@, m) == (coeff_at(base, m) + coeff_at(
                mul_views(cofactor@.take(0), f@, pi),
                m,
            )) % pi by {
                assert(mul_views(cofactor@.take(0), f@, pi) =~= Seq::<TermView>::empty());
                lemma_coeff_at_range(sum@, pi, nv, m);
            }
        }
        let mut k: usize = 0;
        while k < cofactor.terms.len()
            invariant
                poly.wf(),
                p == poly.ring.modulus,
                pi == p,
                nv == poly.ring.nvars,
                cofactor.wf(),
                f.wf(),
                cofactor.ring == poly.ring,
                f.ring == poly.ring,
                k <= cofactor@.len(),
                i < origin@.len(),
                origin@.len() == input@.len(),
                *cofactor == origin@[i as int],
                *f == input@[i as int],
                sum.wf(),
                sum.ring == poly.ring,
                sum@.len() <= product_count(origin@.take(i as int), input@) + k * f@.len(),
                forall|m: Seq<u16>| #[trigger] coeff_at(sum@, m) == (coeff_at(base, m) + coeff_at(
                    mul_views(cofactor@.take(k as int), f@, pi),
                    m,
                )) % pi,
            decreases cofactor@.len() - k,
        {
            proof {
                assert(cofactor@[k as int] == cofactor.terms@[k as int]@);
                assert(0 < cofactor@[k as int].0 < pi);
                assert(cofactor@[k as int].1.len() == nv);
            }
            let t = &cofactor.terms[k];
            let scaled = match f.scale_monomial(t.coeff, &t.mono) {
                Ok(s) => s,
                Err(_) => {
                    proof {
                        assert(t.mono@ == origin@[i as int]@[k as int].1);
                        assert(!scale_fits(input@[i as int]@, origin@[i as int]@[k as int].1));
                    }
                    return false;
                },
            };
            proof {
                lemma_product_count_step(origin@, input@, i as int);
                lemma_product_count_prefix(origin@, input@, i as int + 1);
                assert(k * f@.len() + f@.len() <= cofactor@.len() * f@.len()) by (nonlinear_arith)
                    requires
                        k < cofactor@.len(),
                ;
            }
            let total = match sum.terms.len().checked_add(scaled.terms.len()) {
                Some(n) => n,
                None => {
                    return false;
                },
            };
            let ghost prev = sum@;
            let next = sum.add(&scaled);
            proof {
                let tv = cofactor@[k as int];
                let c = cofactor@.take(k as int + 1);
                assert(c.drop_last() =~= cofactor@.take(k as int));
                assert(c.last() == tv);
                assert forall|m: Seq<u16>| #[trigger] coeff_at(next@, m) == (coeff_at(base, m) + coeff_at(
                    mul_views(c, f@, pi),
                    m,
                )) % pi by {
                    crate::poly::lemma_coeff_at_concat(mul_views(cofactor@.take(k as int), f@, pi), scale_by_term(f@, tv, pi), m);
                    let x = coeff_at(base, m) + coeff_at(mul_views(cofactor@.take(k as int), f@, pi), m);
                    let y = coeff_at(scale_by_term(f@, tv, pi), m);
                    assert(coeff_at(next@, m) == (coeff_at(prev, m) + coeff_at(scaled@, m)) % pi);
                    assert(coeff_at(prev, m) == x % pi);
                    assert(coeff_at(scaled@, m) == y % pi);
                    lemma_add_mod_noop(x, y, pi);
                }
            }
            sum = next;
            k += 1;
            proof {
                assert(k * f@.len() == (k - 1) * f@.len() + f@.len()) by (nonlinear_arith);
            }
        }
        proof {
            let o = ov.take(i as int + 1);
            assert(o.drop_last() =~= ov.take(i as int));
            assert(o.last() == cofactor@);
            assert(cofactor@.take(k as int) =~= cofactor@);
            assert(iv[i as int] == f@);
            lemma_product_count_step(origin@, input@, i as int);
            assert forall|m: Seq<u16>| #[trigger] coeff_at(sum@, m) == combo_coeff(o, iv, pi, m) % pi by {
                let x = combo_coeff(ov.take(i as int), iv, pi, m);
                let y = coeff_at(mul_views(cofactor@, f@, pi), m);
                assert(coeff_at(base, m) == x % pi);
                assert(combo_coeff(o, iv, pi, m) == x + y);
                lemma_add_mod_noop(x, y, pi);
                lemma_mod_twice(x, pi);
                lemma_add_mod_noop(x % pi, y, pi);
            }
        }
        i += 1;
    }
    proof {
        assert(ov.take(i as int) =~= ov);
    }
    let same = same_terms(&sum, poly);
    proof {
        if origin_identity(origin@, input@, poly@, pi) {
            assert forall|m: Seq<u16>| #[trigger] coeff_at(sum@, m) == coeff_at(poly@, m) by {}
            lemma_canonical_unique(sum@, poly@, pi, nv);
        }
    }
    same
}

} // verus!
