//! Polynomials over a prime field, with terms ascending under grevlex.

use vstd::arithmetic::div_mod::*;
use vstd::prelude::*;

use crate::field::{Felt, MODULUS_LIMIT, is_prime, is_prime_u64, lemma_product_nonzero, valid_modulus};
use crate::monomial::{
    Monomial,
    grevlex_less,
    lemma_grevlex_irreflexive,
    lemma_grevlex_transitive,
    mono_mul,
    product_fits,
};

verus! {

/// One term as a value: the coefficient and the exponent vector.
pub type TermView = (int, Seq<u16>);

/// What one term contributes to the coefficient of `m`.
pub open spec fn term_value(t: TermView, m: Seq<u16>) -> int {
    if t.1 == m {
        t.0
    } else {
        0
    }
}

/// The coefficient of `m` in a list of terms: the sum of the coefficients
/// of every term whose exponent vector is `m`.
pub open spec fn coeff_at(s: Seq<TermView>, m: Seq<u16>) -> int
    decreases s.len(),
{
    if s.len() == 0 {
        0
    } else {
        coeff_at(s.drop_last(), m) + term_value(s.last(), m)
    }
}

/// The exponent vectors strictly ascend under grevlex.
pub open spec fn sorted_terms(s: Seq<TermView>) -> bool {
    forall|i: int, j: int| 0 <= i < j < s.len() ==> grevlex_less(#[trigger] s[i].1, #[trigger] s[j].1)
}

/// Every coefficient is a nonzero residue and every exponent vector holds
/// one exponent per variable.
pub open spec fn terms_in_ring(s: Seq<TermView>, p: int, nvars: nat) -> bool {
    forall|i: int| 0 <= i < s.len() ==> 0 < #[trigger] s[i].0 < p && s[i].1.len() == nvars
}

/// The canonical form of a polynomial.
pub open spec fn terms_wf(s: Seq<TermView>, p: int, nvars: nat) -> bool {
    terms_in_ring(s, p, nvars) && sorted_terms(s)
}

/// `x`, negated when `negate` holds.
pub open spec fn signed_coeff(x: int, negate: bool) -> int {
    if negate {
        -x
    } else {
        x
    }
}

/// `r` is `a + b`, or `a - b` when `negate` holds, modulo `p`, monomial by
/// monomial.
pub open spec fn is_combination(
    r: Seq<TermView>,
    a: Seq<TermView>,
    b: Seq<TermView>,
    negate: bool,
    p: int,
) -> bool {
    forall|m: Seq<u16>|
        #[trigger] coeff_at(r, m) == (coeff_at(a, m) + signed_coeff(coeff_at(b, m), negate)) % p
}

/// `r` holds the same polynomial as `a` modulo `p`.
pub open spec fn same_poly(r: Seq<TermView>, a: Seq<TermView>, p: int) -> bool {
    forall|m: Seq<u16>| #[trigger] coeff_at(r, m) % p == coeff_at(a, m) % p
}

/// The coefficient of `-c` modulo `p`.
pub open spec fn neg_coeff(c: int, p: int) -> int {
    if c == 0 {
        0
    } else {
        p - c
    }
}

/// The view of a term with its coefficient negated when `negate` holds.
pub open spec fn signed_view(t: TermView, negate: bool, p: int) -> TermView {
    if negate {
        (neg_coeff(t.0, p), t.1)
    } else {
        t
    }
}

/// Every term of `s`, its coefficient negated when `negate` holds.
pub open spec fn signed_list(s: Seq<TermView>, negate: bool, p: int) -> Seq<TermView> {
    s.map_values(|t: TermView| signed_view(t, negate, p))
}

/// Every term of `b` multiplied by the term `t`.
pub open spec fn scale_by_term(b: Seq<TermView>, t: TermView, p: int) -> Seq<TermView> {
    b.map_values(|u: TermView| ((t.0 * u.0) % p, mono_mul(t.1, u.1)))
}

/// Every product of a term of `a` and a term of `b`, row by row.
pub open spec fn mul_views(a: Seq<TermView>, b: Seq<TermView>, p: int) -> Seq<TermView>
    decreases a.len(),
{
    if a.len() == 0 {
        Seq::empty()
    } else {
        mul_views(a.drop_last(), b, p) + scale_by_term(b, a.last(), p)
    }
}

/// `r` is the product of `a` and `b` modulo `p`, monomial by monomial.
pub open spec fn is_product(r: Seq<TermView>, a: Seq<TermView>, b: Seq<TermView>, p: int) -> bool {
    forall|m: Seq<u16>| #[trigger] coeff_at(r, m) == coeff_at(mul_views(a, b, p), m) % p
}

/// Every product of an exponent vector of `a` with one of `b` fits the
/// exponent width.
pub open spec fn products_fit(a: Seq<TermView>, b: Seq<TermView>) -> bool {
    forall|i: int, j: int|
        0 <= i < a.len() && 0 <= j < b.len() ==> product_fits(#[trigger] a[i].1, #[trigger] b[j].1)
}

/// Every term of `s`, its coefficient multiplied by `c` modulo `p`.
pub open spec fn scaled_list(s: Seq<TermView>, c: int, p: int) -> Seq<TermView> {
    s.map_values(|t: TermView| ((t.0 * c) % p, t.1))
}

/// Scaling every coefficient scales the polynomial modulo `p`.
pub proof fn lemma_coeff_at_scaled(s: Seq<TermView>, c: int, p: int, m: Seq<u16>)
    requires
        p > 0,
    ensures
        coeff_at(scaled_list(s, c, p), m) % p == (coeff_at(s, m) * c) % p,
    decreases s.len(),
{
    if s.len() > 0 {
        let front = s.drop_last();
        assert(scaled_list(s, c, p).drop_last() =~= scaled_list(front, c, p));
        lemma_coeff_at_scaled(front, c, p, m);
        let x = coeff_at(scaled_list(front, c, p), m);
        let y = term_value(((s.last().0 * c) % p, s.last().1), m);
        let xs = coeff_at(front, m) * c;
        let ys = term_value(s.last(), m) * c;
        assert(y % p == ys % p) by {
            if s.last().1 == m {
                lemma_mod_twice(s.last().0 * c, p);
            } else {
                lemma_small_mod(0, p as nat);
            }
        }
        lemma_add_mod_noop(x, y, p);
        lemma_add_mod_noop(xs, ys, p);
        let cf = coeff_at(front, m);
        let tl = term_value(s.last(), m);
        assert(xs + ys == (cf + tl) * c) by (nonlinear_arith)
            requires
                xs == cf * c,
                ys == tl * c,
        ;
    } else {
        lemma_small_mod(0, p as nat);
    }
}

/// Scaling a canonical list by a nonzero residue keeps it canonical.
pub proof fn lemma_scaled_wf(s: Seq<TermView>, c: int, p: int, nvars: nat)
    requires
        terms_wf(s, p, nvars),
        is_prime(p as nat),
        0 < c < p,
    ensures
        terms_wf(scaled_list(s, c, p), p, nvars),
{
    let z = scaled_list(s, c, p);
    assert forall|k: int| 0 <= k < z.len() implies 0 < #[trigger] z[k].0 < p && z[k].1.len()
        == nvars by {
        assert(0 < s[k].0 < p);
        lemma_product_nonzero(s[k].0, c, p);
        lemma_mod_bound(s[k].0 * c, p);
    }
    assert forall|i: int, j: int| 0 <= i < j < z.len() implies grevlex_less(
        #[trigger] z[i].1,
        #[trigger] z[j].1,
    ) by {
        assert(z[i].1 == s[i].1 && z[j].1 == s[j].1);
    }
}

/// Negating every coefficient negates the polynomial modulo `p`.
pub proof fn lemma_coeff_at_signed(s: Seq<TermView>, negate: bool, p: int, m: Seq<u16>)
    requires
        p > 0,
    ensures
        coeff_at(signed_list(s, negate, p), m) % p == signed_coeff(
            coeff_at(s, m),
            negate,
        ) % p,
    decreases s.len(),
{
    let f = |t: TermView| signed_view(t, negate, p);
    if s.len() > 0 {
        let front = s.drop_last();
        assert(signed_list(s, negate, p).drop_last() =~= signed_list(front, negate, p));
        lemma_coeff_at_signed(front, negate, p, m);
        let x = coeff_at(signed_list(front, negate, p), m);
        let y = term_value(signed_view(s.last(), negate, p), m);
        let xs = signed_coeff(coeff_at(front, m), negate);
        let ys = signed_coeff(term_value(s.last(), m), negate);
        assert(y % p == ys % p) by {
            if negate && s.last().1 == m && s.last().0 != 0 {
                lemma_mod_shift(ys, p, p);
                lemma_mod_self_0(p);
            }
        }
        lemma_add_mod_noop(x, y, p);
        lemma_add_mod_noop(xs, ys, p);
    }
}

pub proof fn lemma_mod_shift(x: int, d: int, p: int)
    requires
        p > 0,
        d % p == 0,
    ensures
        (x + d) % p == x % p,
{
    lemma_fundamental_div_mod(d, p);
    lemma_mod_multiples_vanish(d / p, x, p);
}

pub proof fn lemma_coeff_at_concat(a: Seq<TermView>, b: Seq<TermView>, m: Seq<u16>)
    ensures
        coeff_at(a + b, m) == coeff_at(a, m) + coeff_at(b, m),
    decreases b.len(),
{
    if b.len() == 0 {
        assert(a + b =~= a);
    } else {
        assert((a + b).drop_last() =~= a + b.drop_last());
        lemma_coeff_at_concat(a, b.drop_last(), m);
    }
}

pub proof fn lemma_coeff_at_push(s: Seq<TermView>, t: TermView, m: Seq<u16>)
    ensures
        coeff_at(s.push(t), m) == coeff_at(s, m) + term_value(t, m),
{
    assert(s.push(t).drop_last() =~= s);
}

/// The coefficient of a suffix splits off its first term.
pub proof fn lemma_coeff_at_suffix(s: Seq<TermView>, i: int, m: Seq<u16>)
    requires
        0 <= i < s.len(),
    ensures
        coeff_at(s.subrange(i, s.len() as int), m) == term_value(s[i], m) + coeff_at(
            s.subrange(i + 1, s.len() as int),
            m,
        ),
{
    let rest = s.subrange(i + 1, s.len() as int);
    assert(s.subrange(i, s.len() as int) =~= seq![s[i]] + rest);
    lemma_coeff_at_concat(seq![s[i]], rest, m);
    assert(seq![s[i]].drop_last() =~= Seq::<TermView>::empty());
    assert(coeff_at(Seq::<TermView>::empty(), m) == 0);
    assert(coeff_at(seq![s[i]], m) == term_value(s[i], m));
}

pub proof fn lemma_coeff_at_empty_suffix(s: Seq<TermView>, m: Seq<u16>)
    ensures
        coeff_at(s.subrange(s.len() as int, s.len() as int), m) == 0,
{
    assert(s.subrange(s.len() as int, s.len() as int) =~= Seq::<TermView>::empty());
}

pub proof fn lemma_coeff_at_full(s: Seq<TermView>, m: Seq<u16>)
    ensures
        coeff_at(s.subrange(0, s.len() as int), m) == coeff_at(s, m),
{
    assert(s.subrange(0, s.len() as int) =~= s);
}

/// In a sorted list the coefficient of a monomial is the coefficient of
/// the one term that carries it, or zero.
pub proof fn lemma_coeff_at_sorted(s: Seq<TermView>, m: Seq<u16>)
    requires
        sorted_terms(s),
    ensures
        forall|k: int| 0 <= k < s.len() && s[k].1 == m ==> coeff_at(s, m) == #[trigger] s[k].0,
        (forall|k: int| 0 <= k < s.len() ==> #[trigger] s[k].1 != m) ==> coeff_at(s, m) == 0,
    decreases s.len(),
{
    if s.len() > 0 {
        let front = s.drop_last();
        assert(sorted_terms(front)) by {
            assert forall|i: int, j: int| 0 <= i < j < front.len() implies grevlex_less(
                #[trigger] front[i].1,
                #[trigger] front[j].1,
            ) by {
                assert(front[i] == s[i] && front[j] == s[j]);
            }
        }
        lemma_coeff_at_sorted(front, m);
        let n = s.len() - 1;
        if s.last().1 == m {
            assert forall|k: int| 0 <= k < front.len() implies #[trigger] front[k].1 != m by {
                assert(front[k] == s[k]);
                assert(grevlex_less(s[k].1, s[n].1));
                lemma_grevlex_irreflexive(m);
            }
            assert forall|k: int| 0 <= k < s.len() && s[k].1 == m implies coeff_at(s, m)
                == #[trigger] s[k].0 by {
                if k < n {
                    assert(grevlex_less(s[k].1, s[n].1));
                    lemma_grevlex_irreflexive(m);
                }
            }
        } else {
            assert forall|k: int| 0 <= k < s.len() && s[k].1 == m implies coeff_at(s, m)
                == #[trigger] s[k].0 by {
                assert(front[k] == s[k]);
            }
            if forall|k: int| 0 <= k < s.len() ==> #[trigger] s[k].1 != m {
                assert forall|k: int| 0 <= k < front.len() implies #[trigger] front[k].1 != m by {
                    assert(front[k] == s[k]);
                }
            }
        }
    }
}

/// A canonical list holds every coefficient as a residue.
pub proof fn lemma_coeff_at_range(s: Seq<TermView>, p: int, nvars: nat, m: Seq<u16>)
    requires
        terms_wf(s, p, nvars),
        p > 0,
    ensures
        0 <= coeff_at(s, m) < p,
        coeff_at(s, m) % p == coeff_at(s, m),
{
    lemma_coeff_at_sorted(s, m);
    if exists|k: int| 0 <= k < s.len() && s[k].1 == m {
        let k = choose|k: int| 0 <= k < s.len() && s[k].1 == m;
        assert(coeff_at(s, m) == s[k].0);
        assert(0 < s[k].0 < p);
    } else {
        assert forall|k: int| 0 <= k < s.len() implies #[trigger] s[k].1 != m by {}
        assert(coeff_at(s, m) == 0);
    }
    lemma_small_mod(coeff_at(s, m) as nat, p as nat);
}

/// Every exponent vector of a list in the ring has the ring's width.
pub proof fn lemma_widths(s: Seq<TermView>, p: int, nvars: nat)
    requires
        terms_in_ring(s, p, nvars),
    ensures
        forall|k: int| 0 <= k < s.len() ==> (#[trigger] s[k]).1.len() == nvars,
{
    assert forall|k: int| 0 <= k < s.len() implies (#[trigger] s[k]).1.len() == nvars by {
        assert(0 < s[k].0 < p);
    }
}

/// Two sorted lists whose boundary ascends make one sorted list.
pub proof fn lemma_sorted_concat(x: Seq<TermView>, y: Seq<TermView>, nvars: nat)
    requires
        sorted_terms(x),
        sorted_terms(y),
        forall|i: int| 0 <= i < x.len() ==> (#[trigger] x[i]).1.len() == nvars,
        forall|i: int| 0 <= i < y.len() ==> (#[trigger] y[i]).1.len() == nvars,
        x.len() > 0 && y.len() > 0 ==> grevlex_less(x.last().1, y[0].1),
    ensures
        sorted_terms(x + y),
{
    let z = x + y;
    assert forall|i: int, j: int| 0 <= i < j < z.len() implies grevlex_less(
        #[trigger] z[i].1,
        #[trigger] z[j].1,
    ) by {
        if j < x.len() {
        } else if i >= x.len() {
            assert(z[i] == y[i - x.len()] && z[j] == y[j - x.len()]);
        } else {
            let xl = x.len() - 1;
            assert(z[i] == x[i]);
            assert(z[j] == y[j - x.len()]);
            if i < xl {
                assert(grevlex_less(x[i].1, x[xl].1));
                if j - x.len() > 0 {
                    assert(grevlex_less(y[0].1, y[j - x.len()].1));
                    lemma_grevlex_transitive(x[i].1, x[xl].1, y[0].1);
                    lemma_grevlex_transitive(x[i].1, y[0].1, y[j - x.len()].1);
                } else {
                    lemma_grevlex_transitive(x[i].1, x[xl].1, y[0].1);
                }
            } else if j - x.len() > 0 {
                assert(grevlex_less(y[0].1, y[j - x.len()].1));
                lemma_grevlex_transitive(x[xl].1, y[0].1, y[j - x.len()].1);
            }
        }
    }
}

/// A suffix of a canonical list is canonical.
pub proof fn lemma_wf_subrange(s: Seq<TermView>, p: int, nvars: nat, lo: int, hi: int)
    requires
        terms_wf(s, p, nvars),
        0 <= lo <= hi <= s.len(),
    ensures
        terms_wf(s.subrange(lo, hi), p, nvars),
{
    let t = s.subrange(lo, hi);
    assert forall|i: int| 0 <= i < t.len() implies 0 < #[trigger] t[i].0 < p && t[i].1.len()
        == nvars by {
        assert(t[i] == s[lo + i]);
    }
    assert forall|i: int, j: int| 0 <= i < j < t.len() implies grevlex_less(
        #[trigger] t[i].1,
        #[trigger] t[j].1,
    ) by {
        assert(t[i] == s[lo + i] && t[j] == s[lo + j]);
    }
}

/// Two canonical lists with the same coefficient at every monomial are
/// the same list: a polynomial has one canonical form.
pub proof fn lemma_canonical_unique(x: Seq<TermView>, y: Seq<TermView>, p: int, nvars: nat)
    requires
        terms_wf(x, p, nvars),
        terms_wf(y, p, nvars),
        forall|m: Seq<u16>| #[trigger] coeff_at(x, m) == coeff_at(y, m),
    ensures
        x == y,
    decreases x.len() + y.len(),
{
    if x.len() == 0 && y.len() == 0 {
        assert(x =~= y);
    } else if x.len() == 0 {
        let my = y.last().1;
        lemma_coeff_at_sorted(y, my);
        assert(y.last() == y[y.len() - 1]);
        assert(coeff_at(y, my) == y[y.len() - 1].0);
        assert(coeff_at(x, my) == 0);
    } else if y.len() == 0 {
        let mx = x.last().1;
        lemma_coeff_at_sorted(x, mx);
        assert(x.last() == x[x.len() - 1]);
        assert(coeff_at(x, mx) == x[x.len() - 1].0);
        assert(coeff_at(y, mx) == 0);
    } else {
        let nx = x.len() - 1;
        let ny = y.len() - 1;
        let mx = x[nx].1;
        let my = y[ny].1;
        lemma_coeff_at_sorted(x, mx);
        lemma_coeff_at_sorted(y, mx);
        lemma_coeff_at_sorted(x, my);
        lemma_coeff_at_sorted(y, my);
        assert(coeff_at(x, mx) == x[nx].0);
        assert(coeff_at(y, my) == y[ny].0);
        if mx != my {
            assert(exists|k: int| 0 <= k < y.len() && y[k].1 == mx);
            let k = choose|k: int| 0 <= k < y.len() && y[k].1 == mx;
            assert(exists|l: int| 0 <= l < x.len() && x[l].1 == my);
            let l = choose|l: int| 0 <= l < x.len() && x[l].1 == my;
            assert(k != ny);
            assert(l != nx);
            assert(grevlex_less(y[k].1, y[ny].1));
            assert(grevlex_less(x[l].1, x[nx].1));
            crate::monomial::lemma_grevlex_asymmetric(mx, my);
        }
        assert(x[nx] == y[ny]);
        let fx = x.drop_last();
        let fy = y.drop_last();
        assert(fx =~= x.subrange(0, nx as int));
        assert(fy =~= y.subrange(0, ny as int));
        lemma_wf_subrange(x, p, nvars, 0, nx as int);
        lemma_wf_subrange(y, p, nvars, 0, ny as int);
        assert forall|m: Seq<u16>| #[trigger] coeff_at(fx, m) == coeff_at(fy, m) by {
            assert(coeff_at(x, m) == coeff_at(fx, m) + term_value(x.last(), m));
            assert(coeff_at(y, m) == coeff_at(fy, m) + term_value(y.last(), m));
        }
        lemma_canonical_unique(fx, fy, p, nvars);
        assert(x =~= fx.push(x[nx]));
        assert(y =~= fy.push(y[ny]));
    }
}

/// Addition commutes: the canonical forms of `a + b` and `b + a` are one
/// list.
pub proof fn lemma_add_commutes(
    a: Seq<TermView>,
    b: Seq<TermView>,
    ab: Seq<TermView>,
    ba: Seq<TermView>,
    p: int,
    nvars: nat,
)
    requires
        terms_wf(ab, p, nvars),
        terms_wf(ba, p, nvars),
        is_combination(ab, a, b, false, p),
        is_combination(ba, b, a, false, p),
    ensures
        ab == ba,
{
    assert forall|m: Seq<u16>| #[trigger] coeff_at(ab, m) == coeff_at(ba, m) by {
        assert(coeff_at(ab, m) == (coeff_at(a, m) + coeff_at(b, m)) % p);
        assert(coeff_at(ba, m) == (coeff_at(b, m) + coeff_at(a, m)) % p);
    }
    lemma_canonical_unique(ab, ba, p, nvars);
}

/// Subtracting `b` and adding it back gives a canonical `a` back.
pub proof fn lemma_sub_add(
    a: Seq<TermView>,
    b: Seq<TermView>,
    d: Seq<TermView>,
    s: Seq<TermView>,
    p: int,
    nvars: nat,
)
    requires
        p > 0,
        terms_wf(a, p, nvars),
        terms_wf(s, p, nvars),
        is_combination(d, a, b, true, p),
        is_combination(s, d, b, false, p),
    ensures
        s == a,
{
    assert forall|m: Seq<u16>| #[trigger] coeff_at(s, m) == coeff_at(a, m) by {
        let ca = coeff_at(a, m);
        let cb = coeff_at(b, m);
        assert(coeff_at(d, m) == (ca - cb) % p);
        assert(coeff_at(s, m) == (coeff_at(d, m) + cb) % p);
        lemma_add_mod_noop(ca - cb, cb, p);
        lemma_mod_twice(ca - cb, p);
        lemma_mod_twice(cb, p);
        lemma_add_mod_noop((ca - cb) % p, cb, p);
        assert((ca - cb) + cb == ca);
        lemma_coeff_at_range(a, p, nvars, m);
    }
    lemma_canonical_unique(s, a, p, nvars);
}

/// Negating twice gives a canonical `a` back.
pub proof fn lemma_neg_neg(a: Seq<TermView>, n: Seq<TermView>, nn: Seq<TermView>, p: int, nvars: nat)
    requires
        p > 0,
        terms_wf(a, p, nvars),
        terms_wf(nn, p, nvars),
        forall|m: Seq<u16>| #[trigger] coeff_at(n, m) == (-coeff_at(a, m)) % p,
        forall|m: Seq<u16>| #[trigger] coeff_at(nn, m) == (-coeff_at(n, m)) % p,
    ensures
        nn == a,
{
    assert forall|m: Seq<u16>| #[trigger] coeff_at(nn, m) == coeff_at(a, m) by {
        let ca = coeff_at(a, m);
        lemma_coeff_at_range(a, p, nvars, m);
        lemma_sub_mod_noop(0, ca, p);
        lemma_sub_mod_noop(0, (-ca) % p, p);
        lemma_mod_twice(-ca, p);
        lemma_sub_mod_noop(0, -ca, p);
        assert(0 - (-ca) == ca);
        assert(0 - ca == -ca);
        assert(0 - (-ca) % p == -((-ca) % p));
        lemma_small_mod(0, p as nat);
    }
    lemma_canonical_unique(nn, a, p, nvars);
}

/// A polynomial plus its negation is the zero polynomial.
pub proof fn lemma_add_neg(a: Seq<TermView>, n: Seq<TermView>, s: Seq<TermView>, p: int, nvars: nat)
    requires
        p > 0,
        terms_wf(s, p, nvars),
        forall|m: Seq<u16>| #[trigger] coeff_at(n, m) == (-coeff_at(a, m)) % p,
        is_combination(s, a, n, false, p),
    ensures
        s.len() == 0,
{
    let z = Seq::<TermView>::empty();
    assert forall|m: Seq<u16>| #[trigger] coeff_at(s, m) == coeff_at(z, m) by {
        let ca = coeff_at(a, m);
        lemma_add_mod_noop(ca, -ca, p);
        lemma_mod_twice(-ca, p);
        lemma_add_mod_noop(ca, (-ca) % p, p);
        assert(ca + (-ca) == 0);
        lemma_small_mod(0, p as nat);
    }
    lemma_canonical_unique(s, z, p, nvars);
}

/// Why a ring or a polynomial cannot be built.
#[derive(Clone, Copy, Debug, PartialEq, Eq, Structural)]
pub enum RingError {
    /// The modulus is not a prime in `2 ..= 2^31 - 1`.
    InvalidModulus {
        /// The modulus that was asked for.
        modulus: u64,
    },
    /// An exponent vector does not hold one exponent per variable.
    ExponentCount {
        /// The width the vector holds.
        found: usize,
        /// The number of variables in the ring.
        expected: usize,
    },
}

/// A polynomial ring over `F_p`: the modulus and the number of variables.
/// The monomial order is grevlex over the variable order.
#[derive(Clone, Copy, Debug, PartialEq, Eq, Structural)]
pub struct PolynomialRing {
    pub modulus: u64,
    pub nvars: usize,
}

/// One coefficient and one monomial.
#[derive(Clone, Debug, PartialEq, Eq)]
pub struct Term {
    pub coeff: Felt,
    pub mono: Monomial,
}

impl View for Term {
    type V = TermView;

    open spec fn view(&self) -> TermView {
        (self.coeff.value as int, self.mono@)
    }
}

impl Term {
    /// A copy with the same coefficient and exponents.
    pub fn copy(&self) -> (t: Term)
        ensures
            t@ == self@,
    {
        Term { coeff: self.coeff, mono: self.mono.copy() }
    }
}

/// The views of a list of terms.
pub open spec fn views(s: Seq<Term>) -> Seq<TermView> {
    s.map_values(|t: Term| t@)
}

/// A polynomial of one ring, its terms strictly ascending under grevlex.
#[derive(Clone, Debug, PartialEq, Eq)]
pub struct Polynomial {
    pub ring: PolynomialRing,
    pub terms: Vec<Term>,
}

impl View for Polynomial {
    type V = Seq<TermView>;

    open spec fn view(&self) -> Seq<TermView> {
        views(self.terms@)
    }
}

impl PolynomialRing {
    /// The modulus is a prime below 2^31.
    pub open spec fn wf(&self) -> bool {
        valid_modulus(self.modulus)
    }

    /// The ring `F_p[x_1, ..., x_n]` with one variable per name.
    pub fn prime_field(modulus: u64, names: &[&str]) -> (r: Result<PolynomialRing, RingError>)
        ensures
            r is Ok <==> valid_modulus(modulus),
            r matches Ok(ring) ==> ring.modulus == modulus && ring.nvars == names@.len(),
            r matches Err(e) ==> e == (RingError::InvalidModulus { modulus }),
    {
        if modulus < 2 || modulus >= MODULUS_LIMIT || !is_prime_u64(modulus) {
            return Err(RingError::InvalidModulus { modulus });
        }
        Ok(PolynomialRing { modulus, nvars: names.len() })
    }

    /// The modulus.
    pub fn modulus(&self) -> (p: u64)
        ensures
            p == self.modulus,
    {
        self.modulus
    }

    /// The number of variables.
    pub fn nvars(&self) -> (n: usize)
        ensures
            n == self.nvars,
    {
        self.nvars
    }

    /// The zero polynomial.
    pub fn zero(&self) -> (z: Polynomial)
        requires
            self.wf(),
        ensures
            z.wf(),
            z.ring == *self,
            z@.len() == 0,
    {
        Polynomial { ring: *self, terms: Vec::new() }
    }

    /// The constant polynomial one.
    pub fn one(&self) -> (o: Polynomial)
        requires
            self.wf(),
        ensures
            o.wf(),
            o.ring == *self,
            o@ == seq![(1int, Seq::new(self.nvars as nat, |k: int| 0u16))],
    {
        let mono = Monomial::one(self.nvars);
        let mut terms: Vec<Term> = Vec::new();
        terms.push(Term { coeff: Felt::one(), mono });
        let o = Polynomial { ring: *self, terms };
        assert(o@ =~= seq![(1int, Seq::new(self.nvars as nat, |k: int| 0u16))]);
        o
    }
}

impl Polynomial {
    /// The polynomial is in canonical form over a valid ring.
    pub open spec fn wf(&self) -> bool {
        self.ring.wf() && terms_wf(self@, self.ring.modulus as int, self.ring.nvars as nat)
    }

    /// The coefficient of `m`.
    pub open spec fn coeff(&self, m: Seq<u16>) -> int {
        coeff_at(self@, m)
    }

    /// The ring this polynomial belongs to.
    pub fn ring(&self) -> (r: &PolynomialRing)
        ensures
            *r == self.ring,
    {
        &self.ring
    }

    /// The zero polynomial of this ring.
    pub fn zero_like(&self) -> (z: Polynomial)
        requires
            self.ring.wf(),
        ensures
            z.wf(),
            z.ring == self.ring,
            z@.len() == 0,
    {
        self.ring.zero()
    }

    /// Report whether this is the zero polynomial.
    pub fn is_zero(&self) -> (b: bool)
        ensures
            b == (self@.len() == 0),
    {
        self.terms.len() == 0
    }

    /// The number of terms.
    pub fn len(&self) -> (n: usize)
        ensures
            n == self@.len(),
    {
        self.terms.len()
    }

    /// The leading term, the largest under grevlex.
    pub fn lt(&self) -> (t: Option<&Term>)
        ensures
            self@.len() == 0 ==> t is None,
            self@.len() > 0 ==> (t matches Some(t) && t@ == self@.last()),
    {
        if self.terms.len() == 0 {
            None
        } else {
            Some(&self.terms[self.terms.len() - 1])
        }
    }

    /// The leading monomial.
    pub fn lm(&self) -> (m: Option<&Monomial>)
        ensures
            self@.len() == 0 ==> m is None,
            self@.len() > 0 ==> (m matches Some(m) && m@ == self@.last().1),
    {
        match self.lt() {
            Some(t) => Some(&t.mono),
            None => None,
        }
    }

    /// The leading coefficient.
    pub fn lc(&self) -> (c: Option<Felt>)
        ensures
            self@.len() == 0 ==> c is None,
            self@.len() > 0 ==> (c matches Some(c) && c.value == self@.last().0),
    {
        match self.lt() {
            Some(t) => Some(t.coeff),
            None => None,
        }
    }

    /// A copy of this polynomial.
    pub fn copy(&self) -> (q: Polynomial)
        ensures
            q.ring == self.ring,
            q@ == self@,
    {
        let mut terms: Vec<Term> = Vec::new();
        let mut i: usize = 0;
        while i < self.terms.len()
            invariant
                i <= self.terms.len(),
                views(terms@) == views(self.terms@).take(i as int),
            decreases self.terms.len() - i,
        {
            let t = self.terms[i].copy();
            let ghost before = terms@;
            terms.push(t);
            proof {
                assert(terms@ == before.push(t));
                assert(views(terms@) =~= views(before).push(t@));
                assert(views(terms@) =~= views(self.terms@).take(i as int + 1));
            }
            i += 1;
        }
        proof {
            assert(views(self.terms@).take(i as int) =~= views(self.terms@));
        }
        Polynomial { ring: self.ring, terms }
    }
}

} // verus!
