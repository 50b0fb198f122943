//! Laws of the product of term lists, read through their coefficients
//! modulo `p`: the product respects equal coefficients in either factor,
//! it is associative, and the constant one is its identity. Powers build
//! on these.

use vstd::arithmetic::div_mod::*;
use vstd::prelude::*;

use crate::arithmetic::one_view;
use crate::monomial::mono_mul;
use crate::poly::{TermView, coeff_at, lemma_canonical_unique, lemma_coeff_at_range, terms_wf, lemma_coeff_at_concat, lemma_coeff_at_scaled, mul_views, scale_by_term, scaled_list, term_value};

verus! {

/// The two lists have the same coefficient at every monomial, modulo `p`.
pub open spec fn same_mod(x: Seq<TermView>, y: Seq<TermView>, p: int) -> bool {
    forall|m: Seq<u16>| #[trigger] coeff_at(x, m) % p == coeff_at(y, m) % p
}

/// Every coefficient of the list is zero modulo `p`.
pub open spec fn zero_mod(z: Seq<TermView>, p: int) -> bool {
    forall|m: Seq<u16>| #[trigger] coeff_at(z, m) % p == 0
}

/// The terms of `z` with exponent vector `u`, in order.
pub open spec fn with_mono(z: Seq<TermView>, u: Seq<u16>) -> Seq<TermView>
    decreases z.len(),
{
    if z.len() == 0 {
        z
    } else if z.last().1 == u {
        with_mono(z.drop_last(), u).push(z.last())
    } else {
        with_mono(z.drop_last(), u)
    }
}

/// The terms of `z` with an exponent vector other than `u`, in order.
pub open spec fn without_mono(z: Seq<TermView>, u: Seq<u16>) -> Seq<TermView>
    decreases z.len(),
{
    if z.len() == 0 {
        z
    } else if z.last().1 == u {
        without_mono(z.drop_last(), u)
    } else {
        without_mono(z.drop_last(), u).push(z.last())
    }
}

/// Two lists that agree term by term, coefficients modulo `p`, agree at
/// every monomial modulo `p`.
proof fn lemma_pointwise(x: Seq<TermView>, y: Seq<TermView>, p: int, m: Seq<u16>)
    requires
        p > 0,
        x.len() == y.len(),
        forall|i: int| 0 <= i < x.len() ==> (#[trigger] x[i]).1 == y[i].1 && x[i].0 % p == y[i].0 % p,
    ensures
        coeff_at(x, m) % p == coeff_at(y, m) % p,
    decreases x.len(),
{
    if x.len() > 0 {
        lemma_pointwise(x.drop_last(), y.drop_last(), p, m);
        let a = coeff_at(x.drop_last(), m);
        let b = coeff_at(y.drop_last(), m);
        let s = term_value(x.last(), m);
        let t = term_value(y.last(), m);
        assert(x.last() == x[x.len() - 1]);
        assert(s % p == t % p);
        lemma_add_mod_noop(a, s, p);
        lemma_add_mod_noop(b, t, p);
    }
}

/// The product adds over a split of its first factor.
pub proof fn lemma_mul_concat(x: Seq<TermView>, y: Seq<TermView>, c: Seq<TermView>, p: int)
    ensures
        mul_views(x + y, c, p) == mul_views(x, c, p) + mul_views(y, c, p),
    decreases y.len(),
{
    if y.len() == 0 {
        assert(x + y =~= x);
        assert(mul_views(x, c, p) + mul_views(y, c, p) =~= mul_views(x, c, p));
    } else {
        assert((x + y).drop_last() =~= x + y.drop_last());
        assert((x + y).last() == y.last());
        lemma_mul_concat(x, y.drop_last(), c, p);
        assert(mul_views(x + y, c, p) =~= mul_views(x, c, p) + mul_views(y, c, p));
    }
}

/// The product of a list with one more term.
proof fn lemma_mul_push(x: Seq<TermView>, t: TermView, c: Seq<TermView>, p: int)
    ensures
        mul_views(x.push(t), c, p) == mul_views(x, c, p) + scale_by_term(c, t, p),
{
    assert(x.push(t).drop_last() =~= x);
}

/// Shifting by a term scales the shift by its unit term.
proof fn lemma_scale_term(c: Seq<TermView>, a: int, u: Seq<u16>, p: int, m: Seq<u16>)
    requires
        p > 0,
    ensures
        coeff_at(scale_by_term(c, (a, u), p), m) % p == (coeff_at(scale_by_term(c, (1int, u), p), m) * a) % p,
{
    let x = scale_by_term(c, (a, u), p);
    let y = scaled_list(scale_by_term(c, (1int, u), p), a, p);
    assert forall|i: int| 0 <= i < x.len() implies (#[trigger] x[i]).1 == y[i].1 && x[i].0 % p == y[i].0 % p by {
        let v = c[i].0;
        assert(x[i].0 == (a * v) % p);
        assert(y[i].0 == (((1 * v) % p) * a) % p);
        lemma_mul_mod_noop_left(v, a, p);
        lemma_mod_twice(a * v, p);
        lemma_mod_twice(((v % p) * a) % p, p);
        assert(a * v == v * a) by (nonlinear_arith);
        assert(1 * v == v);
    }
    lemma_pointwise(x, y, p, m);
    lemma_coeff_at_scaled(scale_by_term(c, (1int, u), p), a, p, m);
}

/// The product of terms that all share one exponent vector `u` is the
/// shift by `u` times their summed coefficient.
proof fn lemma_mul_one_mono(w: Seq<TermView>, u: Seq<u16>, c: Seq<TermView>, p: int, m: Seq<u16>)
    requires
        p > 0,
        forall|i: int| 0 <= i < w.len() ==> (#[trigger] w[i]).1 == u,
    ensures
        coeff_at(mul_views(w, c, p), m) % p == (coeff_at(scale_by_term(c, (1int, u), p), m) * coeff_at(w, u)) % p,
    decreases w.len(),
{
    let k = coeff_at(scale_by_term(c, (1int, u), p), m);
    if w.len() == 0 {
        assert(k * 0 == 0) by (nonlinear_arith);
    } else {
        let front = w.drop_last();
        let t = w.last();
        assert(t == w[w.len() - 1]);
        assert(forall|i: int| 0 <= i < front.len() ==> (#[trigger] front[i]).1 == u) by {
            assert(forall|i: int| 0 <= i < front.len() ==> front[i] == w[i]);
        }
        lemma_mul_one_mono(front, u, c, p, m);
        lemma_coeff_at_concat(mul_views(front, c, p), scale_by_term(c, t, p), m);
        lemma_scale_term(c, t.0, u, p, m);
        let a = coeff_at(mul_views(front, c, p), m);
        let b = coeff_at(scale_by_term(c, t, p), m);
        let cf = coeff_at(front, u);
        lemma_add_mod_noop(a, b, p);
        lemma_add_mod_noop(k * cf, k * t.0, p);
        assert(k * cf + k * t.0 == k * (cf + t.0)) by (nonlinear_arith);
        assert(coeff_at(w, u) == cf + t.0);
    }
}

/// The product splits over the terms with one exponent vector and the rest.
proof fn lemma_mul_split(z: Seq<TermView>, u: Seq<u16>, c: Seq<TermView>, p: int, m: Seq<u16>)
    ensures
        coeff_at(mul_views(z, c, p), m) == coeff_at(mul_views(with_mono(z, u), c, p), m) + coeff_at(
            mul_views(without_mono(z, u), c, p),
            m,
        ),
        forall|i: int| 0 <= i < with_mono(z, u).len() ==> (#[trigger] with_mono(z, u)[i]).1 == u,
        coeff_at(with_mono(z, u), u) == coeff_at(z, u),
        forall|n: Seq<u16>| n != u ==> #[trigger] coeff_at(without_mono(z, u), n) == coeff_at(z, n),
        coeff_at(without_mono(z, u), u) == 0,
        without_mono(z, u).len() <= z.len(),
    decreases z.len(),
{
    if z.len() > 0 {
        let front = z.drop_last();
        let t = z.last();
        lemma_mul_split(front, u, c, p, m);
        lemma_mul_push(front, t, c, p);
        lemma_coeff_at_concat(mul_views(front, c, p), scale_by_term(c, t, p), m);
        if t.1 == u {
            lemma_mul_push(with_mono(front, u), t, c, p);
            lemma_coeff_at_concat(mul_views(with_mono(front, u), c, p), scale_by_term(c, t, p), m);
            let w = with_mono(z, u);
            assert forall|i: int| 0 <= i < w.len() implies (#[trigger] w[i]).1 == u by {
                if i < w.len() - 1 {
                    assert(w[i] == with_mono(front, u)[i]);
                }
            }
            assert(w.drop_last() =~= with_mono(front, u));
            assert(coeff_at(w, u) == coeff_at(with_mono(front, u), u) + term_value(t, u));
            assert(coeff_at(z, u) == coeff_at(front, u) + term_value(t, u));
            assert forall|n: Seq<u16>| n != u implies #[trigger] coeff_at(without_mono(z, u), n) == coeff_at(z, n) by {
                assert(coeff_at(z, n) == coeff_at(front, n) + term_value(t, n));
                assert(coeff_at(without_mono(front, u), n) == coeff_at(front, n));
            }
        } else {
            lemma_mul_push(without_mono(front, u), t, c, p);
            lemma_coeff_at_concat(mul_views(without_mono(front, u), c, p), scale_by_term(c, t, p), m);
            let v = without_mono(z, u);
            assert(v.drop_last() =~= without_mono(front, u));
            assert(v.last() == t);
            assert(coeff_at(v, u) == coeff_at(without_mono(front, u), u) + term_value(t, u));
            assert(coeff_at(z, u) == coeff_at(front, u) + term_value(t, u));
            assert forall|n: Seq<u16>| n != u implies #[trigger] coeff_at(without_mono(z, u), n) == coeff_at(z, n) by {
                assert(coeff_at(z, n) == coeff_at(front, n) + term_value(t, n));
                assert(coeff_at(v, n) == coeff_at(without_mono(front, u), n) + term_value(t, n));
                assert(coeff_at(without_mono(front, u), n) == coeff_at(front, n));
            }
        }
    }
}

/// A list whose coefficients all vanish modulo `p` has a product whose
/// coefficients all vanish.
proof fn lemma_mul_zero_left(z: Seq<TermView>, c: Seq<TermView>, p: int)
    requires
        p > 0,
        zero_mod(z, p),
    ensures
        zero_mod(mul_views(z, c, p), p),
    decreases z.len(),
{
    if z.len() > 0 {
        let u = z.last().1;
        let rest = without_mono(z, u);
        lemma_mul_split(z, u, c, p, u);
        assert(rest.len() < z.len()) by {
            lemma_mul_split(z.drop_last(), u, c, p, u);
            assert(rest == without_mono(z.drop_last(), u));
        }
        assert(zero_mod(rest, p)) by {
            assert forall|n: Seq<u16>| #[trigger] coeff_at(rest, n) % p == 0 by {
                lemma_mul_split(z, u, c, p, n);
                if n == u {
                    lemma_small_mod(0, p as nat);
                } else {
                    assert(coeff_at(z, n) % p == 0);
                }
            }
        }
        lemma_mul_zero_left(rest, c, p);
        assert forall|m: Seq<u16>| #[trigger] coeff_at(mul_views(z, c, p), m) % p == 0 by {
            lemma_mul_split(z, u, c, p, m);
            let w = with_mono(z, u);
            lemma_mul_one_mono(w, u, c, p, m);
            let k = coeff_at(scale_by_term(c, (1int, u), p), m);
            let a = coeff_at(mul_views(w, c, p), m);
            let b = coeff_at(mul_views(rest, c, p), m);
            assert(coeff_at(w, u) % p == 0);
            lemma_mul_mod_noop_right(k, coeff_at(w, u), p);
            assert(k * 0 == 0) by (nonlinear_arith);
            lemma_small_mod(0, p as nat);
            assert(a % p == 0);
            assert(b % p == 0);
            lemma_add_mod_noop(a, b, p);
        }
    } else {
        assert forall|m: Seq<u16>| #[trigger] coeff_at(mul_views(z, c, p), m) % p == 0 by {
            lemma_small_mod(0, p as nat);
        }
    }
}

/// Adding `p - 1` copies of `y` to `x` cancels modulo `p` exactly when `x`
/// and `y` agree modulo `p`.
proof fn lemma_cancel_mod(x: int, y: int, p: int)
    requires
        p > 0,
    ensures
        (x + y * (p - 1)) % p == 0 <==> x % p == y % p,
{
    assert(x + y * (p - 1) == p * y + (x - y)) by (nonlinear_arith);
    lemma_mod_multiples_vanish(y, x - y, p);
    lemma_mod_equivalence(x, y, p);
}

/// Scaling the first factor's coefficients scales the product.
pub proof fn lemma_scaled_mul(y: Seq<TermView>, k: int, c: Seq<TermView>, p: int, m: Seq<u16>)
    requires
        p > 0,
    ensures
        coeff_at(mul_views(scaled_list(y, k, p), c, p), m) % p == (coeff_at(mul_views(y, c, p), m) * k) % p,
    decreases y.len(),
{
    if y.len() == 0 {
        assert(scaled_list(y, k, p) =~= y);
        assert(0 * k == 0) by (nonlinear_arith);
    } else {
        let front = y.drop_last();
        let t = y.last();
        let st = ((t.0 * k) % p, t.1);
        assert(scaled_list(y, k, p) =~= scaled_list(front, k, p).push(st));
        lemma_scaled_mul(front, k, c, p, m);
        lemma_mul_push(scaled_list(front, k, p), st, c, p);
        lemma_mul_push(front, t, c, p);
        assert(y =~= front.push(t));
        lemma_coeff_at_concat(mul_views(scaled_list(front, k, p), c, p), scale_by_term(c, st, p), m);
        lemma_coeff_at_concat(mul_views(front, c, p), scale_by_term(c, t, p), m);
        let kk = coeff_at(scale_by_term(c, (1int, t.1), p), m);
        lemma_scale_term(c, st.0, t.1, p, m);
        lemma_scale_term(c, t.0, t.1, p, m);
        let a2 = coeff_at(mul_views(scaled_list(front, k, p), c, p), m);
        let b2 = coeff_at(scale_by_term(c, st, p), m);
        let a = coeff_at(mul_views(front, c, p), m);
        let b = coeff_at(scale_by_term(c, t, p), m);
        // b2 = kk * ((t0 k) % p) = kk t0 k, and b k = kk t0 k, modulo p.
        assert(b2 % p == (b * k) % p) by {
            lemma_mul_mod_noop_right(kk, t.0 * k, p);
            lemma_mul_mod_noop_left(b, k, p);
            lemma_mul_mod_noop_left(kk * t.0, k, p);
            assert(kk * (t.0 * k) == (kk * t.0) * k) by (nonlinear_arith);
        }
        lemma_add_mod_noop(a2, b2, p);
        lemma_add_mod_noop(a * k, b * k, p);
        assert(a * k + b * k == (a + b) * k) by (nonlinear_arith);
    }
}

/// The product respects equal coefficients in its first factor.
pub proof fn lemma_mul_congruent_left(x: Seq<TermView>, y: Seq<TermView>, c: Seq<TermView>, p: int)
    requires
        p > 0,
        same_mod(x, y, p),
    ensures
        same_mod(mul_views(x, c, p), mul_views(y, c, p), p),
{
    let ny = scaled_list(y, p - 1, p);
    let z = x + ny;
    assert forall|m: Seq<u16>| #[trigger] coeff_at(z, m) % p == 0 by {
        lemma_coeff_at_concat(x, ny, m);
        lemma_coeff_at_scaled(y, p - 1, p, m);
        let a = coeff_at(x, m);
        let b = coeff_at(ny, m);
        let yv = coeff_at(y, m);
        lemma_add_mod_noop(a, b, p);
        lemma_add_mod_noop(a, yv * (p - 1), p);
        lemma_cancel_mod(a, yv, p);
    }
    lemma_mul_zero_left(z, c, p);
    lemma_mul_concat(x, ny, c, p);
    assert forall|m: Seq<u16>| #[trigger] coeff_at(mul_views(x, c, p), m) % p == coeff_at(mul_views(y, c, p), m) % p by {
        lemma_coeff_at_concat(mul_views(x, c, p), mul_views(ny, c, p), m);
        lemma_scaled_mul(y, p - 1, c, p, m);
        let a = coeff_at(mul_views(x, c, p), m);
        let b = coeff_at(mul_views(ny, c, p), m);
        let yv = coeff_at(mul_views(y, c, p), m);
        assert((a + b) % p == 0);
        lemma_add_mod_noop(a, b, p);
        lemma_add_mod_noop(a, yv * (p - 1), p);
        lemma_cancel_mod(a, yv, p);
    }
}

/// The product of exponent vectors commutes.
proof fn lemma_mono_mul_commutes(a: Seq<u16>, b: Seq<u16>)
    ensures
        mono_mul(a, b) == mono_mul(b, a),
{
    assert(mono_mul(a, b) =~= mono_mul(b, a));
}

/// The product of exponent vectors is associative.
proof fn lemma_mono_mul_assoc(a: Seq<u16>, b: Seq<u16>, c: Seq<u16>)
    ensures
        mono_mul(mono_mul(a, b), c) == mono_mul(a, mono_mul(b, c)),
{
    let l = mono_mul(mono_mul(a, b), c);
    let r = mono_mul(a, mono_mul(b, c));
    assert forall|k: int| 0 <= k < l.len() implies l[k] == r[k] by {
        let x = a[k];
        let y = b[k];
        let z = c[k];
        assert((((x + y) as u16) + z) as u16 == (x + ((y + z) as u16)) as u16) by (bit_vector);
    }
    assert(l =~= r);
}

/// Shifting by one term is the product by that one term.
proof fn lemma_scale_is_mul(c: Seq<TermView>, t: TermView, p: int)
    ensures
        scale_by_term(c, t, p) == mul_views(c, seq![t], p),
    decreases c.len(),
{
    if c.len() > 0 {
        let front = c.drop_last();
        let u = c.last();
        lemma_scale_is_mul(front, t, p);
        lemma_mono_mul_commutes(t.1, u.1);
        assert(t.0 * u.0 == u.0 * t.0) by (nonlinear_arith);
        assert(scale_by_term(seq![t], u, p) =~= seq![((u.0 * t.0) % p, mono_mul(u.1, t.1))]);
        assert(scale_by_term(c, t, p) =~= scale_by_term(front, t, p).push(((t.0 * u.0) % p, mono_mul(t.1, u.1))));
        assert(scale_by_term(c, t, p) =~= mul_views(c, seq![t], p));
    } else {
        assert(scale_by_term(c, t, p) =~= mul_views(c, seq![t], p));
    }
}

/// The product respects equal coefficients in its second factor.
pub proof fn lemma_mul_congruent_right(x: Seq<TermView>, c: Seq<TermView>, d: Seq<TermView>, p: int)
    requires
        p > 0,
        same_mod(c, d, p),
    ensures
        same_mod(mul_views(x, c, p), mul_views(x, d, p), p),
    decreases x.len(),
{
    if x.len() == 0 {
    } else {
        let front = x.drop_last();
        let t = x.last();
        lemma_mul_congruent_right(front, c, d, p);
        lemma_scale_is_mul(c, t, p);
        lemma_scale_is_mul(d, t, p);
        lemma_mul_congruent_left(c, d, seq![t], p);
        assert forall|m: Seq<u16>| #[trigger] coeff_at(mul_views(x, c, p), m) % p == coeff_at(mul_views(x, d, p), m) % p by {
            lemma_coeff_at_concat(mul_views(front, c, p), scale_by_term(c, t, p), m);
            lemma_coeff_at_concat(mul_views(front, d, p), scale_by_term(d, t, p), m);
            let a = coeff_at(mul_views(front, c, p), m);
            let b = coeff_at(scale_by_term(c, t, p), m);
            let a2 = coeff_at(mul_views(front, d, p), m);
            let b2 = coeff_at(scale_by_term(d, t, p), m);
            assert(a % p == a2 % p);
            assert(b % p == b2 % p);
            lemma_add_mod_noop(a, b, p);
            lemma_add_mod_noop(a2, b2, p);
        }
    }
}

/// Shifting splits over a concatenation.
pub proof fn lemma_scale_concat(x: Seq<TermView>, y: Seq<TermView>, t: TermView, p: int)
    ensures
        scale_by_term(x + y, t, p) == scale_by_term(x, t, p) + scale_by_term(y, t, p),
{
    assert(scale_by_term(x + y, t, p) =~= scale_by_term(x, t, p) + scale_by_term(y, t, p));
}

/// Shifting by two terms in turn is shifting by their product.
proof fn lemma_scale_scale(c: Seq<TermView>, u: TermView, t: TermView, p: int)
    requires
        p > 0,
    ensures
        scale_by_term(c, ((t.0 * u.0) % p, mono_mul(t.1, u.1)), p) == scale_by_term(scale_by_term(c, u, p), t, p),
{
    let l = scale_by_term(c, ((t.0 * u.0) % p, mono_mul(t.1, u.1)), p);
    let r = scale_by_term(scale_by_term(c, u, p), t, p);
    assert forall|i: int| 0 <= i < l.len() implies l[i] == r[i] by {
        let v = c[i];
        lemma_mono_mul_assoc(t.1, u.1, v.1);
        lemma_mul_mod_noop_left(t.0 * u.0, v.0, p);
        lemma_mul_mod_noop_right(t.0, u.0 * v.0, p);
        assert((t.0 * u.0) * v.0 == t.0 * (u.0 * v.0)) by (nonlinear_arith);
    }
    assert(l =~= r);
}

/// Multiplying a shifted list is shifting the product.
proof fn lemma_mul_scaled_first(b: Seq<TermView>, t: TermView, c: Seq<TermView>, p: int)
    requires
        p > 0,
    ensures
        mul_views(scale_by_term(b, t, p), c, p) == scale_by_term(mul_views(b, c, p), t, p),
    decreases b.len(),
{
    if b.len() == 0 {
        assert(scale_by_term(b, t, p) =~= b);
        assert(scale_by_term(mul_views(b, c, p), t, p) =~= Seq::<TermView>::empty());
    } else {
        let front = b.drop_last();
        let u = b.last();
        let tu = ((t.0 * u.0) % p, mono_mul(t.1, u.1));
        lemma_mul_scaled_first(front, t, c, p);
        assert(scale_by_term(b, t, p) =~= scale_by_term(front, t, p).push(tu));
        lemma_mul_push(scale_by_term(front, t, p), tu, c, p);
        lemma_scale_concat(mul_views(front, c, p), scale_by_term(c, u, p), t, p);
        lemma_scale_scale(c, u, t, p);
    }
}

/// The product of term lists is associative, term for term.
pub proof fn lemma_mul_assoc(a: Seq<TermView>, b: Seq<TermView>, c: Seq<TermView>, p: int)
    requires
        p > 0,
    ensures
        mul_views(mul_views(a, b, p), c, p) == mul_views(a, mul_views(b, c, p), p),
    decreases a.len(),
{
    if a.len() > 0 {
        let front = a.drop_last();
        let t = a.last();
        lemma_mul_assoc(front, b, c, p);
        lemma_mul_concat(mul_views(front, b, p), scale_by_term(b, t, p), c, p);
        lemma_mul_scaled_first(b, t, c, p);
    }
}

/// Every exponent vector of the list has `nvars` entries.
pub open spec fn terms_len(s: Seq<TermView>, nvars: nat) -> bool {
    forall|i: int| 0 <= i < s.len() ==> (#[trigger] s[i]).1.len() == nvars
}

/// The `k`-th power of `a`: the constant one, multiplied by `a` on the
/// right `k` times.
pub open spec fn power_views(a: Seq<TermView>, k: nat, nvars: nat, p: int) -> Seq<TermView>
    decreases k,
{
    if k == 0 {
        one_view(nvars)
    } else {
        mul_views(power_views(a, (k - 1) as nat, nvars, p), a, p)
    }
}

/// A product of lists of one width has that width.
proof fn lemma_mul_len(x: Seq<TermView>, c: Seq<TermView>, nvars: nat, p: int)
    requires
        terms_len(x, nvars),
        terms_len(c, nvars),
    ensures
        terms_len(mul_views(x, c, p), nvars),
    decreases x.len(),
{
    if x.len() > 0 {
        let front = x.drop_last();
        let t = x.last();
        assert(terms_len(front, nvars)) by {
            assert forall|i: int| 0 <= i < front.len() implies (#[trigger] front[i]).1.len() == nvars by {
                assert(front[i] == x[i]);
            }
        }
        lemma_mul_len(front, c, nvars, p);
        assert(t == x[x.len() - 1]);
        let all = mul_views(x, c, p);
        let f = mul_views(front, c, p);
        let sc = scale_by_term(c, t, p);
        assert(all == f + sc);
        assert forall|i: int| 0 <= i < all.len() implies (#[trigger] all[i]).1.len() == nvars by {
            if i < f.len() {
                assert(all[i] == f[i]);
            } else {
                assert(all[i] == sc[i - f.len()]);
                assert(c[i - f.len()].1.len() == nvars);
            }
        }
    }
}

/// Every power of a list of one width has that width.
proof fn lemma_power_len(a: Seq<TermView>, k: nat, nvars: nat, p: int)
    requires
        terms_len(a, nvars),
    ensures
        terms_len(power_views(a, k, nvars, p), nvars),
    decreases k,
{
    if k > 0 {
        lemma_power_len(a, (k - 1) as nat, nvars, p);
        lemma_mul_len(power_views(a, (k - 1) as nat, nvars, p), a, nvars, p);
    }
}

/// The constant one is a right identity.
proof fn lemma_mul_one_right(x: Seq<TermView>, nvars: nat, p: int)
    requires
        p > 0,
        terms_len(x, nvars),
    ensures
        same_mod(mul_views(x, one_view(nvars), p), x, p),
    decreases x.len(),
{
    if x.len() > 0 {
        let front = x.drop_last();
        let t = x.last();
        assert(terms_len(front, nvars)) by {
            assert forall|i: int| 0 <= i < front.len() implies (#[trigger] front[i]).1.len() == nvars by {
                assert(front[i] == x[i]);
            }
        }
        lemma_mul_one_right(front, nvars, p);
        assert(t == x[x.len() - 1]);
        let one = one_view(nvars);
        let sc = scale_by_term(one, t, p);
        assert(mono_mul(t.1, one[0].1) =~= t.1);
        assert(sc =~= seq![((t.0 * 1) % p, t.1)]);
        assert forall|m: Seq<u16>| #[trigger] coeff_at(mul_views(x, one, p), m) % p == coeff_at(x, m) % p by {
            lemma_coeff_at_concat(mul_views(front, one, p), sc, m);
            let a = coeff_at(mul_views(front, one, p), m);
            let b = coeff_at(sc, m);
            assert(sc.drop_last() =~= Seq::<TermView>::empty());
            assert(coeff_at(sc.drop_last(), m) == 0);
            assert(sc.last() == ((t.0 * 1) % p, t.1));
            assert(b == term_value(((t.0 * 1) % p, t.1), m));
            lemma_mod_twice(t.0, p);
            assert(b % p == term_value(t, m) % p) by {
                if t.1 == m {
                    lemma_mod_twice(t.0, p);
                } else {
                }
            }
            lemma_add_mod_noop(a, b, p);
            lemma_add_mod_noop(coeff_at(front, m), term_value(t, m), p);
        }
    }
}

/// The constant one is a left identity.
pub proof fn lemma_mul_one_left(a: Seq<TermView>, nvars: nat, p: int)
    requires
        p > 0,
        terms_len(a, nvars),
    ensures
        same_mod(mul_views(one_view(nvars), a, p), a, p),
{
    let one = one_view(nvars);
    let t = one[0];
    assert(one.drop_last() =~= Seq::<TermView>::empty());
    let sc = scale_by_term(a, t, p);
    assert(mul_views(one.drop_last(), a, p) =~= Seq::<TermView>::empty());
    assert(one.last() == t);
    assert(mul_views(one, a, p) == mul_views(one.drop_last(), a, p) + scale_by_term(a, one.last(), p));
    assert(mul_views(one, a, p) =~= sc);
    assert forall|i: int| 0 <= i < sc.len() implies (#[trigger] sc[i]).1 == a[i].1 && sc[i].0 % p == a[i].0 % p by {
        assert(mono_mul(t.1, a[i].1) =~= a[i].1);
        assert(1 * a[i].0 == a[i].0);
        lemma_mod_twice(a[i].0, p);
    }
    assert forall|m: Seq<u16>| #[trigger] coeff_at(mul_views(one, a, p), m) % p == coeff_at(a, m) % p by {
        lemma_pointwise(sc, a, p, m);
    }
}

/// Powers add: the product of the `i`-th and the `j`-th power is the
/// `i + j`-th.
pub proof fn lemma_power_add(a: Seq<TermView>, i: nat, j: nat, nvars: nat, p: int)
    requires
        p > 0,
        terms_len(a, nvars),
    ensures
        same_mod(mul_views(power_views(a, i, nvars, p), power_views(a, j, nvars, p), p), power_views(a, i + j, nvars, p), p),
    decreases j,
{
    lemma_power_len(a, i, nvars, p);
    if j == 0 {
        lemma_mul_one_right(power_views(a, i, nvars, p), nvars, p);
    } else {
        let pi = power_views(a, i, nvars, p);
        let pj1 = power_views(a, (j - 1) as nat, nvars, p);
        lemma_power_add(a, i, (j - 1) as nat, nvars, p);
        lemma_mul_assoc(pi, pj1, a, p);
        lemma_mul_congruent_left(mul_views(pi, pj1, p), power_views(a, (i + j - 1) as nat, nvars, p), a, p);
        assert(power_views(a, i + j, nvars, p) == mul_views(power_views(a, (i + j - 1) as nat, nvars, p), a, p));
    }
}

/// The first power is the list itself.
pub proof fn lemma_power_one(a: Seq<TermView>, nvars: nat, p: int)
    requires
        p > 0,
        terms_len(a, nvars),
    ensures
        same_mod(power_views(a, 1, nvars, p), a, p),
{
    assert(power_views(a, 1, nvars, p) == mul_views(power_views(a, 0, nvars, p), a, p));
    lemma_mul_one_left(a, nvars, p);
}

/// One step of a power: a product of two powers, each known up to equal
/// coefficients, is the power of the summed exponents.
pub proof fn lemma_power_step(
    r: Seq<TermView>,
    b: Seq<TermView>,
    prod: Seq<TermView>,
    a: Seq<TermView>,
    i: nat,
    j: nat,
    nvars: nat,
    p: int,
)
    requires
        p > 0,
        terms_len(a, nvars),
        same_mod(r, power_views(a, i, nvars, p), p),
        same_mod(b, power_views(a, j, nvars, p), p),
        forall|m: Seq<u16>| #[trigger] coeff_at(prod, m) == coeff_at(mul_views(r, b, p), m) % p,
    ensures
        same_mod(prod, power_views(a, i + j, nvars, p), p),
{
    let pi = power_views(a, i, nvars, p);
    let pj = power_views(a, j, nvars, p);
    lemma_mul_congruent_left(r, pi, b, p);
    lemma_mul_congruent_right(pi, b, pj, p);
    lemma_power_add(a, i, j, nvars, p);
    assert forall|m: Seq<u16>| #[trigger] coeff_at(prod, m) % p == coeff_at(power_views(a, i + j, nvars, p), m) % p by {
        lemma_mod_twice(coeff_at(mul_views(r, b, p), m), p);
        assert(coeff_at(mul_views(r, b, p), m) % p == coeff_at(mul_views(pi, b, p), m) % p);
        assert(coeff_at(mul_views(pi, b, p), m) % p == coeff_at(mul_views(pi, pj, p), m) % p);
    }
}

/// Every power of the empty list past the zeroth is empty.
pub proof fn lemma_power_empty(a: Seq<TermView>, k: nat, nvars: nat, p: int)
    requires
        a.len() == 0,
        k > 0,
    ensures
        power_views(a, k, nvars, p).len() == 0,
{
    lemma_mul_by_empty(power_views(a, (k - 1) as nat, nvars, p), a, p);
}

/// The product by the empty list is empty.
proof fn lemma_mul_by_empty(x: Seq<TermView>, c: Seq<TermView>, p: int)
    requires
        c.len() == 0,
    ensures
        mul_views(x, c, p).len() == 0,
    decreases x.len(),
{
    if x.len() > 0 {
        lemma_mul_by_empty(x.drop_last(), c, p);
    }
}

/// One more factor: the canonical `e + 1`-th power of `a` is the canonical
/// product of the `e`-th power and `a`. With `q1` the `e`-th power, `q2`
/// the product of `q1` and `a`, and `q3` the `e + 1`-th power, all three in
/// canonical form, `q2` and `q3` are one list.
pub proof fn law_power_succ(
    a: Seq<TermView>,
    q1: Seq<TermView>,
    q2: Seq<TermView>,
    q3: Seq<TermView>,
    e: nat,
    nvars: nat,
    p: int,
)
    requires
        p > 0,
        terms_wf(q2, p, nvars),
        terms_wf(q3, p, nvars),
        same_mod(q1, power_views(a, e, nvars, p), p),
        forall|m: Seq<u16>| #[trigger] coeff_at(q2, m) == coeff_at(mul_views(q1, a, p), m) % p,
        same_mod(q3, power_views(a, e + 1, nvars, p), p),
    ensures
        q2 == q3,
{
    lemma_mul_congruent_left(q1, power_views(a, e, nvars, p), a, p);
    assert(power_views(a, e + 1, nvars, p) == mul_views(power_views(a, e, nvars, p), a, p));
    assert forall|m: Seq<u16>| #[trigger] coeff_at(q2, m) == coeff_at(q3, m) by {
        lemma_coeff_at_range(q2, p, nvars, m);
        lemma_coeff_at_range(q3, p, nvars, m);
        lemma_mod_twice(coeff_at(mul_views(q1, a, p), m), p);
    }
    lemma_canonical_unique(q2, q3, p, nvars);
}

/// Multiplication is associative: with `ab` the canonical product of `a`
/// and `b`, `bc` that of `b` and `c`, the canonical products of `ab` and
/// `c` and of `a` and `bc` are one list.
pub proof fn law_mul_assoc(
    a: Seq<TermView>,
    b: Seq<TermView>,
    c: Seq<TermView>,
    ab: Seq<TermView>,
    bc: Seq<TermView>,
    ab_c: Seq<TermView>,
    a_bc: Seq<TermView>,
    nvars: nat,
    p: int,
)
    requires
        p > 0,
        terms_wf(ab_c, p, nvars),
        terms_wf(a_bc, p, nvars),
        forall|m: Seq<u16>| #[trigger] coeff_at(ab, m) == coeff_at(mul_views(a, b, p), m) % p,
        forall|m: Seq<u16>| #[trigger] coeff_at(bc, m) == coeff_at(mul_views(b, c, p), m) % p,
        forall|m: Seq<u16>| #[trigger] coeff_at(ab_c, m) == coeff_at(mul_views(ab, c, p), m) % p,
        forall|m: Seq<u16>| #[trigger] coeff_at(a_bc, m) == coeff_at(mul_views(a, bc, p), m) % p,
    ensures
        ab_c == a_bc,
{
    assert(same_mod(ab, mul_views(a, b, p), p)) by {
        assert forall|m: Seq<u16>| #[trigger] coeff_at(ab, m) % p == coeff_at(mul_views(a, b, p), m) % p by {
            lemma_mod_twice(coeff_at(mul_views(a, b, p), m), p);
        }
    }
    assert(same_mod(bc, mul_views(b, c, p), p)) by {
        assert forall|m: Seq<u16>| #[trigger] coeff_at(bc, m) % p == coeff_at(mul_views(b, c, p), m) % p by {
            lemma_mod_twice(coeff_at(mul_views(b, c, p), m), p);
        }
    }
    lemma_mul_congruent_left(ab, mul_views(a, b, p), c, p);
    lemma_mul_congruent_right(a, bc, mul_views(b, c, p), p);
    lemma_mul_assoc(a, b, c, p);
    assert forall|m: Seq<u16>| #[trigger] coeff_at(ab_c, m) == coeff_at(a_bc, m) by {
        lemma_mod_twice(coeff_at(mul_views(ab, c, p), m), p);
        lemma_mod_twice(coeff_at(mul_views(a, bc, p), m), p);
        lemma_coeff_at_range(ab_c, p, nvars, m);
        lemma_coeff_at_range(a_bc, p, nvars, m);
    }
    lemma_canonical_unique(ab_c, a_bc, p, nvars);
}

} // verus!
