//! Ideal membership over `F_p`: a term list lies in the ideal that a list
//! of generators spans when cofactors over the generators give it back,
//! monomial by monomial, modulo `p`. The ideal holds zero and every
//! generator, and it is closed under sums, differences, scalars, products
//! by any term list, and division by its own members.

use vstd::arithmetic::div_mod::*;
use vstd::prelude::*;

use crate::arithmetic::one_view;
use crate::field::field_inverse;
use crate::cert::divide::{combo_coeff, division_identity, lemma_combo_empty, lemma_combo_update};
use crate::poly::{
    TermView,
    coeff_at,
    lemma_coeff_at_concat,
    lemma_coeff_at_scaled,
    mul_views,
    scale_by_term,
    scaled_list,
    signed_coeff,
};
use crate::product::{
    lemma_mul_assoc,
    lemma_mul_concat,
    lemma_mul_congruent_right,
    lemma_mul_one_left,
    lemma_scale_concat,
    lemma_scaled_mul,
    same_mod,
    terms_len,
};

verus! {

/// `f = sum_i cs[i] * gs[i]` modulo `p`, monomial by monomial.
pub open spec fn cofactors_of(f: Seq<TermView>, cs: Seq<Seq<TermView>>, gs: Seq<Seq<TermView>>, p: int) -> bool {
    &&& cs.len() == gs.len()
    &&& forall|m: Seq<u16>| #[trigger] coeff_at(f, m) % p == combo_coeff(cs, gs, p, m) % p
}

/// `f` lies in the ideal that `gs` generates over `F_p`.
pub open spec fn in_ideal(f: Seq<TermView>, gs: Seq<Seq<TermView>>, p: int) -> bool {
    exists|cs: Seq<Seq<TermView>>| #[trigger] cofactors_of(f, cs, gs, p)
}

/// Every element of `fs` lies in the ideal that `gs` generates.
pub open spec fn all_in_ideal(fs: Seq<Seq<TermView>>, gs: Seq<Seq<TermView>>, p: int) -> bool {
    forall|k: int| 0 <= k < fs.len() ==> #[trigger] in_ideal(fs[k], gs, p)
}

/// The products `cs[i] * gs[i]`, one after another.
pub open spec fn products(cs: Seq<Seq<TermView>>, gs: Seq<Seq<TermView>>, p: int) -> Seq<TermView>
    decreases cs.len(),
{
    if cs.len() == 0 {
        Seq::empty()
    } else {
        products(cs.drop_last(), gs, p) + mul_views(cs.last(), gs[cs.len() - 1], p)
    }
}

/// Each pair of lists joined, place by place.
pub open spec fn zip_concat(a: Seq<Seq<TermView>>, b: Seq<Seq<TermView>>) -> Seq<Seq<TermView>> {
    Seq::new(a.len(), |i: int| a[i] + b[i])
}

/// Each list scaled by `k`.
pub open spec fn scaled_all(a: Seq<Seq<TermView>>, k: int, p: int) -> Seq<Seq<TermView>> {
    Seq::new(a.len(), |i: int| scaled_list(a[i], k, p))
}

/// Each list multiplied by `q` on the left.
pub open spec fn mul_all(q: Seq<TermView>, a: Seq<Seq<TermView>>, p: int) -> Seq<Seq<TermView>> {
    Seq::new(a.len(), |i: int| mul_views(q, a[i], p))
}

proof fn lemma_products_coeff(cs: Seq<Seq<TermView>>, gs: Seq<Seq<TermView>>, p: int, m: Seq<u16>)
    ensures
        coeff_at(products(cs, gs, p), m) == combo_coeff(cs, gs, p, m),
    decreases cs.len(),
{
    if cs.len() > 0 {
        lemma_products_coeff(cs.drop_last(), gs, p, m);
        lemma_coeff_at_concat(products(cs.drop_last(), gs, p), mul_views(cs.last(), gs[cs.len() - 1], p), m);
    }
}

proof fn lemma_combo_concat(a: Seq<Seq<TermView>>, b: Seq<Seq<TermView>>, gs: Seq<Seq<TermView>>, p: int, m: Seq<u16>)
    requires
        a.len() == b.len(),
    ensures
        combo_coeff(zip_concat(a, b), gs, p, m) == combo_coeff(a, gs, p, m) + combo_coeff(b, gs, p, m),
    decreases a.len(),
{
    if a.len() > 0 {
        let c = zip_concat(a, b);
        assert(c.drop_last() =~= zip_concat(a.drop_last(), b.drop_last()));
        lemma_combo_concat(a.drop_last(), b.drop_last(), gs, p, m);
        let g = gs[a.len() - 1];
        assert(c.last() == a.last() + b.last());
        lemma_mul_concat(a.last(), b.last(), g, p);
        lemma_coeff_at_concat(mul_views(a.last(), g, p), mul_views(b.last(), g, p), m);
    }
}

proof fn lemma_combo_scaled(a: Seq<Seq<TermView>>, k: int, gs: Seq<Seq<TermView>>, p: int, m: Seq<u16>)
    requires
        p > 0,
    ensures
        combo_coeff(scaled_all(a, k, p), gs, p, m) % p == (combo_coeff(a, gs, p, m) * k) % p,
    decreases a.len(),
{
    if a.len() > 0 {
        let c = scaled_all(a, k, p);
        assert(c.drop_last() =~= scaled_all(a.drop_last(), k, p));
        lemma_combo_scaled(a.drop_last(), k, gs, p, m);
        let g = gs[a.len() - 1];
        assert(c.last() == scaled_list(a.last(), k, p));
        lemma_scaled_mul(a.last(), k, g, p, m);
        let x = combo_coeff(c.drop_last(), gs, p, m);
        let y = coeff_at(mul_views(c.last(), g, p), m);
        let u = combo_coeff(a.drop_last(), gs, p, m);
        let v = coeff_at(mul_views(a.last(), g, p), m);
        lemma_add_mod_noop(x, y, p);
        lemma_add_mod_noop(u * k, v * k, p);
        assert(u * k + v * k == (u + v) * k) by (nonlinear_arith);
    }
}

proof fn lemma_mul_right_concat(q: Seq<TermView>, x: Seq<TermView>, y: Seq<TermView>, p: int, m: Seq<u16>)
    ensures
        coeff_at(mul_views(q, x + y, p), m) == coeff_at(mul_views(q, x, p), m) + coeff_at(mul_views(q, y, p), m),
    decreases q.len(),
{
    if q.len() > 0 {
        let front = q.drop_last();
        let t = q.last();
        lemma_mul_right_concat(front, x, y, p, m);
        lemma_scale_concat(x, y, t, p);
        lemma_coeff_at_concat(mul_views(front, x + y, p), scale_by_term(x + y, t, p), m);
        lemma_coeff_at_concat(scale_by_term(x, t, p), scale_by_term(y, t, p), m);
        lemma_coeff_at_concat(mul_views(front, x, p), scale_by_term(x, t, p), m);
        lemma_coeff_at_concat(mul_views(front, y, p), scale_by_term(y, t, p), m);
    }
}

proof fn lemma_products_mul(q: Seq<TermView>, cs: Seq<Seq<TermView>>, gs: Seq<Seq<TermView>>, p: int, m: Seq<u16>)
    requires
        p > 0,
    ensures
        combo_coeff(mul_all(q, cs, p), gs, p, m) == coeff_at(mul_views(q, products(cs, gs, p), p), m),
    decreases cs.len(),
{
    if cs.len() == 0 {
        assert(mul_views(q, Seq::<TermView>::empty(), p) =~= Seq::<TermView>::empty()) by {
            lemma_mul_empty_right(q, p);
        }
    } else {
        let c = mul_all(q, cs, p);
        assert(c.drop_last() =~= mul_all(q, cs.drop_last(), p));
        lemma_products_mul(q, cs.drop_last(), gs, p, m);
        let g = gs[cs.len() - 1];
        assert(c.last() == mul_views(q, cs.last(), p));
        lemma_mul_assoc(q, cs.last(), g, p);
        lemma_mul_right_concat(q, products(cs.drop_last(), gs, p), mul_views(cs.last(), g, p), p, m);
    }
}

proof fn lemma_mul_empty_right(q: Seq<TermView>, p: int)
    ensures
        mul_views(q, Seq::<TermView>::empty(), p) =~= Seq::<TermView>::empty(),
    decreases q.len(),
{
    if q.len() > 0 {
        lemma_mul_empty_right(q.drop_last(), p);
        assert(scale_by_term(Seq::<TermView>::empty(), q.last(), p) =~= Seq::<TermView>::empty());
    }
}

/// Equal coefficients modulo `p` keep a list in the ideal.
pub proof fn lemma_ideal_congruent(f: Seq<TermView>, g: Seq<TermView>, gs: Seq<Seq<TermView>>, p: int)
    requires
        in_ideal(f, gs, p),
        same_mod(g, f, p),
    ensures
        in_ideal(g, gs, p),
{
    let cs = choose|cs: Seq<Seq<TermView>>| #[trigger] cofactors_of(f, cs, gs, p);
    assert forall|m: Seq<u16>| #[trigger] coeff_at(g, m) % p == combo_coeff(cs, gs, p, m) % p by {
        assert(coeff_at(f, m) % p == combo_coeff(cs, gs, p, m) % p);
    }
    assert(cofactors_of(g, cs, gs, p));
}

/// Zero lies in every ideal.
pub proof fn lemma_ideal_zero(gs: Seq<Seq<TermView>>, p: int)
    ensures
        in_ideal(Seq::empty(), gs, p),
{
    let cs = Seq::new(gs.len(), |i: int| Seq::<TermView>::empty());
    assert forall|m: Seq<u16>| #[trigger] coeff_at(Seq::<TermView>::empty(), m) % p == combo_coeff(cs, gs, p, m) % p by {
        lemma_combo_empty(cs, gs, p, m);
    }
    assert(cofactors_of(Seq::empty(), cs, gs, p));
}

/// Every generator lies in the ideal it helps span.
pub proof fn lemma_ideal_generator(gs: Seq<Seq<TermView>>, i: int, nvars: nat, p: int)
    requires
        p > 0,
        0 <= i < gs.len(),
        terms_len(gs[i], nvars),
    ensures
        in_ideal(gs[i], gs, p),
{
    let zero = Seq::new(gs.len(), |j: int| Seq::<TermView>::empty());
    let cs = zero.update(i, one_view(nvars));
    lemma_mul_one_left(gs[i], nvars, p);
    assert forall|m: Seq<u16>| #[trigger] coeff_at(gs[i], m) % p == combo_coeff(cs, gs, p, m) % p by {
        lemma_combo_empty(zero, gs, p, m);
        lemma_combo_update(zero, gs, p, m, i, one_view(nvars));
        assert(mul_views(zero[i], gs[i], p) =~= Seq::<TermView>::empty());
        assert(coeff_at(mul_views(one_view(nvars), gs[i], p), m) % p == coeff_at(gs[i], m) % p);
    }
    assert(cofactors_of(gs[i], cs, gs, p));
}

/// The ideal holds `a + b`, or `a - b` when `negate` holds, for any two of
/// its members.
pub proof fn lemma_ideal_combination(
    s: Seq<TermView>,
    a: Seq<TermView>,
    b: Seq<TermView>,
    negate: bool,
    gs: Seq<Seq<TermView>>,
    p: int,
)
    requires
        p > 0,
        in_ideal(a, gs, p),
        in_ideal(b, gs, p),
        forall|m: Seq<u16>| #[trigger] coeff_at(s, m) % p == (coeff_at(a, m) + signed_coeff(coeff_at(b, m), negate)) % p,
    ensures
        in_ideal(s, gs, p),
{
    let ca = choose|cs: Seq<Seq<TermView>>| #[trigger] cofactors_of(a, cs, gs, p);
    let cb = choose|cs: Seq<Seq<TermView>>| #[trigger] cofactors_of(b, cs, gs, p);
    let k = if negate {
        p - 1
    } else {
        1
    };
    let sb = scaled_all(cb, k, p);
    let cs = zip_concat(ca, sb);
    assert forall|m: Seq<u16>| #[trigger] coeff_at(s, m) % p == combo_coeff(cs, gs, p, m) % p by {
        lemma_combo_concat(ca, sb, gs, p, m);
        lemma_combo_scaled(cb, k, gs, p, m);
        let x = combo_coeff(ca, gs, p, m);
        let y = combo_coeff(sb, gs, p, m);
        let z = combo_coeff(cb, gs, p, m);
        let av = coeff_at(a, m);
        let bv = coeff_at(b, m);
        assert(av % p == x % p);
        assert(bv % p == z % p);
        lemma_add_mod_noop(x, y, p);
        lemma_mul_mod_noop_left(z, k, p);
        lemma_mul_mod_noop_left(bv, k, p);
        assert(y % p == (bv * k) % p);
        lemma_add_mod_noop(av, bv * k, p);
        assert((x + y) % p == (av + bv * k) % p);
        if negate {
            assert(av + bv * (p - 1) == p * bv + (av - bv)) by (nonlinear_arith);
            lemma_mod_multiples_vanish(bv, av - bv, p);
        }
    }
    assert(cofactors_of(s, cs, gs, p));
}

/// The ideal holds every scalar multiple of its members.
pub proof fn lemma_ideal_scaled(a: Seq<TermView>, k: int, gs: Seq<Seq<TermView>>, p: int)
    requires
        p > 0,
        in_ideal(a, gs, p),
    ensures
        in_ideal(scaled_list(a, k, p), gs, p),
{
    let ca = choose|cs: Seq<Seq<TermView>>| #[trigger] cofactors_of(a, cs, gs, p);
    let cs = scaled_all(ca, k, p);
    assert forall|m: Seq<u16>| #[trigger] coeff_at(scaled_list(a, k, p), m) % p == combo_coeff(cs, gs, p, m) % p by {
        lemma_combo_scaled(ca, k, gs, p, m);
        lemma_coeff_at_scaled(a, k, p, m);
        let x = combo_coeff(ca, gs, p, m);
        let av = coeff_at(a, m);
        assert(av % p == x % p);
        lemma_mul_mod_noop_left(x, k, p);
        lemma_mul_mod_noop_left(av, k, p);
    }
    assert(cofactors_of(scaled_list(a, k, p), cs, gs, p));
}

/// The ideal holds every product of one of its members by any term list.
pub proof fn lemma_ideal_mul(q: Seq<TermView>, f: Seq<TermView>, gs: Seq<Seq<TermView>>, p: int)
    requires
        p > 0,
        in_ideal(f, gs, p),
    ensures
        in_ideal(mul_views(q, f, p), gs, p),
{
    let cf = choose|cs: Seq<Seq<TermView>>| #[trigger] cofactors_of(f, cs, gs, p);
    let pr = products(cf, gs, p);
    assert(same_mod(f, pr, p)) by {
        assert forall|m: Seq<u16>| #[trigger] coeff_at(f, m) % p == coeff_at(pr, m) % p by {
            lemma_products_coeff(cf, gs, p, m);
        }
    }
    lemma_mul_congruent_right(q, f, pr, p);
    let cs = mul_all(q, cf, p);
    assert forall|m: Seq<u16>| #[trigger] coeff_at(mul_views(q, f, p), m) % p == combo_coeff(cs, gs, p, m) % p by {
        lemma_products_mul(q, cf, gs, p, m);
    }
    assert(cofactors_of(mul_views(q, f, p), cs, gs, p));
}

/// The ideal holds every term multiple of its members.
pub proof fn lemma_ideal_term(f: Seq<TermView>, t: TermView, gs: Seq<Seq<TermView>>, p: int)
    requires
        p > 0,
        in_ideal(f, gs, p),
    ensures
        in_ideal(scale_by_term(f, t, p), gs, p),
{
    let q = seq![t];
    assert(q.drop_last() =~= Seq::<TermView>::empty());
    assert(mul_views(q, f, p) =~= scale_by_term(f, t, p)) by {
        assert(mul_views(q.drop_last(), f, p) =~= Seq::<TermView>::empty());
        assert(Seq::<TermView>::empty() + scale_by_term(f, t, p) =~= scale_by_term(f, t, p));
    }
    lemma_ideal_mul(q, f, gs, p);
}

/// Products of members of the ideal by any cofactors stay in it.
pub proof fn lemma_ideal_products(qs: Seq<Seq<TermView>>, bs: Seq<Seq<TermView>>, gs: Seq<Seq<TermView>>, p: int)
    requires
        p > 0,
        qs.len() <= bs.len(),
        forall|j: int| 0 <= j < qs.len() ==> #[trigger] in_ideal(bs[j], gs, p),
    ensures
        in_ideal(products(qs, bs, p), gs, p),
    decreases qs.len(),
{
    if qs.len() == 0 {
        lemma_ideal_zero(gs, p);
    } else {
        let front = qs.drop_last();
        lemma_ideal_products(front, bs, gs, p);
        let j = qs.len() - 1;
        assert(in_ideal(bs[j], gs, p));
        lemma_ideal_mul(qs.last(), bs[j], gs, p);
        let a = products(front, bs, p);
        let b = mul_views(qs.last(), bs[j], p);
        assert forall|m: Seq<u16>| #[trigger] coeff_at(a + b, m) % p == (coeff_at(a, m) + signed_coeff(
            coeff_at(b, m),
            false,
        )) % p by {
            lemma_coeff_at_concat(a, b, m);
        }
        lemma_ideal_combination(a + b, a, b, false, gs, p);
    }
}

/// Dividing a member of the ideal by members of it leaves a remainder in
/// it.
pub proof fn lemma_ideal_division(
    f: Seq<TermView>,
    qs: Seq<Seq<TermView>>,
    bs: Seq<Seq<TermView>>,
    r: Seq<TermView>,
    gs: Seq<Seq<TermView>>,
    p: int,
)
    requires
        p > 0,
        division_identity(f, qs, bs, r, p),
        qs.len() <= bs.len(),
        in_ideal(f, gs, p),
        forall|j: int| 0 <= j < qs.len() ==> #[trigger] in_ideal(bs[j], gs, p),
    ensures
        in_ideal(r, gs, p),
{
    let pr = products(qs, bs, p);
    lemma_ideal_products(qs, bs, gs, p);
    assert forall|m: Seq<u16>| #[trigger] coeff_at(r, m) % p == (coeff_at(f, m) + signed_coeff(coeff_at(pr, m), true))
        % p by {
        lemma_products_coeff(qs, bs, p, m);
        let c = combo_coeff(qs, bs, p, m);
        let rv = coeff_at(r, m);
        let x = c + rv;
        assert(coeff_at(f, m) == x % p);
        lemma_sub_mod_noop(x % p, c, p);
        lemma_sub_mod_noop(x, c, p);
        lemma_mod_twice(x, p);
        assert(x - c == rv);
    }
    lemma_ideal_combination(r, f, pr, true, gs, p);
}

/// A member of an ideal whose generators all lie in a second ideal lies in
/// the second one.
pub proof fn lemma_ideal_trans(f: Seq<TermView>, bs: Seq<Seq<TermView>>, gs: Seq<Seq<TermView>>, p: int)
    requires
        p > 0,
        in_ideal(f, bs, p),
        all_in_ideal(bs, gs, p),
    ensures
        in_ideal(f, gs, p),
{
    let cs = choose|cs: Seq<Seq<TermView>>| #[trigger] cofactors_of(f, cs, bs, p);
    assert forall|j: int| 0 <= j < cs.len() implies #[trigger] in_ideal(bs[j], gs, p) by {
        assert(in_ideal(bs[j], gs, p));
    }
    lemma_ideal_products(cs, bs, gs, p);
    let pr = products(cs, bs, p);
    assert forall|m: Seq<u16>| #[trigger] coeff_at(f, m) % p == coeff_at(pr, m) % p by {
        lemma_products_coeff(cs, bs, p, m);
    }
    lemma_ideal_congruent(pr, f, gs, p);
}

/// A member of the ideal made monic stays in it.
pub proof fn lemma_ideal_monic(gens: Seq<Seq<TermView>>, f: Seq<TermView>, monic: Seq<TermView>, p: int)
    requires
        p > 0,
        in_ideal(f, gens, p),
        f.len() > 0 ==> monic == scaled_list(f, field_inverse(f.last().0, p), p),
        f.len() == 0 ==> monic.len() == 0,
    ensures
        in_ideal(monic, gens, p),
{
    if f.len() > 0 {
        lemma_ideal_scaled(f, field_inverse(f.last().0, p), gens, p);
    } else {
        lemma_ideal_zero(gens, p);
        assert(monic =~= Seq::<TermView>::empty());
    }
}

/// Members of the ideal of members of a second ideal lie in the second.
pub proof fn lemma_ideal_chain(fs: Seq<Seq<TermView>>, bs: Seq<Seq<TermView>>, gs: Seq<Seq<TermView>>, p: int)
    requires
        p > 0,
        all_in_ideal(fs, bs, p),
        all_in_ideal(bs, gs, p),
    ensures
        all_in_ideal(fs, gs, p),
{
    assert forall|k: int| 0 <= k < fs.len() implies #[trigger] in_ideal(fs[k], gs, p) by {
        assert(in_ideal(fs[k], bs, p));
        lemma_ideal_trans(fs[k], bs, gs, p);
    }
}

/// A list in the ideal of a list: each element of `bs` lies in the ideal of `bs`.
pub proof fn lemma_ideal_self(bs: Seq<Seq<TermView>>, nvars: nat, p: int)
    requires
        p > 0,
        forall|k: int| 0 <= k < bs.len() ==> terms_len(#[trigger] bs[k], nvars),
    ensures
        all_in_ideal(bs, bs, p),
{
    assert forall|k: int| 0 <= k < bs.len() implies #[trigger] in_ideal(bs[k], bs, p) by {
        lemma_ideal_generator(bs, k, nvars, p);
    }
}

} // verus!
