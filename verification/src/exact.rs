//! Exact operations on polynomials of one ring, without a budget: the
//! steps that division, S-polynomials, and origin updates are made of.

use vstd::arithmetic::div_mod::*;
use vstd::prelude::*;

use crate::arithmetic::{merge_product_terms, merge_terms, residue_of};
use crate::compute::ComputeLimits;
use crate::field::{Felt, field_inverse, is_inverse, is_prime, lemma_field_inverse, lemma_product_nonzero};
use crate::monomial::{
    Monomial,
    divides_spec,
    lemma_divides_lcm,
    grevlex_less,
    lemma_grevlex_mul,
    mono_div,
    mono_lcm,
    mono_mul,
    product_fits,
};
use crate::poly::{
    Polynomial,
    PolynomialRing,
    RingError,
    Term,
    TermView,
    coeff_at,
    is_combination,
    lemma_coeff_at_push,
    term_value,
    terms_in_ring,
    lemma_coeff_at_concat,
    lemma_coeff_at_scaled,
    lemma_coeff_at_signed,
    lemma_scaled_wf,
    scale_by_term,
    scaled_list,
    signed_list,
    sorted_terms,
    terms_wf,
    views,
};

verus! {

/// A product needs an exponent above `u16::MAX`.
#[derive(Clone, Copy, Debug, PartialEq, Eq, Structural)]
pub struct ExponentOverflow;

/// `m` times every monomial of `s` fits in `u16` lanes.
pub open spec fn scale_fits(s: Seq<TermView>, m: Seq<u16>) -> bool {
    forall|i: int| 0 <= i < s.len() ==> product_fits(m, #[trigger] s[i].1)
}

/// The monomial that takes `lead` up to the least common multiple of
/// `lead` and `other`.
pub open spec fn cofactor_of(lead: Seq<u16>, other: Seq<u16>) -> Seq<u16> {
    mono_div(mono_lcm(lead, other), lead)
}

/// The S-polynomial of `f` and `g` as an unreduced term list: `f` made
/// monic and lifted to the common multiple of the two leading monomials,
/// minus `g` treated the same way.
pub open spec fn spoly_view(f: Seq<TermView>, g: Seq<TermView>, p: int) -> Seq<TermView> {
    let u = (field_inverse(f.last().0, p), cofactor_of(f.last().1, g.last().1));
    let v = (field_inverse(g.last().0, p), cofactor_of(g.last().1, f.last().1));
    scale_by_term(f, u, p) + signed_list(scale_by_term(g, v, p), true, p)
}

/// Exponent-wise addition does not depend on the order of its operands.
proof fn lemma_mono_mul_commutes(a: Seq<u16>, b: Seq<u16>)
    requires
        a.len() == b.len(),
    ensures
        mono_mul(a, b) == mono_mul(b, a),
{
    assert(mono_mul(a, b) =~= mono_mul(b, a));
}

/// A nonzero term times a canonical list is canonical when every product
/// fits.
pub proof fn lemma_scale_by_term_wf(s: Seq<TermView>, t: TermView, p: int, nvars: nat)
    requires
        terms_wf(s, p, nvars),
        is_prime(p as nat),
        0 < t.0 < p,
        t.1.len() == nvars,
        scale_fits(s, t.1),
    ensures
        terms_wf(scale_by_term(s, t, p), p, nvars),
{
    let z = scale_by_term(s, t, p);
    assert forall|k: int| 0 <= k < z.len() implies 0 < #[trigger] z[k].0 < p && z[k].1.len() == nvars by {
        assert(0 < s[k].0 < p && s[k].1.len() == nvars);
        lemma_product_nonzero(t.0, s[k].0, p);
        lemma_mod_bound(t.0 * s[k].0, p);
    }
    assert forall|i: int, j: int| 0 <= i < j < z.len() implies grevlex_less(
        #[trigger] z[i].1,
        #[trigger] z[j].1,
    ) by {
        assert(0 < s[i].0 && s[i].1.len() == nvars);
        assert(0 < s[j].0 && s[j].1.len() == nvars);
        assert(grevlex_less(s[i].1, s[j].1));
        assert(product_fits(t.1, s[i].1));
        assert(product_fits(t.1, s[j].1));
        assert(product_fits(s[i].1, t.1));
        assert(product_fits(s[j].1, t.1));
        lemma_grevlex_mul(s[i].1, s[j].1, t.1);
        lemma_mono_mul_commutes(s[i].1, t.1);
        lemma_mono_mul_commutes(s[j].1, t.1);
    }
}

/// Every coefficient of a list of zero-coefficient products is zero.
proof fn lemma_coeff_at_zero_scale(s: Seq<TermView>, t: TermView, p: int, m: Seq<u16>)
    requires
        t.0 == 0,
        p > 0,
    ensures
        coeff_at(scale_by_term(s, t, p), m) == 0,
    decreases s.len(),
{
    if s.len() > 0 {
        let front = s.drop_last();
        assert(scale_by_term(s, t, p).drop_last() =~= scale_by_term(front, t, p));
        lemma_coeff_at_zero_scale(front, t, p, m);
        assert(0 * s.last().0 == 0);
        lemma_small_mod(0, p as nat);
    }
}

impl Polynomial {
    /// Multiply by the term `coeff * mono`.
    ///
    /// A product past the width of one exponent is [`ExponentOverflow`].
    pub fn scale_monomial(&self, coeff: Felt, mono: &Monomial) -> (r: Result<Polynomial, ExponentOverflow>)
        requires
            self.wf(),
            coeff.value < self.ring.modulus,
            mono@.len() == self.ring.nvars,
        ensures
            r is Ok <==> scale_fits(self@, mono@),
            r matches Ok(q) ==> q.wf() && q.ring == self.ring && q@.len() <= self@.len() && (forall|
                m: Seq<u16>,
            | #[trigger] coeff_at(q@, m) == coeff_at(
                scale_by_term(self@, (coeff.value as int, mono@), self.ring.modulus as int),
                m,
            ) % (self.ring.modulus as int)),
            coeff.value != 0 ==> (r matches Ok(q) ==> q@ == scale_by_term(
                self@,
                (coeff.value as int, mono@),
                self.ring.modulus as int,
            )),
    {
        let p = self.ring.modulus;
        let ghost pi = p as int;
        let ghost t = (coeff.value as int, mono@);
        let ghost target = scale_by_term(self@, t, pi);
        let mut terms: Vec<Term> = Vec::new();
        let mut i: usize = 0;
        while i < self.terms.len()
            invariant
                self.wf(),
                p == self.ring.modulus,
                pi == p,
                t == (coeff.value as int, mono@),
                coeff.value < p,
                mono@.len() == self.ring.nvars,
                target == scale_by_term(self@, t, pi),
                i <= self@.len(),
                views(terms@) == target.take(i as int),
                forall|k: int| 0 <= k < i ==> product_fits(mono@, #[trigger] self@[k].1),
            decreases self@.len() - i,
        {
            assert(self@[i as int] == self.terms@[i as int]@);
            assert(0 < self@[i as int].0);
            assert(self@[i as int].1.len() == self.ring.nvars);
            let product = match mono.checked_mul(&self.terms[i].mono) {
                Some(m) => m,
                None => {
                    return Err(ExponentOverflow);
                },
            };
            let c = coeff.mul(self.terms[i].coeff, p);
            let ghost before = terms@;
            terms.push(Term { coeff: c, mono: product });
            proof {
                assert(views(terms@) =~= views(before).push(terms@.last()@));
                assert(target.take(i as int + 1) =~= target.take(i as int).push(target[i as int]));
            }
            i += 1;
        }
        proof {
            assert(target.take(i as int) =~= target);
        }
        if coeff.value == 0 {
            let z = self.zero_like();
            proof {
                assert forall|m: Seq<u16>| #[trigger] coeff_at(z@, m) == coeff_at(target, m) % pi by {
                    lemma_coeff_at_zero_scale(self@, t, pi, m);
                    lemma_small_mod(0, pi as nat);
                    assert(z@ =~= Seq::<TermView>::empty());
                }
            }
            return Ok(z);
        }
        let q = Polynomial { ring: self.ring, terms };
        proof {
            lemma_scale_by_term_wf(self@, t, pi, self.ring.nvars as nat);
            assert forall|m: Seq<u16>| #[trigger] coeff_at(q@, m) == coeff_at(target, m) % pi by {
                crate::poly::lemma_coeff_at_range(target, pi, self.ring.nvars as nat, m);
            }
        }
        Ok(q)
    }

    /// The sum of two polynomials of one ring.
    pub fn add(&self, other: &Polynomial) -> (r: Polynomial)
        requires
            self.wf(),
            other.wf(),
            self.ring == other.ring,
        ensures
            r.wf(),
            r.ring == self.ring,
            is_combination(r@, self@, other@, false, self.ring.modulus as int),
            r@.len() <= self@.len() + other@.len(),
    {
        match merge_terms(self, other, false, &ComputeLimits::none(), Vec::new()) {
            Ok(terms) => Polynomial { ring: self.ring, terms },
            Err(_) => self.zero_like(),
        }
    }

    /// The difference of two polynomials of one ring.
    pub fn sub(&self, other: &Polynomial) -> (r: Polynomial)
        requires
            self.wf(),
            other.wf(),
            self.ring == other.ring,
        ensures
            r.wf(),
            r.ring == self.ring,
            is_combination(r@, self@, other@, true, self.ring.modulus as int),
            r@.len() <= self@.len() + other@.len(),
    {
        match merge_terms(self, other, true, &ComputeLimits::none(), Vec::new()) {
            Ok(terms) => Polynomial { ring: self.ring, terms },
            Err(_) => self.zero_like(),
        }
    }

    /// This polynomial minus `coeff * mono * g`.
    ///
    /// A product past the width of one exponent is [`ExponentOverflow`].
    pub fn sub_scaled(&self, g: &Polynomial, coeff: Felt, mono: &Monomial) -> (r: Result<
        Polynomial,
        ExponentOverflow,
    >)
        requires
            self.wf(),
            g.wf(),
            self.ring == g.ring,
            coeff.value < self.ring.modulus,
            mono@.len() == self.ring.nvars,
        ensures
            r is Ok <==> scale_fits(g@, mono@),
            r matches Ok(q) ==> q.wf() && q.ring == self.ring && (forall|m: Seq<u16>|
                #[trigger] coeff_at(q@, m) == (coeff_at(self@, m) - coeff_at(
                    scale_by_term(g@, (coeff.value as int, mono@), self.ring.modulus as int),
                    m,
                )) % (self.ring.modulus as int)),
    {
        let scaled = g.scale_monomial(coeff, mono)?;
        let r = self.sub(&scaled);
        proof {
            let pi = self.ring.modulus as int;
            let t = (coeff.value as int, mono@);
            assert forall|m: Seq<u16>| #[trigger] coeff_at(r@, m) == (coeff_at(self@, m) - coeff_at(
                scale_by_term(g@, t, pi),
                m,
            )) % pi by {
                assert(coeff_at(r@, m) == (coeff_at(self@, m) + crate::poly::signed_coeff(
                    coeff_at(scaled@, m),
                    true,
                )) % pi);
                let x = coeff_at(scale_by_term(g@, t, pi), m);
                lemma_sub_mod_noop_right(coeff_at(self@, m), x, pi);
            }
        }
        Ok(r)
    }

    /// This polynomial divided by its leading coefficient; zero stays zero.
    pub fn make_monic(&self) -> (r: Polynomial)
        requires
            self.wf(),
        ensures
            r.wf(),
            r.ring == self.ring,
            self@.len() == 0 ==> r@.len() == 0,
            self@.len() > 0 ==> r@ == scaled_list(
                self@,
                field_inverse(self@.last().0, self.ring.modulus as int),
                self.ring.modulus as int,
            ) && r@.last().0 == 1,
    {
        let p = self.ring.modulus;
        let lc = match self.lc() {
            Some(c) => c,
            None => {
                return self.zero_like();
            },
        };
        let inv = lc.inv(p);
        let ghost pi = p as int;
        let ghost c = inv.value as int;
        proof {
            lemma_field_inverse(lc.value as int, c, pi);
            if c == 0 {
                lemma_small_mod(0, pi as nat);
                assert(lc.value * 0 == 0);
            }
        }
        let ghost target = scaled_list(self@, c, pi);
        let mut terms: Vec<Term> = Vec::new();
        let mut i: usize = 0;
        while i < self.terms.len()
            invariant
                self.wf(),
                p == self.ring.modulus,
                pi == p,
                c == inv.value,
                0 < c < pi,
                target == scaled_list(self@, c, pi),
                i <= self@.len(),
                views(terms@) == target.take(i as int),
            decreases self@.len() - i,
        {
            assert(self@[i as int] == self.terms@[i as int]@);
            assert(0 < self@[i as int].0 < pi);
            let value = self.terms[i].coeff.mul(inv, p);
            let ghost before = terms@;
            terms.push(Term { coeff: value, mono: self.terms[i].mono.copy() });
            proof {
                assert(views(terms@) =~= views(before).push(terms@.last()@));
                assert(target.take(i as int + 1) =~= target.take(i as int).push(target[i as int]));
            }
            i += 1;
        }
        proof {
            assert(target.take(i as int) =~= target);
            lemma_scaled_wf(self@, c, pi, self.ring.nvars as nat);
            assert(target.last() == target[self@.len() - 1]);
            assert(self@.last() == self@[self@.len() - 1]);
            assert(lc.value * c == self@.last().0 * c);
        }
        Polynomial { ring: self.ring, terms }
    }

    /// Put `t` in front of every term, where it belongs when it is below
    /// all of them.
    pub fn push_term(&mut self, t: Term)
        requires
            old(self).wf(),
            0 < t.coeff.value < old(self).ring.modulus,
            t.mono@.len() == old(self).ring.nvars,
            old(self)@.len() > 0 ==> grevlex_less(t.mono@, old(self)@[0].1),
        ensures
            final(self).wf(),
            final(self).ring == old(self).ring,
            final(self)@ == seq![t@] + old(self)@,
    {
        let ghost before = self@;
        let ghost tv = t@;
        self.terms.insert(0, t);
        proof {
            assert(self@ =~= seq![tv] + before);
            let s = self@;
            let nv = self.ring.nvars as nat;
            let pi = self.ring.modulus as int;
            assert forall|k: int| 0 <= k < s.len() implies 0 < #[trigger] s[k].0 < pi && s[k].1.len() == nv by {
                if k > 0 {
                    assert(s[k] == before[k - 1]);
                }
            }
            assert forall|i: int, j: int| 0 <= i < j < s.len() implies grevlex_less(
                #[trigger] s[i].1,
                #[trigger] s[j].1,
            ) by {
                assert(s[j] == before[j - 1]);
                if i > 0 {
                    assert(s[i] == before[i - 1]);
                } else if j > 1 {
                    assert(before == old(self)@);
                    assert(0 < before[0].0);
                    assert(0 < before[j - 1].0);
                    assert(grevlex_less(before[0].1, before[j - 1].1));
                    crate::monomial::lemma_grevlex_transitive(tv.1, before[0].1, before[j - 1].1);
                }
            }
        }
    }

    /// Take the leading term off.
    pub fn pop_lt(&mut self) -> (t: Option<Term>)
        requires
            old(self).wf(),
        ensures
            final(self).wf(),
            final(self).ring == old(self).ring,
            old(self)@.len() == 0 ==> t is None && final(self)@ == old(self)@,
            old(self)@.len() > 0 ==> (t matches Some(t) && t@ == old(self)@.last() && final(self)@
                == old(self)@.drop_last()),
    {
        let ghost before = self@;
        let t = self.terms.pop();
        proof {
            if before.len() > 0 {
                assert(self@ =~= before.drop_last());
                crate::poly::lemma_wf_subrange(
                    before,
                    self.ring.modulus as int,
                    self.ring.nvars as nat,
                    0,
                    before.len() - 1,
                );
                assert(before.subrange(0, before.len() - 1) =~= before.drop_last());
            }
        }
        t
    }

    /// The S-polynomial of two nonzero polynomials of one ring: each made
    /// monic and lifted to the least common multiple of the two leading
    /// monomials, the second subtracted from the first, so that the common
    /// multiple cancels.
    ///
    /// A product past the width of one exponent is [`ExponentOverflow`].
    pub fn s_polynomial(&self, other: &Polynomial) -> (r: Result<Polynomial, ExponentOverflow>)
        requires
            self.wf(),
            other.wf(),
            self.ring == other.ring,
            self@.len() > 0,
            other@.len() > 0,
        ensures
            r is Ok <==> scale_fits(self@, cofactor_of(self@.last().1, other@.last().1)) && scale_fits(
                other@,
                cofactor_of(other@.last().1, self@.last().1),
            ),
            r matches Ok(s) ==> s.wf() && s.ring == self.ring && (forall|m: Seq<u16>|
                #[trigger] coeff_at(s@, m) == coeff_at(
                    spoly_view(self@, other@, self.ring.modulus as int),
                    m,
                ) % (self.ring.modulus as int)),
    {
        let p = self.ring.modulus;
        let ghost pi = p as int;
        let ghost nv = self.ring.nvars as nat;
        let ghost f = self@;
        let ghost g = other@;
        proof {
            assert(f.last() == f[f.len() - 1]);
            assert(g.last() == g[g.len() - 1]);
            assert(0 < f[f.len() - 1].0 < pi);
            assert(f[f.len() - 1].1.len() == nv);
            assert(0 < g[g.len() - 1].0 < pi);
            assert(g[g.len() - 1].1.len() == nv);
        }
        let lead_f = self.terms[self.terms.len() - 1].mono.copy();
        let lead_g = other.terms[other.terms.len() - 1].mono.copy();
        let lc_f = self.terms[self.terms.len() - 1].coeff;
        let lc_g = other.terms[other.terms.len() - 1].coeff;
        let lcm = lead_f.lcm(&lead_g);
        proof {
            lemma_divides_lcm(lead_f@, lead_g@);
        }
        let a = match lcm.quotient(&lead_f) {
            Some(m) => m,
            None => {
                return Err(ExponentOverflow);
            },
        };
        let b = match lcm.quotient(&lead_g) {
            Some(m) => m,
            None => {
                return Err(ExponentOverflow);
            },
        };
        let inv_f = lc_f.inv(p);
        let inv_g = lc_g.inv(p);
        proof {
            lemma_field_inverse(lc_f.value as int, inv_f.value as int, pi);
            lemma_field_inverse(lc_g.value as int, inv_g.value as int, pi);
            if inv_f.value == 0 {
                assert(lc_f.value * 0 == 0);
                lemma_small_mod(0, pi as nat);
            }
            if inv_g.value == 0 {
                assert(lc_g.value * 0 == 0);
                lemma_small_mod(0, pi as nat);
            }
            assert(a@ == cofactor_of(f.last().1, g.last().1));
            assert(mono_lcm(lead_g@, lead_f@) =~= mono_lcm(lead_f@, lead_g@));
            assert(b@ == cofactor_of(g.last().1, f.last().1));
        }
        let left = self.scale_monomial(inv_f, &a)?;
        let right = other.scale_monomial(inv_g, &b)?;
        let r = left.sub(&right);
        proof {
            let u = (inv_f.value as int, a@);
            let v = (inv_g.value as int, b@);
            assert forall|m: Seq<u16>| #[trigger] coeff_at(r@, m) == coeff_at(spoly_view(f, g, pi), m)
                % pi by {
                let sv = scale_by_term(g, v, pi);
                lemma_coeff_at_concat(scale_by_term(f, u, pi), signed_list(sv, true, pi), m);
                lemma_coeff_at_signed(sv, true, pi, m);
                let x = coeff_at(scale_by_term(f, u, pi), m);
                let y = coeff_at(signed_list(sv, true, pi), m);
                lemma_add_mod_noop(x, y, pi);
                lemma_add_mod_noop(x, -coeff_at(sv, m), pi);
            }
        }
        Ok(r)
    }
}

/// The terms a caller writes, each coefficient read as an integer.
pub open spec fn written_view(terms: Seq<(i64, Vec<u16>)>) -> Seq<TermView> {
    terms.map_values(|t: (i64, Vec<u16>)| (t.0 as int, t.1@))
}

/// Every written exponent vector holds `nvars` exponents.
pub open spec fn widths_are(terms: Seq<(i64, Vec<u16>)>, nvars: nat) -> bool {
    forall|i: int| 0 <= i < terms.len() ==> (#[trigger] terms[i]).1@.len() == nvars
}

impl PolynomialRing {
    /// The polynomial with these terms: each coefficient read modulo the
    /// prime, equal monomials added up, and zero coefficients dropped.
    ///
    /// An exponent vector that does not hold one exponent per variable is
    /// [`RingError::ExponentCount`], for the first such term.
    pub fn polynomial(&self, terms: Vec<(i64, Vec<u16>)>) -> (r: Result<Polynomial, RingError>)
        requires
            self.wf(),
        ensures
            r is Ok <==> widths_are(terms@, self.nvars as nat),
            r matches Ok(q) ==> q.wf() && q.ring == *self && (forall|m: Seq<u16>|
                #[trigger] coeff_at(q@, m) == coeff_at(written_view(terms@), m) % (self.modulus as int)),
            r matches Err(e) ==> exists|i: int|
                0 <= i < terms@.len() && (#[trigger] terms@[i]).1@.len() != self.nvars && (forall|j: int|
                    0 <= j < i ==> (#[trigger] terms@[j]).1@.len() == self.nvars) && e == (
                RingError::ExponentCount { found: terms@[i].1@.len() as usize, expected: self.nvars }),
    {
        let p = self.modulus;
        let ghost pi = p as int;
        let ghost nv = self.nvars as nat;
        let ghost w = written_view(terms@);
        let mut out: Vec<Term> = Vec::new();
        let mut i: usize = 0;
        while i < terms.len()
            invariant
                self.wf(),
                p == self.modulus,
                pi == p,
                nv == self.nvars,
                w == written_view(terms@),
                i <= terms@.len(),
                widths_are(terms@.take(i as int), nv),
                terms_in_ring(views(out@), pi, nv),
                forall|m: Seq<u16>| #[trigger] coeff_at(views(out@), m) % pi == coeff_at(w.take(i as int), m) % pi,
            decreases terms@.len() - i,
        {
            let width = terms[i].1.len();
            if width != self.nvars {
                proof {
                    assert forall|j: int| 0 <= j < i implies (#[trigger] terms@[j]).1@.len() == self.nvars by {
                        assert(terms@.take(i as int)[j] == terms@[j]);
                    }
                }
                return Err(RingError::ExponentCount { found: width, expected: self.nvars });
            }
            let value = terms[i].0;
            let residue = residue_of(value, p);
            let ghost before = out@;
            let ghost wt = w[i as int];
            proof {
                assert(w.take(i as int + 1) =~= w.take(i as int).push(wt));
                assert(wt == (value as int, terms@[i as int].1@));
            }
            if residue != 0 {
                let t = Term { coeff: Felt { value: residue }, mono: Monomial::from_exps(terms[i].1.clone()) };
                proof {
                    assert(t.mono@ == terms@[i as int].1@);
                }
                out.push(t);
                proof {
                    assert(views(out@) =~= views(before).push(t@));
                    let s = views(out@);
                    assert forall|k: int| 0 <= k < s.len() implies 0 < #[trigger] s[k].0 < pi && s[k].1.len()
                        == nv by {
                        if k < s.len() - 1 {
                            assert(s[k] == views(before)[k]);
                        }
                    }
                    assert forall|m: Seq<u16>| #[trigger] coeff_at(views(out@), m) % pi == coeff_at(
                        w.take(i as int + 1),
                        m,
                    ) % pi by {
                        lemma_coeff_at_push(views(before), t@, m);
                        lemma_coeff_at_push(w.take(i as int), wt, m);
                        lemma_add_mod_noop(coeff_at(views(before), m), term_value(t@, m), pi);
                        lemma_add_mod_noop(coeff_at(w.take(i as int), m), term_value(wt, m), pi);
                        assert(coeff_at(views(before), m) % pi == coeff_at(w.take(i as int), m) % pi);
                        assert(t@.1 == wt.1);
                        if wt.1 == m {
                            assert(term_value(t@, m) == residue);
                            assert(term_value(wt, m) == value);
                            lemma_small_mod(residue as nat, pi as nat);
                            assert(term_value(t@, m) % pi == term_value(wt, m) % pi);
                        } else {
                            assert(term_value(t@, m) == 0);
                            assert(term_value(wt, m) == 0);
                        }
                    }
                }
            } else {
                proof {
                    assert forall|m: Seq<u16>| #[trigger] coeff_at(views(out@), m) % pi == coeff_at(
                        w.take(i as int + 1),
                        m,
                    ) % pi by {
                        lemma_coeff_at_push(w.take(i as int), wt, m);
                        lemma_add_mod_noop(coeff_at(w.take(i as int), m), term_value(wt, m), pi);
                        lemma_small_mod(0, pi as nat);
                        let b = coeff_at(w.take(i as int), m);
                        assert(term_value(wt, m) % pi == 0);
                        lemma_mod_bound(b, pi);
                        lemma_small_mod((b % pi) as nat, pi as nat);
                        assert(coeff_at(views(out@), m) % pi == b % pi);
                    }
                }
            }
            proof {
                assert forall|j: int| 0 <= j < i + 1 implies (#[trigger] terms@.take(i as int + 1)[j]).1@.len()
                    == nv by {
                    if j < i {
                        assert(terms@.take(i as int)[j] == terms@[j]);
                    }
                }
            }
            i += 1;
        }
        proof {
            assert(w.take(i as int) =~= w);
            assert(terms@.take(i as int) =~= terms@);
        }
        let merged = match merge_product_terms(out, p, Ghost(nv), &ComputeLimits::none()) {
            Ok(t) => t,
            Err(_) => Vec::new(),
        };
        Ok(Polynomial { ring: *self, terms: merged })
    }
}


/// `x`, or `usize::MAX` when it does not fit.
pub open spec fn saturated(x: int) -> int {
    if x <= usize::MAX {
        x
    } else {
        usize::MAX as int
    }
}

/// The heap bytes one term of `nvars` variables costs: its own size and
/// its exponents.
pub open spec fn term_heap_bytes(nvars: int) -> int {
    saturated(size_of::<Term>() + saturated(nvars * 2))
}

/// The bytes the exponents of one term of `nvars` variables hold on the
/// heap, saturating at `usize::MAX`.
pub fn heap_exps_bytes(nvars: usize) -> (n: usize)
    ensures
        n == saturated(nvars * 2),
{
    match nvars.checked_mul(2) {
        Some(n) => n,
        None => usize::MAX,
    }
}

impl Polynomial {
    /// The heap bytes of the terms, saturating at `usize::MAX`.
    pub fn heap_bytes(&self) -> (n: usize)
        ensures
            n == saturated(self@.len() * term_heap_bytes(self.ring.nvars as int)),
    {
        let exps = heap_exps_bytes(self.ring.nvars);
        let per_term = match size_of::<Term>().checked_add(exps) {
            Some(n) => n,
            None => usize::MAX,
        };
        let n = match self.terms.len().checked_mul(per_term) {
            Some(n) => n,
            None => usize::MAX,
        };
        proof {
            if per_term == usize::MAX && size_of::<Term>() + exps > usize::MAX {
                assert(self@.len() * term_heap_bytes(self.ring.nvars as int) == self@.len() * usize::MAX);
                if self@.len() > 1 {
                    assert(self@.len() * usize::MAX > usize::MAX) by (nonlinear_arith)
                        requires
                            self@.len() > 1,
                    ;
                }
            }
        }
        n
    }
}

} // verus!
