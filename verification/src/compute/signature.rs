//! Module signatures and the labeled polynomials that carry them.

use vstd::prelude::*;

use crate::monomial::{
    Monomial,
    divides_spec,
    grevlex_less,
    shifted_exps,
    wide_grevlex_less,
    widened,
};
use crate::poly::Polynomial;

verus! {

/// The module monomial that labels one polynomial: the generator index
/// and the term that multiplies it.
#[derive(Clone, Debug, PartialEq, Eq)]
pub struct Signature {
    pub index: usize,
    pub term: Monomial,
}

impl View for Signature {
    type V = (usize, Seq<u16>);

    open spec fn view(&self) -> (usize, Seq<u16>) {
        (self.index, self.term@)
    }
}

/// Position over term: the index decides first, the term second.
pub open spec fn sig_less(a: (usize, Seq<u16>), b: (usize, Seq<u16>)) -> bool {
    a.0 < b.0 || (a.0 == b.0 && grevlex_less(a.1, b.1))
}

/// `sig * num / den` comes before `target`, position over term.
pub open spec fn shifted_below(
    sig: (usize, Seq<u16>),
    num: Seq<u16>,
    den: Seq<u16>,
    target: (usize, Seq<u16>),
) -> bool {
    sig.0 < target.0 || (sig.0 == target.0 && wide_grevlex_less(
        shifted_exps(sig.1, num, den),
        widened(target.1),
    ))
}

impl Signature {
    /// A copy with the same index and term.
    pub fn copy(&self) -> (s: Signature)
        ensures
            s@ == self@,
    {
        Signature { index: self.index, term: self.term.copy() }
    }

    /// Report whether this signature comes before `other`, position over
    /// term.
    pub fn less_than(&self, other: &Signature) -> (b: bool)
        requires
            self.term@.len() == other.term@.len(),
        ensures
            b == sig_less(self@, other@),
    {
        if self.index != other.index {
            return self.index < other.index;
        }
        self.term.less_than(&other.term)
    }

    /// Report whether `self * (num / den)` is below `target`.
    ///
    /// This is the regular reduction test of F5: a reducer may cancel a
    /// leading term only while its own signature stays below the signature
    /// of the polynomial it reduces. The order is position over term, so
    /// the index decides first and the term multiple is never built.
    pub fn shifted_is_below(&self, num: &Monomial, den: &Monomial, target: &Signature) -> (b: bool)
        requires
            self.term@.len() == num@.len(),
            num@.len() == den@.len(),
            den@.len() == target.term@.len(),
            divides_spec(den@, num@),
        ensures
            b == shifted_below(self@, num@, den@, target@),
    {
        if self.index != target.index {
            return self.index < target.index;
        }
        self.term.shifted_less(num, den, &target.term)
    }
}

/// One polynomial with its signature and its place in the basis.
#[derive(Clone, Debug)]
pub struct LabeledPoly {
    pub sig: Signature,
    pub poly: Polynomial,
    pub index: usize,
}

} // verus!
