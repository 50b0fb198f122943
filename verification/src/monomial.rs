//! Exponent vectors and the graded reverse lexicographic order.

use vstd::prelude::*;

verus! {

/// The total degree of an exponent vector.
pub open spec fn degree_of(e: Seq<u16>) -> int
    decreases e.len(),
{
    if e.len() == 0 {
        0
    } else {
        degree_of(e.drop_last()) + e.last() as int
    }
}

/// The reverse lexicographic tie-break: `a` comes first when, at the last
/// variable where the two differ, `a` holds the larger exponent.
pub open spec fn revlex_less(a: Seq<u16>, b: Seq<u16>) -> bool
    decreases a.len(),
{
    if a.len() == 0 || b.len() == 0 {
        false
    } else if a.last() != b.last() {
        a.last() > b.last()
    } else {
        revlex_less(a.drop_last(), b.drop_last())
    }
}

/// Grevlex: the total degree decides first, the reverse lexicographic
/// tie-break second.
pub open spec fn grevlex_less(a: Seq<u16>, b: Seq<u16>) -> bool {
    degree_of(a) < degree_of(b) || (degree_of(a) == degree_of(b) && revlex_less(a, b))
}

/// `d` divides `m` exponent by exponent.
pub open spec fn divides_spec(d: Seq<u16>, m: Seq<u16>) -> bool {
    d.len() == m.len() && forall|k: int| 0 <= k < d.len() ==> d[k] <= m[k]
}

/// The product of two exponent vectors exists in `u16` lanes.
pub open spec fn product_fits(a: Seq<u16>, b: Seq<u16>) -> bool {
    forall|k: int| 0 <= k < a.len() && k < b.len() ==> a[k] + b[k] <= u16::MAX
}

/// The exponent-wise sum, truncated to the shorter vector.
pub open spec fn mono_mul(a: Seq<u16>, b: Seq<u16>) -> Seq<u16> {
    Seq::new(
        if a.len() <= b.len() {
            a.len()
        } else {
            b.len()
        },
        |k: int| (a[k] + b[k]) as u16,
    )
}

/// The exponent-wise difference `m - d`.
pub open spec fn mono_div(m: Seq<u16>, d: Seq<u16>) -> Seq<u16> {
    Seq::new(m.len(), |k: int| (m[k] - d[k]) as u16)
}

/// The exponent-wise maximum.
pub open spec fn mono_lcm(a: Seq<u16>, b: Seq<u16>) -> Seq<u16> {
    Seq::new(
        a.len(),
        |k: int|
            if a[k] >= b[k] {
                a[k]
            } else {
                b[k]
            },
    )
}

/// No variable occurs in both monomials.
pub open spec fn coprime_spec(a: Seq<u16>, b: Seq<u16>) -> bool {
    forall|k: int| 0 <= k < a.len() && k < b.len() ==> a[k] == 0 || b[k] == 0
}

pub proof fn lemma_degree_nonneg(e: Seq<u16>)
    ensures
        degree_of(e) >= 0,
        degree_of(e) <= e.len() * u16::MAX,
    decreases e.len(),
{
    if e.len() > 0 {
        lemma_degree_nonneg(e.drop_last());
    }
}

pub proof fn lemma_revlex_irreflexive(a: Seq<u16>)
    ensures
        !revlex_less(a, a),
    decreases a.len(),
{
    if a.len() > 0 {
        lemma_revlex_irreflexive(a.drop_last());
    }
}

pub proof fn lemma_revlex_asymmetric(a: Seq<u16>, b: Seq<u16>)
    requires
        revlex_less(a, b),
    ensures
        !revlex_less(b, a),
    decreases a.len(),
{
    if a.len() > 0 && b.len() > 0 && a.last() == b.last() {
        lemma_revlex_asymmetric(a.drop_last(), b.drop_last());
    }
}

pub proof fn lemma_revlex_transitive(a: Seq<u16>, b: Seq<u16>, c: Seq<u16>)
    requires
        a.len() == b.len(),
        b.len() == c.len(),
        revlex_less(a, b),
        revlex_less(b, c),
    ensures
        revlex_less(a, c),
    decreases a.len(),
{
    if a.last() == b.last() && b.last() == c.last() {
        lemma_revlex_transitive(a.drop_last(), b.drop_last(), c.drop_last());
    }
}

pub proof fn lemma_revlex_total(a: Seq<u16>, b: Seq<u16>)
    requires
        a.len() == b.len(),
        a != b,
    ensures
        revlex_less(a, b) || revlex_less(b, a),
    decreases a.len(),
{
    if a.len() == 0 {
        assert(a =~= b);
    } else if a.last() == b.last() {
        if a.drop_last() == b.drop_last() {
            assert(a =~= b.drop_last().push(b.last()));
            assert(b =~= b.drop_last().push(b.last()));
        }
        lemma_revlex_total(a.drop_last(), b.drop_last());
    }
}

/// Grevlex is a strict total order on vectors of one width.
pub proof fn lemma_grevlex_irreflexive(a: Seq<u16>)
    ensures
        !grevlex_less(a, a),
{
    lemma_revlex_irreflexive(a);
}

pub proof fn lemma_grevlex_asymmetric(a: Seq<u16>, b: Seq<u16>)
    requires
        grevlex_less(a, b),
    ensures
        !grevlex_less(b, a),
{
    if degree_of(a) == degree_of(b) {
        lemma_revlex_asymmetric(a, b);
    }
}

pub proof fn lemma_grevlex_transitive(a: Seq<u16>, b: Seq<u16>, c: Seq<u16>)
    requires
        a.len() == b.len(),
        b.len() == c.len(),
        grevlex_less(a, b),
        grevlex_less(b, c),
    ensures
        grevlex_less(a, c),
{
    if degree_of(a) == degree_of(b) && degree_of(b) == degree_of(c) {
        lemma_revlex_transitive(a, b, c);
    }
}

pub proof fn lemma_grevlex_total(a: Seq<u16>, b: Seq<u16>)
    requires
        a.len() == b.len(),
        a != b,
    ensures
        grevlex_less(a, b) || grevlex_less(b, a),
{
    lemma_revlex_total(a, b);
}

/// The degree of a product is the sum of the degrees.
pub proof fn lemma_degree_mul(a: Seq<u16>, b: Seq<u16>)
    requires
        a.len() == b.len(),
        product_fits(a, b),
    ensures
        degree_of(mono_mul(a, b)) == degree_of(a) + degree_of(b),
    decreases a.len(),
{
    if a.len() > 0 {
        let n = (a.len() - 1) as int;
        assert(mono_mul(a, b).drop_last() =~= mono_mul(a.drop_last(), b.drop_last()));
        lemma_degree_mul(a.drop_last(), b.drop_last());
    }
}

/// Multiplying by a common factor keeps the order.
pub proof fn lemma_revlex_mul(a: Seq<u16>, b: Seq<u16>, c: Seq<u16>)
    requires
        a.len() == b.len(),
        b.len() == c.len(),
        product_fits(a, c),
        product_fits(b, c),
    ensures
        revlex_less(a, b) == revlex_less(mono_mul(a, c), mono_mul(b, c)),
    decreases a.len(),
{
    if a.len() > 0 {
        assert(mono_mul(a, c).drop_last() =~= mono_mul(a.drop_last(), c.drop_last()));
        assert(mono_mul(b, c).drop_last() =~= mono_mul(b.drop_last(), c.drop_last()));
        lemma_revlex_mul(a.drop_last(), b.drop_last(), c.drop_last());
    }
}

pub proof fn lemma_grevlex_mul(a: Seq<u16>, b: Seq<u16>, c: Seq<u16>)
    requires
        a.len() == b.len(),
        b.len() == c.len(),
        product_fits(a, c),
        product_fits(b, c),
    ensures
        grevlex_less(a, b) == grevlex_less(mono_mul(a, c), mono_mul(b, c)),
{
    lemma_degree_mul(a, c);
    lemma_degree_mul(b, c);
    lemma_revlex_mul(a, b, c);
}

/// The weight of lane `k` in a rank: `65536^k`.
pub open spec fn lane_weight(k: nat) -> nat
    decreases k,
{
    if k == 0 {
        1
    } else {
        65536 * lane_weight((k - 1) as nat)
    }
}

/// The reverse lexicographic rank: lane `k` holds `65535 - e[k]` in base
/// 65536, so a larger exponent in a later variable gives a smaller rank.
pub open spec fn revlex_rank(e: Seq<u16>) -> nat
    decreases e.len(),
{
    if e.len() == 0 {
        0
    } else {
        revlex_rank(e.drop_last()) + (65535 - e.last()) as nat * lane_weight((e.len() - 1) as nat)
    }
}

/// A rank of exponent vectors of one width that grevlex orders.
pub open spec fn grevlex_rank(e: Seq<u16>) -> nat {
    degree_of(e) as nat * lane_weight(e.len()) + revlex_rank(e)
}

pub proof fn lemma_lane_weight_positive(k: nat)
    ensures
        lane_weight(k) >= 1,
    decreases k,
{
    if k > 0 {
        lemma_lane_weight_positive((k - 1) as nat);
    }
}

/// A reverse lexicographic rank stays below the weight of the next lane.
pub proof fn lemma_revlex_rank_bound(e: Seq<u16>)
    ensures
        revlex_rank(e) < lane_weight(e.len()),
    decreases e.len(),
{
    if e.len() > 0 {
        let n = (e.len() - 1) as nat;
        lemma_revlex_rank_bound(e.drop_last());
        let w = lane_weight(n);
        let d = (65535 - e.last()) as nat;
        assert(e.drop_last().len() == n);
        assert(d * w <= 65535 * w) by (nonlinear_arith)
            requires
                d <= 65535,
        ;
        assert(lane_weight(e.len()) == 65536 * w);
    }
}

/// Reverse lexicographic order is rank order.
pub proof fn lemma_revlex_rank_less(a: Seq<u16>, b: Seq<u16>)
    requires
        a.len() == b.len(),
        revlex_less(a, b),
    ensures
        revlex_rank(a) < revlex_rank(b),
    decreases a.len(),
{
    let n = (a.len() - 1) as nat;
    let w = lane_weight(n);
    let da = (65535 - a.last()) as nat;
    let db = (65535 - b.last()) as nat;
    if a.last() != b.last() {
        lemma_revlex_rank_bound(a.drop_last());
        assert(a.drop_last().len() == n);
        assert(da + 1 <= db);
        assert(revlex_rank(a.drop_last()) + da * w < (da + 1) * w) by (nonlinear_arith)
            requires
                revlex_rank(a.drop_last()) < w,
        ;
        assert((da + 1) * w <= db * w) by (nonlinear_arith)
            requires
                da + 1 <= db,
        ;
    } else {
        lemma_revlex_rank_less(a.drop_last(), b.drop_last());
    }
}

/// Grevlex order is rank order.
pub proof fn lemma_grevlex_rank_less(a: Seq<u16>, b: Seq<u16>)
    requires
        a.len() == b.len(),
        grevlex_less(a, b),
    ensures
        grevlex_rank(a) < grevlex_rank(b),
{
    let w = lane_weight(a.len());
    lemma_degree_nonneg(a);
    lemma_degree_nonneg(b);
    if degree_of(a) < degree_of(b) {
        lemma_revlex_rank_bound(a);
        let da = degree_of(a) as nat;
        let db = degree_of(b) as nat;
        assert(da * w + revlex_rank(a) < (da + 1) * w) by (nonlinear_arith)
            requires
                revlex_rank(a) < w,
        ;
        assert((da + 1) * w <= db * w) by (nonlinear_arith)
            requires
                da + 1 <= db,
        ;
    } else {
        lemma_revlex_rank_less(a, b);
    }
}

/// One exponent never passes the total degree.
pub proof fn lemma_exponent_below_degree(e: Seq<u16>, k: int)
    requires
        0 <= k < e.len(),
    ensures
        e[k] <= degree_of(e),
    decreases e.len(),
{
    lemma_degree_nonneg(e.drop_last());
    if k < e.len() - 1 {
        lemma_exponent_below_degree(e.drop_last(), k);
    }
}

/// The total degree of a vector of integers.
pub open spec fn wide_degree(e: Seq<int>) -> int
    decreases e.len(),
{
    if e.len() == 0 {
        0
    } else {
        wide_degree(e.drop_last()) + e.last()
    }
}

/// The reverse lexicographic tie-break over vectors of integers.
pub open spec fn wide_revlex_less(a: Seq<int>, b: Seq<int>) -> bool
    decreases a.len(),
{
    if a.len() == 0 || b.len() == 0 {
        false
    } else if a.last() != b.last() {
        a.last() > b.last()
    } else {
        wide_revlex_less(a.drop_last(), b.drop_last())
    }
}

/// Grevlex over vectors of integers.
pub open spec fn wide_grevlex_less(a: Seq<int>, b: Seq<int>) -> bool {
    wide_degree(a) < wide_degree(b) || (wide_degree(a) == wide_degree(b) && wide_revlex_less(a, b))
}

/// `term * num / den`, exponent by exponent, without truncation.
pub open spec fn shifted_exps(term: Seq<u16>, num: Seq<u16>, den: Seq<u16>) -> Seq<int> {
    Seq::new(term.len(), |k: int| term[k] + num[k] - den[k])
}

/// An exponent vector read as integers.
pub open spec fn widened(e: Seq<u16>) -> Seq<int> {
    Seq::new(e.len(), |k: int| e[k] as int)
}

/// The total degree of a vector of `u64` values.
fn wide_total(e: &Vec<u64>) -> (d: u128)
    requires
        forall|k: int| 0 <= k < e@.len() ==> e@[k] <= 0x1_0000_0000,
    ensures
        d as int == wide_degree(Seq::new(e@.len(), |k: int| e@[k] as int)),
{
    let ghost w = Seq::new(e@.len(), |k: int| e@[k] as int);
    let mut sum: u128 = 0;
    let mut i: usize = 0;
    while i < e.len()
        invariant
            w == Seq::new(e@.len(), |k: int| e@[k] as int),
            forall|k: int| 0 <= k < e@.len() ==> e@[k] <= 0x1_0000_0000,
            i <= e@.len(),
            sum as int == wide_degree(w.take(i as int)),
            sum <= i * 0x1_0000_0000,
        decreases e@.len() - i,
    {
        proof {
            assert(w.take(i as int + 1).drop_last() =~= w.take(i as int));
            assert(w.take(i as int + 1).last() == e@[i as int] as int);
            assert(i * 0x1_0000_0000 + 0x1_0000_0000 <= usize::MAX * 0x1_0000_0000 + 0x1_0000_0000) by (nonlinear_arith)
                requires
                    i <= usize::MAX,
            ;
        }
        sum = sum + e[i] as u128;
        i += 1;
    }
    assert(w.take(i as int) =~= w);
    sum
}

/// Report whether `a` comes before `b` under grevlex over integers.
fn wide_less(a: &Vec<u64>, b: &Vec<u64>) -> (r: bool)
    requires
        a@.len() == b@.len(),
        forall|k: int| 0 <= k < a@.len() ==> a@[k] <= 0x1_0000_0000,
        forall|k: int| 0 <= k < b@.len() ==> b@[k] <= 0x1_0000_0000,
    ensures
        r == wide_grevlex_less(
            Seq::new(a@.len(), |k: int| a@[k] as int),
            Seq::new(b@.len(), |k: int| b@[k] as int),
        ),
{
    let ghost wa = Seq::new(a@.len(), |k: int| a@[k] as int);
    let ghost wb = Seq::new(b@.len(), |k: int| b@[k] as int);
    let left = wide_total(a);
    let right = wide_total(b);
    if left != right {
        return left < right;
    }
    let n = a.len();
    let mut i: usize = n;
    assert(wa.take(n as int) =~= wa);
    assert(wb.take(n as int) =~= wb);
    while i > 0
        invariant
            i <= n,
            n == a@.len(),
            n == b@.len(),
            wa == Seq::new(a@.len(), |k: int| a@[k] as int),
            wb == Seq::new(b@.len(), |k: int| b@[k] as int),
            left as int == wide_degree(wa),
            right as int == wide_degree(wb),
            left == right,
            wide_revlex_less(wa, wb) == wide_revlex_less(wa.take(i as int), wb.take(i as int)),
        decreases i,
    {
        let x = a[i - 1];
        let y = b[i - 1];
        proof {
            assert(wa.take(i as int).drop_last() =~= wa.take(i as int - 1));
            assert(wb.take(i as int).drop_last() =~= wb.take(i as int - 1));
            assert(wa.take(i as int).last() == x as int);
            assert(wb.take(i as int).last() == y as int);
        }
        if x != y {
            assert(wide_revlex_less(wa.take(i as int), wb.take(i as int)) == (x > y));
            return x > y;
        }
        i -= 1;
    }
    false
}

impl Monomial {
    /// Report whether `self * num / den` comes before `target` under
    /// grevlex. The product is never built, so no exponent can pass the
    /// width of one lane.
    pub fn shifted_less(&self, num: &Monomial, den: &Monomial, target: &Monomial) -> (r: bool)
        requires
            self@.len() == num@.len(),
            num@.len() == den@.len(),
            den@.len() == target@.len(),
            divides_spec(den@, num@),
        ensures
            r == wide_grevlex_less(shifted_exps(self@, num@, den@), widened(target@)),
    {
        let n = self.exps.len();
        let mut left: Vec<u64> = Vec::new();
        let mut right: Vec<u64> = Vec::new();
        let mut k: usize = 0;
        while k < n
            invariant
                n == self@.len(),
                self@.len() == num@.len(),
                num@.len() == den@.len(),
                den@.len() == target@.len(),
                divides_spec(den@, num@),
                k <= n,
                left@.len() == k,
                right@.len() == k,
                forall|j: int| 0 <= j < k ==> left@[j] == self@[j] + num@[j] - den@[j],
                forall|j: int| 0 <= j < k ==> right@[j] == target@[j],
            decreases n - k,
        {
            left.push(self.exps[k] as u64 + (num.exps[k] - den.exps[k]) as u64);
            right.push(target.exps[k] as u64);
            k += 1;
        }
        let r = wide_less(&left, &right);
        proof {
            assert(Seq::new(left@.len(), |j: int| left@[j] as int) =~= shifted_exps(self@, num@, den@));
            assert(Seq::new(right@.len(), |j: int| right@[j] as int) =~= widened(target@));
        }
        r
    }
}

/// Each monomial divides the least common multiple of the two.
pub proof fn lemma_divides_lcm(a: Seq<u16>, b: Seq<u16>)
    requires
        a.len() == b.len(),
    ensures
        divides_spec(a, mono_lcm(a, b)),
        divides_spec(b, mono_lcm(a, b)),
{
}

/// A divisor never comes after its multiple.
pub proof fn lemma_divisor_not_greater(d: Seq<u16>, m: Seq<u16>)
    requires
        divides_spec(d, m),
    ensures
        !grevlex_less(m, d),
        degree_of(d) <= degree_of(m),
        degree_of(d) == degree_of(m) ==> d == m,
    decreases d.len(),
{
    if d.len() > 0 {
        lemma_divisor_not_greater(d.drop_last(), m.drop_last());
        assert(d.last() <= m.last());
        if degree_of(d) == degree_of(m) {
            assert(degree_of(d.drop_last()) == degree_of(m.drop_last()));
            assert(d.drop_last() == m.drop_last());
            assert(d =~= d.drop_last().push(d.last()));
            assert(m =~= m.drop_last().push(m.last()));
        }
    } else {
        assert(d =~= m);
    }
    if degree_of(d) == degree_of(m) {
        lemma_revlex_irreflexive(d);
    }
}

/// Exponent vectors of one width.
#[derive(Clone, Debug, PartialEq, Eq, Hash)]
pub struct Monomial {
    pub exps: Vec<u16>,
}

impl View for Monomial {
    type V = Seq<u16>;

    open spec fn view(&self) -> Seq<u16> {
        self.exps@
    }
}

impl Monomial {
    /// The monomial with these exponents.
    pub fn from_exps(exps: Vec<u16>) -> (m: Monomial)
        ensures
            m@ == exps@,
    {
        Monomial { exps }
    }

    /// The monomial 1 in `nvars` variables.
    pub fn one(nvars: usize) -> (m: Monomial)
        ensures
            m@ =~= Seq::new(nvars as nat, |k: int| 0u16),
    {
        let mut exps: Vec<u16> = Vec::new();
        let mut i: usize = 0;
        while i < nvars
            invariant
                i <= nvars,
                exps@ =~= Seq::new(i as nat, |k: int| 0u16),
            decreases nvars - i,
        {
            exps.push(0);
            i += 1;
        }
        Monomial { exps }
    }

    /// The number of variables.
    pub fn nvars(&self) -> (n: usize)
        ensures
            n == self@.len(),
    {
        self.exps.len()
    }

    /// A copy with the same exponents.
    pub fn copy(&self) -> (m: Monomial)
        ensures
            m@ == self@,
    {
        let exps = self.exps.clone();
        assert(exps@ =~= self.exps@);
        Monomial { exps }
    }

    /// The total degree.
    pub fn total_degree(&self) -> (d: u128)
        ensures
            d as int == degree_of(self@),
    {
        let mut sum: u128 = 0;
        let mut i: usize = 0;
        while i < self.exps.len()
            invariant
                i <= self.exps.len(),
                sum as int == degree_of(self@.take(i as int)),
                sum <= i * 65535,
            decreases self.exps.len() - i,
        {
            proof {
                assert(self@.take(i as int + 1).drop_last() =~= self@.take(i as int));
            }
            sum = sum + self.exps[i] as u128;
            i += 1;
        }
        assert(self@.take(i as int) =~= self@);
        sum
    }

    /// Report whether the two exponent vectors are equal.
    pub fn equals(&self, other: &Monomial) -> (b: bool)
        ensures
            b == (self@ == other@),
    {
        if self.exps.len() != other.exps.len() {
            return false;
        }
        let mut i: usize = 0;
        while i < self.exps.len()
            invariant
                i <= self.exps.len(),
                self.exps.len() == other.exps.len(),
                forall|k: int| 0 <= k < i ==> self@[k] == other@[k],
            decreases self.exps.len() - i,
        {
            if self.exps[i] != other.exps[i] {
                return false;
            }
            i += 1;
        }
        assert(self@ =~= other@);
        true
    }

    /// Report whether `self` comes before `other` under grevlex.
    pub fn less_than(&self, other: &Monomial) -> (b: bool)
        requires
            self@.len() == other@.len(),
        ensures
            b == grevlex_less(self@, other@),
    {
        let left = self.total_degree();
        let right = other.total_degree();
        if left != right {
            return left < right;
        }
        let n = self.exps.len();
        let mut i: usize = n;
        assert(self@.take(n as int) =~= self@);
        assert(other@.take(n as int) =~= other@);
        while i > 0
            invariant
                i <= n,
                n == self@.len(),
                n == other@.len(),
                left as int == degree_of(self@),
                right as int == degree_of(other@),
                left == right,
                revlex_less(self@, other@) == revlex_less(self@.take(i as int), other@.take(i as int)),
            decreases i,
        {
            let a = self.exps[i - 1];
            let b = other.exps[i - 1];
            proof {
                assert(self@.take(i as int).drop_last() =~= self@.take(i as int - 1));
                assert(other@.take(i as int).drop_last() =~= other@.take(i as int - 1));
                assert(self@.take(i as int).last() == a);
                assert(other@.take(i as int).last() == b);
            }
            if a != b {
                assert(revlex_less(self@.take(i as int), other@.take(i as int)) == (a > b));
                return a > b;
            }
            i -= 1;
        }
        false
    }

    /// The product, or `None` when an exponent passes `u16::MAX`.
    pub fn checked_mul(&self, other: &Monomial) -> (m: Option<Monomial>)
        requires
            self@.len() == other@.len(),
        ensures
            m is Some <==> product_fits(self@, other@),
            m matches Some(m) ==> m@ == mono_mul(self@, other@),
    {
        let mut exps: Vec<u16> = Vec::new();
        let mut i: usize = 0;
        while i < self.exps.len()
            invariant
                i <= self.exps.len(),
                self@.len() == other@.len(),
                exps@.len() == i,
                forall|k: int| 0 <= k < i ==> self@[k] + other@[k] <= u16::MAX,
                forall|k: int| 0 <= k < i ==> exps@[k] == self@[k] + other@[k],
            decreases self.exps.len() - i,
        {
            let a = self.exps[i];
            let b = other.exps[i];
            match a.checked_add(b) {
                Some(sum) => exps.push(sum),
                None => {
                    return None;
                },
            }
            i += 1;
        }
        let m = Monomial { exps };
        assert(m@ =~= mono_mul(self@, other@));
        Some(m)
    }

    /// Report whether `self` divides `other`.
    pub fn divides(&self, other: &Monomial) -> (b: bool)
        ensures
            b == divides_spec(self@, other@),
    {
        if self.exps.len() != other.exps.len() {
            return false;
        }
        let mut i: usize = 0;
        while i < self.exps.len()
            invariant
                i <= self.exps.len(),
                self@.len() == other@.len(),
                forall|k: int| 0 <= k < i ==> self@[k] <= other@[k],
            decreases self.exps.len() - i,
        {
            if self.exps[i] > other.exps[i] {
                return false;
            }
            i += 1;
        }
        true
    }

    /// `self / divisor`, or `None` when `divisor` does not divide `self`.
    pub fn quotient(&self, divisor: &Monomial) -> (m: Option<Monomial>)
        ensures
            m is Some <==> divides_spec(divisor@, self@),
            m matches Some(m) ==> m@ == mono_div(self@, divisor@),
    {
        if !divisor.divides(self) {
            return None;
        }
        let mut exps: Vec<u16> = Vec::new();
        let mut i: usize = 0;
        while i < self.exps.len()
            invariant
                i <= self.exps.len(),
                divides_spec(divisor@, self@),
                exps@.len() == i,
                forall|k: int| 0 <= k < i ==> exps@[k] == self@[k] - divisor@[k],
            decreases self.exps.len() - i,
        {
            exps.push(self.exps[i] - divisor.exps[i]);
            i += 1;
        }
        let m = Monomial { exps };
        assert(m@ =~= mono_div(self@, divisor@));
        Some(m)
    }

    /// The least common multiple.
    pub fn lcm(&self, other: &Monomial) -> (m: Monomial)
        requires
            self@.len() == other@.len(),
        ensures
            m@ == mono_lcm(self@, other@),
    {
        let mut exps: Vec<u16> = Vec::new();
        let mut i: usize = 0;
        while i < self.exps.len()
            invariant
                i <= self.exps.len(),
                self@.len() == other@.len(),
                exps@.len() == i,
                forall|k: int|
                    0 <= k < i ==> exps@[k] == (if self@[k] >= other@[k] {
                        self@[k]
                    } else {
                        other@[k]
                    }),
            decreases self.exps.len() - i,
        {
            let a = self.exps[i];
            let b = other.exps[i];
            exps.push(if a >= b { a } else { b });
            i += 1;
        }
        let m = Monomial { exps };
        assert(m@ =~= mono_lcm(self@, other@));
        m
    }

    /// Report whether no variable occurs in both monomials.
    pub fn is_coprime(&self, other: &Monomial) -> (b: bool)
        ensures
            b == coprime_spec(self@, other@),
    {
        let mut i: usize = 0;
        while i < self.exps.len() && i < other.exps.len()
            invariant
                i <= self.exps.len(),
                forall|k: int| 0 <= k < i && k < other@.len() ==> self@[k] == 0 || other@[k] == 0,
            decreases self.exps.len() - i,
        {
            if self.exps[i] != 0 && other.exps[i] != 0 {
                return false;
            }
            i += 1;
        }
        true
    }
}

} // verus!
