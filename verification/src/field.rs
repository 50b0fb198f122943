//! Residues modulo a prime below 2^31.

use vstd::arithmetic::div_mod::*;
use vstd::arithmetic::mul::*;
use vstd::prelude::*;

verus! {

/// The exclusive upper bound on a modulus, 2^31.
pub const MODULUS_LIMIT: u64 = 0x8000_0000;

/// `n` is a prime number.
pub open spec fn is_prime(n: nat) -> bool {
    n >= 2 && forall|d: nat| 1 < d < n ==> #[trigger] (n % d) != 0
}

/// A modulus a prime-field ring accepts: a prime below 2^31.
pub open spec fn valid_modulus(p: u64) -> bool {
    2 <= p < MODULUS_LIMIT && is_prime(p as nat)
}

/// `d` divides both `x` and `y`.
pub open spec fn common_divisor(d: int, x: int, y: int) -> bool {
    x % d == 0 && y % d == 0
}

proof fn lemma_small_factor(n: int, k: int, d: int)
    requires
        1 < k < n,
        n % k == 0,
        k >= d,
        d > 1,
        d * d > n,
    ensures
        1 < n / k < d,
        n % (n / k) == 0,
{
    lemma_fundamental_div_mod(n, k);
    let e = n / k;
    assert(n == k * e);
    assert(e > 1) by (nonlinear_arith)
        requires
            n == k * e,
            1 < k < n,
    ;
    assert(e < d) by (nonlinear_arith)
        requires
            n == k * e,
            k >= d,
            d * d > n,
            d > 1,
            e > 1,
    ;
    assert(n == e * k) by (nonlinear_arith)
        requires
            n == k * e,
    ;
    lemma_mod_multiples_basic(k, e);
}

/// Report whether `n` is prime, by trial division up to its square root.
pub fn is_prime_u64(n: u64) -> (b: bool)
    ensures
        b == is_prime(n as nat),
{
    if n < 2 {
        return false;
    }
    let mut d: u64 = 2;
    while d <= n / d
        invariant
            2 <= d,
            d <= n,
            n >= 2,
            forall|k: nat| 1 < k < d ==> #[trigger] ((n as nat) % k) != 0,
        decreases n - d,
    {
        if n % d == 0 {
            assert(d < n) by {
                assert(d * d <= n) by (nonlinear_arith)
                    requires
                        d <= n / d,
                        d >= 2,
                ;
                assert(d < d * d) by (nonlinear_arith)
                    requires
                        d >= 2,
                ;
            }
            assert((n as nat) % (d as nat) == 0);
            return false;
        }
        assert(d + 1 <= n) by {
            assert(d * d <= n) by (nonlinear_arith)
                requires
                    d <= n / d,
                    d >= 2,
            ;
            assert(d < d * d) by (nonlinear_arith)
                requires
                    d >= 2,
            ;
        }
        d += 1;
    }
    assert(d * d > n) by (nonlinear_arith)
        requires
            d > n / d,
            d >= 2,
    {
        lemma_fundamental_div_mod(n as int, d as int);
    }
    assert forall|k: nat| 1 < k < n implies #[trigger] ((n as nat) % k) != 0 by {
        if k >= d && (n as nat) % k == 0 {
            lemma_small_factor(n as int, k as int, d as int);
            let e = (n as int / k as int) as nat;
            assert((n as nat) % e != 0);
        }
    }
    true
}

proof fn lemma_no_common_divisor_start(p: int, a: int)
    requires
        is_prime(p as nat),
        0 < a < p,
    ensures
        forall|d: int| d > 1 ==> !#[trigger] common_divisor(d, p, a),
{
    assert forall|d: int| d > 1 implies !#[trigger] common_divisor(d, p, a) by {
        if common_divisor(d, p, a) {
            if d < p {
                assert((p as nat) % (d as nat) != 0);
            } else if d == p {
                lemma_small_mod(a as nat, p as nat);
            } else {
                lemma_small_mod(p as nat, d as nat);
            }
        }
    }
}

proof fn lemma_common_divisor_step(r0: int, r1: int, d: int)
    requires
        r1 > 0,
        r0 >= 0,
        d > 1,
        common_divisor(d, r1, r0 % r1),
    ensures
        common_divisor(d, r0, r1),
{
    lemma_fundamental_div_mod(r0, r1);
    lemma_fundamental_div_mod(r1, d);
    lemma_fundamental_div_mod(r0 % r1, d);
    let q = r0 / r1;
    let x = r1 / d;
    let y = (r0 % r1) / d;
    assert(r0 == d * (q * x + y)) by (nonlinear_arith)
        requires
            r0 == r1 * q + r0 % r1,
            r1 == d * x + 0,
            r0 % r1 == d * y + 0,
    ;
    lemma_mod_multiples_basic(q * x + y, d);
    assert((q * x + y) * d == d * (q * x + y)) by (nonlinear_arith);
}

proof fn lemma_bezout_step(
    a: int,
    p: int,
    r0: int,
    r1: int,
    t0: int,
    t1: int,
    k0: int,
    k1: int,
    q: int,
    r2: int,
    qd: int,
    qp: int,
    ud: int,
    um: int,
    wd: int,
    t2: int,
) -> (k2: int)
    requires
        a * t0 == r0 + k0 * p,
        a * t1 == r1 + k1 * p,
        r0 == q * r1 + r2,
        q == qd * p + qp,
        qp * t1 == ud * p + um,
        t0 + p - um == wd * p + t2,
    ensures
        a * t2 == r2 + k2 * p,
{
    let k2 = k0 + a - q * k1 + qd * a * t1 + a * ud - a * wd;
    let t2e = t0 + p - um - wd * p;
    assert(t2 == t2e);
    assert(a * t2 == a * t0 + a * p - a * um - (a * wd) * p) by (nonlinear_arith)
        requires
            t2 == t0 + p - um - wd * p,
    ;
    assert(a * um == (a * qp) * t1 - (a * ud) * p) by (nonlinear_arith)
        requires
            qp * t1 == ud * p + um,
    ;
    assert((a * qp) * t1 == q * (a * t1) - (qd * a * t1) * p) by (nonlinear_arith)
        requires
            q == qd * p + qp,
    ;
    assert(q * (a * t1) == q * r1 + (q * k1) * p) by (nonlinear_arith)
        requires
            a * t1 == r1 + k1 * p,
    ;
    assert(a * p + (qd * a * t1) * p + (a * ud) * p - (a * wd) * p - (q * k1) * p + k0 * p
        == (k0 + a - q * k1 + qd * a * t1 + a * ud - a * wd) * p) by (nonlinear_arith);
    k2
}

/// The inverse of `a` modulo the prime `p`, by the extended Euclidean
/// algorithm. The Bezout coefficient is kept reduced modulo `p`.
pub fn inverse(a: u64, p: u64) -> (r: u64)
    requires
        valid_modulus(p),
        0 < a < p,
    ensures
        r < p,
        (a as int * r as int) % (p as int) == 1,
{
    let mut r0: u64 = p;
    let mut r1: u64 = a;
    let mut t0: u64 = 0;
    let mut t1: u64 = 1;
    let ghost mut k0: int = -1;
    let ghost mut k1: int = 0;
    proof {
        lemma_no_common_divisor_start(p as int, a as int);
    }
    while r1 != 0
        invariant
            valid_modulus(p),
            0 < a < p,
            r0 <= p,
            r1 < r0,
            r0 > 0,
            t0 < p,
            t1 < p,
            a * t0 == r0 + k0 * p,
            a * t1 == r1 + k1 * p,
            forall|d: int| d > 1 ==> !#[trigger] common_divisor(d, r0 as int, r1 as int),
        decreases r1,
    {
        let q = r0 / r1;
        let r2 = r0 % r1;
        let qp = q % p;
        proof {
            assert(qp * t1 < MODULUS_LIMIT * MODULUS_LIMIT) by (nonlinear_arith)
                requires
                    qp < p,
                    t1 < p,
                    p < MODULUS_LIMIT,
            ;
        }
        let u = qp * t1;
        let um = u % p;
        let w = t0 + p - um;
        let t2 = w % p;
        proof {
            lemma_fundamental_div_mod(r0 as int, r1 as int);
            lemma_fundamental_div_mod(q as int, p as int);
            lemma_fundamental_div_mod(u as int, p as int);
            lemma_fundamental_div_mod(w as int, p as int);
            let k2 = lemma_bezout_step(
                a as int,
                p as int,
                r0 as int,
                r1 as int,
                t0 as int,
                t1 as int,
                k0,
                k1,
                q as int,
                r2 as int,
                q as int / p as int,
                qp as int,
                u as int / p as int,
                um as int,
                w as int / p as int,
                t2 as int,
            );
            assert forall|d: int| d > 1 implies !#[trigger] common_divisor(d, r1 as int, r2 as int) by {
                if common_divisor(d, r1 as int, r2 as int) {
                    lemma_common_divisor_step(r0 as int, r1 as int, d);
                }
            }
            k0 = k1;
            k1 = k2;
        }
        r0 = r1;
        r1 = r2;
        t0 = t1;
        t1 = t2;
    }
    proof {
        if r0 > 1 {
            lemma_mod_self_0(r0 as int);
            assert(common_divisor(r0 as int, r0 as int, 0));
        }
        assert(r0 == 1);
        lemma_mod_multiples_vanish(k0, 1, p as int);
        lemma_small_mod(1, p as nat);
        assert(k0 * p + 1 == p * k0 + 1) by (nonlinear_arith);
    }
    t0
}

proof fn lemma_ext_gcd(a: int, p: int, r0: int, r1: int, t0: int, t1: int) -> (t: int)
    requires
        p > 1,
        0 <= r1 < r0,
        (a * t0 - r0) % p == 0,
        (a * t1 - r1) % p == 0,
        forall|d: int| d > 1 ==> !#[trigger] common_divisor(d, r0, r1),
    ensures
        (a * t - 1) % p == 0,
    decreases r1,
{
    if r1 == 0 {
        if r0 > 1 {
            lemma_mod_self_0(r0);
            assert(common_divisor(r0, r0, 0));
        }
        t0
    } else {
        let q = r0 / r1;
        let r2 = r0 % r1;
        lemma_fundamental_div_mod(r0, r1);
        lemma_mod_bound(r0, r1);
        lemma_fundamental_div_mod(a * t0 - r0, p);
        lemma_fundamental_div_mod(a * t1 - r1, p);
        let k0 = (a * t0 - r0) / p;
        let k1 = (a * t1 - r1) / p;
        let t2 = t0 - q * t1;
        assert(a * t2 == a * t0 - q * (a * t1)) by (nonlinear_arith)
            requires
                t2 == t0 - q * t1,
        ;
        assert(q * (a * t1) - q * r1 == q * (p * k1)) by (nonlinear_arith)
            requires
                a * t1 - r1 == p * k1,
        ;
        assert(q * (p * k1) == p * (q * k1)) by (nonlinear_arith);
        assert(p * k0 - p * (q * k1) == p * (k0 - q * k1)) by (nonlinear_arith);
        assert(r1 * q == q * r1) by (nonlinear_arith);
        assert(a * t2 - r2 == p * (k0 - q * k1));
        lemma_mod_multiples_basic(k0 - q * k1, p);
        assert((k0 - q * k1) * p == p * (k0 - q * k1)) by (nonlinear_arith);
        assert forall|d: int| d > 1 implies !#[trigger] common_divisor(d, r1, r2) by {
            if common_divisor(d, r1, r2) {
                lemma_common_divisor_step(r0, r1, d);
            }
        }
        lemma_ext_gcd(a, p, r1, r2, t1, t2)
    }
}

/// A residue that is not zero modulo a prime has an inverse.
pub proof fn lemma_inverse_exists(a: int, p: int) -> (t: int)
    requires
        is_prime(p as nat),
        0 < a < p,
    ensures
        (a * t - 1) % p == 0,
{
    lemma_no_common_divisor_start(p, a);
    lemma_mod_self_0(p);
    assert(a * 0 - p == -p);
    lemma_mod_multiples_basic(-1, p);
    assert(-1 * p == -p);
    assert(a * 1 - a == 0);
    lemma_ext_gcd(a, p, p, a, 0, 1)
}

/// A product of two residues that are not zero modulo a prime is not
/// zero.
pub proof fn lemma_product_nonzero(x: int, s: int, p: int)
    requires
        is_prime(p as nat),
        0 < x < p,
        0 < s < p,
    ensures
        (x * s) % p != 0,
{
    if (x * s) % p == 0 {
        let t = lemma_inverse_exists(x, p);
        lemma_fundamental_div_mod(x * t - 1, p);
        lemma_fundamental_div_mod(x * s, p);
        let k = (x * t - 1) / p;
        let j = (x * s) / p;
        assert(s == p * (j * t - s * k)) by (nonlinear_arith)
            requires
                x * t - 1 == p * k + 0,
                x * s == p * j + 0,
        ;
        lemma_mod_multiples_basic(j * t - s * k, p);
        assert((j * t - s * k) * p == p * (j * t - s * k)) by (nonlinear_arith);
        lemma_small_mod(s as nat, p as nat);
    }
}

/// `c` is the inverse of `x` modulo `p`.
pub open spec fn is_inverse(c: int, x: int, p: int) -> bool {
    0 <= c < p && (x * c) % p == 1
}

/// The inverse of `x` modulo `p`, where it has one.
pub open spec fn field_inverse(x: int, p: int) -> int {
    choose|c: int| is_inverse(c, x, p)
}

/// An inverse modulo `p` is unique.
pub proof fn lemma_inverse_unique(x: int, c1: int, c2: int, p: int)
    requires
        p > 1,
        is_inverse(c1, x, p),
        is_inverse(c2, x, p),
    ensures
        c1 == c2,
{
    lemma_mul_mod_noop_right(c1, x * c2, p);
    lemma_mul_mod_noop_left(c1 * x, c2, p);
    assert(c1 * (x * c2) == (c1 * x) * c2) by (nonlinear_arith);
    assert((x * c1) == (c1 * x)) by (nonlinear_arith);
    lemma_small_mod(c1 as nat, p as nat);
    lemma_small_mod(c2 as nat, p as nat);
    assert(c1 * 1 == c1);
    assert(1 * c2 == c2);
}

/// Any inverse of `x` is the one `field_inverse` names.
pub proof fn lemma_field_inverse(x: int, c: int, p: int)
    requires
        p > 1,
        is_inverse(c, x, p),
    ensures
        field_inverse(x, p) == c,
{
    let d = field_inverse(x, p);
    assert(is_inverse(d, x, p));
    lemma_inverse_unique(x, c, d, p);
}

/// One residue modulo the ring's prime.
#[derive(Clone, Copy, Debug, PartialEq, Eq, Structural)]
pub struct Felt {
    pub value: u64,
}

impl Felt {
    /// The residue of `value` modulo `p`.
    pub fn new(value: u64, p: u64) -> (f: Felt)
        requires
            p > 0,
        ensures
            f.value == value % p,
    {
        Felt { value: value % p }
    }

    /// The residue 1.
    pub fn one() -> (f: Felt)
        ensures
            f.value == 1,
    {
        Felt { value: 1 }
    }

    /// The residue 0.
    pub fn zero() -> (f: Felt)
        ensures
            f.value == 0,
    {
        Felt { value: 0 }
    }

    /// The representative in `[0, p)`.
    pub fn value(&self) -> (v: u64)
        ensures
            v == self.value,
    {
        self.value
    }

    pub fn is_zero(&self) -> (b: bool)
        ensures
            b == (self.value == 0),
    {
        self.value == 0
    }

    /// `self + other` modulo `p`.
    pub fn add(self, other: Felt, p: u64) -> (f: Felt)
        requires
            p < MODULUS_LIMIT,
            self.value < p,
            other.value < p,
        ensures
            f.value == (self.value + other.value) % (p as int),
            f.value < p,
    {
        Felt { value: (self.value + other.value) % p }
    }

    /// `self - other` modulo `p`.
    pub fn sub(self, other: Felt, p: u64) -> (f: Felt)
        requires
            p < MODULUS_LIMIT,
            self.value < p,
            other.value < p,
        ensures
            f.value == (self.value - other.value) % (p as int),
            f.value < p,
    {
        let v = (self.value + (p - other.value)) % p;
        proof {
            lemma_mod_add_multiples_vanish(self.value - other.value, p as int);
        }
        Felt { value: v }
    }

    /// `-self` modulo `p`.
    pub fn neg(self, p: u64) -> (f: Felt)
        requires
            p < MODULUS_LIMIT,
            self.value < p,
        ensures
            f.value == (-self.value) % (p as int),
            f.value < p,
    {
        Felt::zero().sub(self, p)
    }

    /// `self * other` modulo `p`.
    pub fn mul(self, other: Felt, p: u64) -> (f: Felt)
        requires
            p < MODULUS_LIMIT,
            self.value < p,
            other.value < p,
        ensures
            f.value == (self.value * other.value) % (p as int),
            f.value < p,
    {
        proof {
            assert(self.value * other.value < MODULUS_LIMIT * MODULUS_LIMIT) by (nonlinear_arith)
                requires
                    self.value < p,
                    other.value < p,
                    p < MODULUS_LIMIT,
            ;
        }
        Felt { value: (self.value * other.value) % p }
    }

    /// The inverse of a nonzero residue.
    pub fn inv(self, p: u64) -> (f: Felt)
        requires
            valid_modulus(p),
            0 < self.value < p,
        ensures
            f.value < p,
            (self.value * f.value) % (p as int) == 1,
    {
        Felt { value: inverse(self.value, p) }
    }

    /// `self / other` modulo `p`.
    pub fn div(self, other: Felt, p: u64) -> (f: Felt)
        requires
            valid_modulus(p),
            self.value < p,
            0 < other.value < p,
        ensures
            f.value < p,
            (f.value * other.value) % (p as int) == self.value,
    {
        let inv = other.inv(p);
        let f = self.mul(inv, p);
        proof {
            let s = self.value as int;
            let o = other.value as int;
            let i = inv.value as int;
            let pi = p as int;
            lemma_mul_mod_noop_left(s * i, o, pi);
            assert((s * i) * o == s * (o * i)) by (nonlinear_arith);
            lemma_mul_mod_noop_right(s, o * i, pi);
            lemma_small_mod(self.value as nat, p as nat);
        }
        f
    }
}

} // verus!
