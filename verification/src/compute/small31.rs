//! The field context of the F4 engine for a prime below 2^31.
//!
//! [`Small31`] multiplies with Shoup's method, reduces an accumulator lane
//! with Barrett's method, and delays reduction until a sweep or a read.

use vstd::arithmetic::div_mod::*;
use vstd::prelude::*;

use crate::field::{MODULUS_LIMIT, inverse, valid_modulus};

verus! {

/// 2^32, the scale of Shoup's precomputation.
pub open spec fn two32() -> int {
    0x1_0000_0000
}

/// 2^64, the scale of Barrett's multiplier.
pub open spec fn two64() -> int {
    0x1_0000_0000_0000_0000
}

/// The number of applications one accumulator lane absorbs.
///
/// `capacity` is the largest value the lane holds, `start` the largest
/// value in a lane after a sweep, and `addend` the largest value one
/// application adds. The count is exact: `start + n * addend` is at most
/// `capacity`, and one more application passes it.
pub fn applications_before_sweep(capacity: u64, start: u64, addend: u64) -> (n: u64)
    requires
        start <= capacity,
        addend >= 1,
    ensures
        start + n * addend <= capacity,
        start + (n + 1) * addend > capacity,
{
    let n = (capacity - start) / addend;
    proof {
        let room = (capacity - start) as int;
        lemma_fundamental_div_mod(room, addend as int);
        lemma_mod_bound(room, addend as int);
        assert(n * addend + room % (addend as int) == room) by (nonlinear_arith)
            requires
                room == addend * (room / (addend as int)) + room % (addend as int),
                n == room / (addend as int),
        ;
        assert((n + 1) * addend == n * addend + addend) by (nonlinear_arith);
    }
    n
}

/// The high 64 bits of a 64-by-64 bit product.
pub fn mulhi(a: u64, b: u64) -> (r: u64)
    ensures
        r == (a as int * b as int) / two64(),
{
    proof {
        assert(a as int * b as int <= 0xffff_ffff_ffff_ffff * 0xffff_ffff_ffff_ffff) by (nonlinear_arith)
            requires
                a <= 0xffff_ffff_ffff_ffffu64,
                b <= 0xffff_ffff_ffff_ffffu64,
                a >= 0,
                b >= 0,
        ;
        assert(a as int * b as int >= 0) by (nonlinear_arith)
            requires
                a >= 0,
                b >= 0,
        ;
    }
    let wide: u128 = (a as u128) * (b as u128);
    assert(wide >> 64u32 == wide / 0x1_0000_0000_0000_0000u128) by (bit_vector);
    let hi = wide >> 64u32;
    hi as u64
}

/// Shoup's precomputation of `w` modulo `p`: `floor(w * 2^32 / p)`.
pub open spec fn shoup_spec(w: int, p: int) -> int {
    (w * two32()) / p
}

/// The Shoup kernel for a prime below 2^31.
///
/// A product is left below `2p` and not corrected; the accumulator is
/// reduced when it is read. One application adds at most `2p - 1` to a
/// lane.
#[derive(Clone, Copy, Debug)]
pub struct Small31 {
    p: u32,
    p64: u64,
    mu: u64,
    per_sweep: u64,
    lane_limit: u64,
}

impl Small31 {
    /// The context is the one [`Small31::new`] builds for its modulus.
    pub closed spec fn wf(&self) -> bool {
        &&& 2 <= self.p < MODULUS_LIMIT
        &&& self.p64 == self.p
        &&& self.mu == two64() / (self.p as int)
        &&& self.per_sweep == (0xffff_ffff_ffff_ffff - (self.p - 1)) / (2 * self.p - 1)
        &&& self.lane_limit == 0xffff_ffff_ffff_ffff - (2 * self.p - 1)
    }

    pub closed spec fn modulus(&self) -> int {
        self.p as int
    }

    pub closed spec fn lane_limit_spec(&self) -> int {
        self.lane_limit as int
    }

    pub closed spec fn per_sweep_spec(&self) -> int {
        self.per_sweep as int
    }

    pub closed spec fn mu_spec(&self) -> int {
        self.mu as int
    }

    /// The modulus of a context lies in `[2, 2^31)`, and a lane at the
    /// lane limit takes one more product below `2p`.
    pub proof fn lemma_bounds(&self)
        requires
            self.wf(),
        ensures
            2 <= self.modulus() < 0x8000_0000,
            self.lane_limit_spec() == 0xffff_ffff_ffff_ffff - (2 * self.modulus() - 1),
    {
    }

    /// The modulus.
    pub fn modulus_u64(&self) -> (p: u64)
        requires
            self.wf(),
        ensures
            p == self.modulus(),
    {
        self.p64
    }

    /// The Barrett multiplier `floor(2^64 / p)`.
    pub fn mu(&self) -> (m: u64)
        ensures
            m == self.mu_spec(),
    {
        self.mu
    }

    /// Build the context for the modulus `p`, with `2 <= p < 2^31`.
    pub fn new(p: u32) -> (ctx: Small31)
        requires
            2 <= p,
            (p as u64) < MODULUS_LIMIT,
        ensures
            ctx.wf(),
            ctx.modulus() == p,
            ctx.mu_spec() == two64() / (p as int),
            ctx.lane_limit_spec() == 0xffff_ffff_ffff_ffff - (2 * p - 1),
    {
        let p64 = p as u64;
        let wide: u128 = 0x1_0000_0000_0000_0000u128 / (p64 as u128);
        proof {
            lemma_div_is_ordered_by_denominator(two64(), 2, p as int);
        }
        let mu = wide as u64;
        let per_sweep = applications_before_sweep(0xffff_ffff_ffff_ffffu64, p64 - 1, 2 * p64 - 1);
        proof {
            lemma_fundamental_div_mod(
                (0xffff_ffff_ffff_ffffu64 - (p64 - 1)) as int,
                (2 * p64 - 1) as int,
            );
            lemma_mod_bound((0xffff_ffff_ffff_ffffu64 - (p64 - 1)) as int, (2 * p64 - 1) as int);
            let room = (0xffff_ffff_ffff_ffffu64 - (p64 - 1)) as int;
            let d = (2 * p64 - 1) as int;
            let q = room / d;
            assert(per_sweep as int == q) by (nonlinear_arith)
                requires
                    room == d * q + room % d,
                    0 <= room % d < d,
                    (p64 - 1) + per_sweep * d <= 0xffff_ffff_ffff_ffff,
                    (p64 - 1) + (per_sweep + 1) * d > 0xffff_ffff_ffff_ffff,
                    room == 0xffff_ffff_ffff_ffff - (p64 - 1),
                    d > 0,
            ;
        }
        Small31 { p, p64, mu, per_sweep, lane_limit: 0xffff_ffff_ffff_ffffu64 - (2 * p64 - 1) }
    }

    /// Shoup's precomputation for one coefficient, `floor(w * 2^32 / p)`.
    pub fn shoup_of(&self, w: u32) -> (s: u64)
        requires
            self.wf(),
            w < self.modulus(),
        ensures
            s == shoup_spec(w as int, self.modulus()),
            s < two32(),
    {
        proof {
            assert((w as int) * two32() < two32() * two32()) by (nonlinear_arith)
                requires
                    w < 0x8000_0000,
            ;
            assert((w as u64) << 32u64 == (w as u64) * 0x1_0000_0000u64) by (bit_vector)
                requires
                    w < 0x8000_0000u32,
            ;
            lemma_div_by_multiple_is_strongly_ordered(w as int * two32(), self.p as int * two32(), two32(), self.p as int);
            assert(shoup_spec(w as int, self.p as int) < two32()) by {
                assert((w as int) * two32() < (self.p as int) * two32()) by (nonlinear_arith)
                    requires
                        w < self.p,
                ;
                lemma_div_is_ordered((w as int) * two32(), (self.p as int) * two32() - 1, self.p as int);
                assert(((self.p as int) * two32() - 1) / (self.p as int) < two32()) by {
                    lemma_div_by_multiple(two32(), self.p as int);
                    lemma_fundamental_div_mod((self.p as int) * two32() - 1, self.p as int);
                    lemma_mod_bound((self.p as int) * two32() - 1, self.p as int);
                    let q = ((self.p as int) * two32() - 1) / (self.p as int);
                    let r = ((self.p as int) * two32() - 1) % (self.p as int);
                    assert(q < two32()) by (nonlinear_arith)
                        requires
                            (self.p as int) * two32() - 1 == (self.p as int) * q + r,
                            0 <= r,
                            self.p >= 2,
                    ;
                }
            }
        }
        ((w as u64) << 32u64) / self.p64
    }

    /// Return `value * factor` modulo `p`, in `[0, 2p)`.
    pub fn shoup_product(&self, value: u32, precomputed: u64, factor: u64) -> (r: u64)
        requires
            self.wf(),
            value < self.modulus(),
            precomputed == shoup_spec(value as int, self.modulus()),
            factor < self.modulus(),
        ensures
            r < 2 * self.modulus(),
            (r as int) % self.modulus() == (value as int * factor as int) % self.modulus(),
    {
        let ghost p = self.p as int;
        let ghost w = value as int;
        let ghost f = factor as int;
        let ghost pre = precomputed as int;
        proof {
            lemma_fundamental_div_mod(w * two32(), p);
            lemma_mod_bound(w * two32(), p);
            assert(pre < two32()) by {
                let r1 = (w * two32()) % p;
                assert(pre < two32()) by (nonlinear_arith)
                    requires
                        w * two32() == p * pre + r1,
                        0 <= r1,
                        w < p,
                        p > 0,
                ;
            }
            assert(pre * f < two32() * 0x8000_0000) by (nonlinear_arith)
                requires
                    0 <= pre < two32(),
                    0 <= f < 0x8000_0000,
            ;
            assert(w * f < 0x8000_0000 * 0x8000_0000) by (nonlinear_arith)
                requires
                    0 <= w < 0x8000_0000,
                    0 <= f < 0x8000_0000,
            ;
        }
        let product_hi = precomputed * factor;
        let quotient = product_hi >> 32u64;
        proof {
            assert(product_hi >> 32u64 == product_hi / 0x1_0000_0000u64) by (bit_vector);
            let q = quotient as int;
            let r1 = (w * two32()) % p;
            lemma_fundamental_div_mod(pre * f, two32());
            lemma_mod_bound(pre * f, two32());
            let r2 = (pre * f) % two32();
            // q * p <= w * f
            assert(q * p <= w * f) by (nonlinear_arith)
                requires
                    pre * f == two32() * q + r2,
                    0 <= r2,
                    w * two32() == p * pre + r1,
                    0 <= r1,
                    p > 0,
                    f >= 0,
                    q >= 0,
            ;
            // w * f < q * p + 2 * p
            assert(w * f < q * p + 2 * p) by (nonlinear_arith)
                requires
                    pre * f == two32() * q + r2,
                    r2 < two32(),
                    w * two32() == p * pre + r1,
                    r1 < p,
                    p > 0,
                    0 <= f < two32(),
                    q >= 0,
            ;
            assert(q * p <= 0x8000_0000 * 0x8000_0000);
        }
        let r = (value as u64) * factor - quotient * self.p64;
        proof {
            let q = quotient as int;
            assert(w * f - q * p == r);
            assert((w * f - q * p) % p == (w * f) % p) by {
                lemma_mod_multiples_vanish(-q, w * f, p);
                assert(w * f - q * p == p * (-q) + w * f) by (nonlinear_arith);
            }
        }
        r
    }

    /// `a + b` modulo `p`.
    pub fn add(&self, a: u32, b: u32) -> (r: u32)
        requires
            self.wf(),
            a < self.modulus(),
            b < self.modulus(),
        ensures
            r < self.modulus(),
            r == (a + b) % self.modulus(),
    {
        let sum = a + b;
        if sum >= self.p {
            proof {
                lemma_mod_sub_multiples_vanish(a + b, self.p as int);
                lemma_small_mod((sum - self.p) as nat, self.p as nat);
            }
            sum - self.p
        } else {
            proof {
                lemma_small_mod(sum as nat, self.p as nat);
            }
            sum
        }
    }

    /// `a - b` modulo `p`.
    pub fn sub(&self, a: u32, b: u32) -> (r: u32)
        requires
            self.wf(),
            a < self.modulus(),
            b < self.modulus(),
        ensures
            r < self.modulus(),
            r == (a - b) % self.modulus(),
    {
        let d = a + (self.p - b);
        proof {
            lemma_mod_add_multiples_vanish(a - b, self.p as int);
        }
        if d >= self.p {
            proof {
                lemma_small_mod((d - self.p) as nat, self.p as nat);
            }
            d - self.p
        } else {
            proof {
                lemma_small_mod(d as nat, self.p as nat);
                assert(a - b + self.p == d);
                lemma_mod_add_multiples_vanish(a - b, self.p as int);
            }
            d
        }
    }

    /// Reduce one accumulator lane to its representative in `[0, p)`.
    pub fn reduce_acc(&self, acc: u64) -> (r: u32)
        requires
            self.wf(),
        ensures
            r as int == (acc as int) % self.modulus(),
    {
        let q = mulhi(acc, self.mu);
        let ghost p = self.p as int;
        let ghost a = acc as int;
        let ghost m = self.mu as int;
        proof {
            lemma_fundamental_div_mod(two64(), p);
            lemma_mod_bound(two64(), p);
            lemma_fundamental_div_mod(a * m, two64());
            lemma_mod_bound(a * m, two64());
            let rm = two64() % p;
            let r2 = (a * m) % two64();
            let qq = q as int;
            assert(m >= 0);
            assert(qq * p <= a) by (nonlinear_arith)
                requires
                    a * m == two64() * qq + r2,
                    0 <= r2,
                    two64() == p * m + rm,
                    0 <= rm,
                    p > 0,
                    a >= 0,
                    qq >= 0,
                    m >= 0,
            ;
            assert(a < qq * p + 2 * p) by (nonlinear_arith)
                requires
                    a * m == two64() * qq + r2,
                    r2 < two64(),
                    two64() == p * m + rm,
                    rm < p,
                    p > 0,
                    0 <= a < two64(),
                    qq >= 0,
            ;
        }
        let r = acc - q * self.p64;
        let r = if r >= self.p64 {
            r - self.p64
        } else {
            r
        };
        proof {
            let qq = q as int;
            if (acc - q * self.p64) >= self.p64 {
                assert(r == a - (qq + 1) * p) by (nonlinear_arith)
                    requires
                        r == a - qq * p - p,
                ;
                lemma_fundamental_div_mod_converse(a, p, qq + 1, r as int);
            } else {
                lemma_fundamental_div_mod_converse(a, p, qq, r as int);
            }
        }
        r as u32
    }

    /// The inverse of a nonzero coefficient.
    pub fn inv(&self, a: u32) -> (r: u32)
        requires
            self.wf(),
            valid_modulus(self.modulus() as u64),
            0 < a < self.modulus(),
        ensures
            r < self.modulus(),
            (a as int * r as int) % self.modulus() == 1,
    {
        inverse(a as u64, self.p64) as u32
    }

    /// Fill `out` with the multiply precomputation for `vals`.
    ///
    /// `out` is cleared first, so a workspace vector keeps its capacity.
    pub fn precompute(&self, vals: &[u32], out: &mut Vec<u64>)
        requires
            self.wf(),
            forall|k: int| 0 <= k < vals@.len() ==> vals@[k] < self.modulus(),
        ensures
            final(out)@.len() == vals@.len(),
            forall|k: int|
                0 <= k < vals@.len() ==> final(out)@[k] == shoup_spec(
                    vals@[k] as int,
                    self.modulus(),
                ),
    {
        out.clear();
        let mut k: usize = 0;
        while k < vals.len()
            invariant
                self.wf(),
                k <= vals@.len(),
                out@.len() == k,
                forall|j: int| 0 <= j < vals@.len() ==> vals@[j] < self.modulus(),
                forall|j: int| 0 <= j < k ==> out@[j] == shoup_spec(vals@[j] as int, self.modulus()),
            decreases vals@.len() - k,
        {
            let s = self.shoup_of(vals[k]);
            out.push(s);
            k += 1;
        }
    }

    /// Add `factor * vals[k]` into lane `cols[k]`, for every `k`.
    ///
    /// The column indices are strictly increasing, so no lane takes two
    /// addends from one call. The lanes are not reduced.
    pub fn axpy(&self, acc: &mut Vec<u64>, cols: &[u32], vals: &[u32], shoup: &[u64], factor: u32)
        requires
            self.wf(),
            cols@.len() == vals@.len(),
            shoup@.len() == vals@.len(),
            factor < self.modulus(),
            forall|k: int| 0 <= k < cols@.len() ==> (cols@[k] as int) < old(acc)@.len(),
            forall|j: int, k: int| 0 <= j < k < cols@.len() ==> cols@[j] < cols@[k],
            forall|k: int| 0 <= k < vals@.len() ==> vals@[k] < self.modulus(),
            forall|k: int|
                0 <= k < vals@.len() ==> shoup@[k] == shoup_spec(vals@[k] as int, self.modulus()),
            forall|k: int|
                0 <= k < cols@.len() ==> old(acc)@[cols@[k] as int] <= self.lane_limit_spec(),
        ensures
            final(acc)@.len() == old(acc)@.len(),
            forall|k: int|
                #![trigger cols@[k]]
                0 <= k < cols@.len() ==> {
                    let c = cols@[k] as int;
                    &&& final(acc)@[c] < old(acc)@[c] + 2 * self.modulus()
                    &&& final(acc)@[c] >= old(acc)@[c]
                    &&& (final(acc)@[c] as int) % self.modulus() == (old(acc)@[c] + vals@[k] as int
                        * factor as int) % self.modulus()
                },
            forall|c: int|
                0 <= c < old(acc)@.len() && (forall|k: int|
                    0 <= k < cols@.len() ==> cols@[k] as int != c) ==> final(acc)@[c] == old(acc)@[c],
    {
        self.axpy_from(acc, cols, vals, shoup, factor, 0)
    }

    /// Add `factor * vals[k]` into lane `cols[k]`, for every `k` from
    /// `from` on: the tail of a row, without a copy.
    pub fn axpy_from(&self, acc: &mut Vec<u64>, cols: &[u32], vals: &[u32], shoup: &[u64], factor: u32, from: usize)
        requires
            self.wf(),
            from <= cols@.len(),
            cols@.len() == vals@.len(),
            shoup@.len() == vals@.len(),
            factor < self.modulus(),
            forall|k: int| from <= k < cols@.len() ==> (cols@[k] as int) < old(acc)@.len(),
            forall|j: int, k: int| from <= j < k < cols@.len() ==> cols@[j] < cols@[k],
            forall|k: int| from <= k < vals@.len() ==> vals@[k] < self.modulus(),
            forall|k: int|
                from <= k < vals@.len() ==> shoup@[k] == shoup_spec(vals@[k] as int, self.modulus()),
            forall|k: int|
                from <= k < cols@.len() ==> old(acc)@[cols@[k] as int] <= self.lane_limit_spec(),
        ensures
            final(acc)@.len() == old(acc)@.len(),
            forall|k: int|
                #![trigger cols@[k]]
                from <= k < cols@.len() ==> {
                    let c = cols@[k] as int;
                    &&& final(acc)@[c] < old(acc)@[c] + 2 * self.modulus()
                    &&& final(acc)@[c] >= old(acc)@[c]
                    &&& (final(acc)@[c] as int) % self.modulus() == (old(acc)@[c] + vals@[k] as int
                        * factor as int) % self.modulus()
                },
            forall|c: int|
                0 <= c < old(acc)@.len() && (forall|k: int|
                    from <= k < cols@.len() ==> cols@[k] as int != c) ==> final(acc)@[c] == old(acc)@[c],
    {
        let factor = factor as u64;
        let ghost start = acc@;
        let mut k: usize = from;
        while k < cols.len()
            invariant
                self.wf(),
                from <= k <= cols@.len(),
                cols@.len() == vals@.len(),
                shoup@.len() == vals@.len(),
                factor < self.modulus(),
                acc@.len() == start.len(),
                forall|j: int| from <= j < cols@.len() ==> (cols@[j] as int) < start.len(),
                forall|i: int, j: int| from <= i < j < cols@.len() ==> cols@[i] < cols@[j],
                forall|j: int| from <= j < vals@.len() ==> vals@[j] < self.modulus(),
                forall|j: int|
                    from <= j < vals@.len() ==> shoup@[j] == shoup_spec(vals@[j] as int, self.modulus()),
                forall|j: int| from <= j < cols@.len() ==> start[cols@[j] as int] <= self.lane_limit_spec(),
                forall|j: int|
                    #![trigger cols@[j]]
                    from <= j < k ==> {
                        let c = cols@[j] as int;
                        &&& acc@[c] < start[c] + 2 * self.modulus()
                        &&& acc@[c] >= start[c]
                        &&& (acc@[c] as int) % self.modulus() == (start[c] + vals@[j] as int * factor as int)
                            % self.modulus()
                    },
                forall|c: int|
                    0 <= c < start.len() && (forall|j: int| from <= j < k ==> cols@[j] as int != c)
                        ==> acc@[c] == start[c],
            decreases cols@.len() - k,
        {
            let col = cols[k] as usize;
            let product = self.shoup_product(vals[k], shoup[k], factor);
            proof {
                assert forall|j: int| from <= j < k implies cols@[j] as int != col by {}
            }
            let lane = acc[col];
            assert(lane == start[col as int]);
            let updated = lane + product;
            proof {
                lemma_add_mod_noop(lane as int, product as int, self.p as int);
                lemma_add_mod_noop(lane as int, vals@[k as int] as int * factor as int, self.p as int);
            }
            acc.set(col, updated);
            k += 1;
        }
    }

    /// Reduce every lane of `acc` to its representative in `[0, p)`.
    pub fn sweep(&self, acc: &mut Vec<u64>)
        requires
            self.wf(),
        ensures
            final(acc)@.len() == old(acc)@.len(),
            forall|c: int| 0 <= c < old(acc)@.len() ==> final(acc)@[c] as int == (old(acc)@[c] as int) % self.modulus(),
    {
        let ghost start = acc@;
        let mut i: usize = 0;
        while i < acc.len()
            invariant
                self.wf(),
                i <= acc@.len(),
                acc@.len() == start.len(),
                forall|c: int| 0 <= c < i ==> acc@[c] as int == (start[c] as int) % self.modulus(),
                forall|c: int| i <= c < start.len() ==> acc@[c] == start[c],
            decreases start.len() - i,
        {
            let reduced = self.reduce_acc(acc[i]);
            acc.set(i, reduced as u64);
            i += 1;
        }
    }

    /// The number of [`Small31::axpy`] applications between two sweeps.
    ///
    /// It is above 2^32 for every modulus below 2^31.
    pub fn applications_between_sweeps(&self) -> (n: u64)
        requires
            self.wf(),
        ensures
            n == self.per_sweep_spec(),
            n > 0x1_0000_0000,
            (self.modulus() - 1) + n * (2 * self.modulus() - 1) <= 0xffff_ffff_ffff_ffff,
    {
        proof {
            let p = self.p as int;
            let room = 0xffff_ffff_ffff_ffff - (p - 1);
            let d = 2 * p - 1;
            lemma_fundamental_div_mod(room, d);
            lemma_mod_bound(room, d);
            let q = room / d;
            assert(q > 0x1_0000_0000) by (nonlinear_arith)
                requires
                    room == d * q + room % d,
                    0 <= room % d < d,
                    2 <= p < 0x8000_0000,
                    room == 0xffff_ffff_ffff_ffff - (p - 1),
                    d == 2 * p - 1,
            ;
            assert((p - 1) + q * d <= 0xffff_ffff_ffff_ffff) by (nonlinear_arith)
                requires
                    room == d * q + room % d,
                    0 <= room % d,
                    room == 0xffff_ffff_ffff_ffff - (p - 1),
            ;
        }
        self.per_sweep
    }
}

} // verus!
