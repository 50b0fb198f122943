//! Linear combinations of sparse rows modulo `p`.
//!
//! A coefficient vector names one combination of a list of rows: the sum
//! of each coefficient times its row, column by column. A row lies in the
//! span of a list when some combination of the list agrees with it in
//! every column, modulo `p`.

use vstd::arithmetic::div_mod::{lemma_add_mod_noop, lemma_mod_twice, lemma_mul_mod_noop_right, lemma_sub_mod_noop};
use vstd::prelude::*;

use super::matrix::Row;

verus! {

/// The combination of `rows` with `coeffs` at column `c`.
pub open spec fn lin(coeffs: Seq<int>, rows: Seq<Row>, c: int) -> int
    decreases coeffs.len(),
{
    if coeffs.len() == 0 {
        0
    } else {
        lin(coeffs.drop_last(), rows, c) + coeffs.last() * rows[coeffs.len() - 1].at(c)
    }
}

/// The sum of two coefficient vectors.
pub open spec fn vadd(a: Seq<int>, b: Seq<int>) -> Seq<int> {
    Seq::new(a.len(), |k: int| a[k] + b[k])
}

/// A coefficient vector times `t`.
pub open spec fn vscale(t: int, a: Seq<int>) -> Seq<int> {
    Seq::new(a.len(), |k: int| t * a[k])
}

/// The zero vector of length `n`.
pub open spec fn zeros(n: nat) -> Seq<int> {
    Seq::new(n, |k: int| 0)
}

/// The vector of length `n` that picks row `j`.
pub open spec fn unit(n: nat, j: int) -> Seq<int> {
    Seq::new(n, |k: int| if k == j { 1 } else { 0 })
}

/// `coeffs` is a combination of `rows` that agrees with `row` in every
/// column, modulo `p`.
pub open spec fn represents(row: Row, coeffs: Seq<int>, rows: Seq<Row>, p: int) -> bool {
    &&& coeffs.len() == rows.len()
    &&& forall|c: int| #[trigger] row.at(c) % p == lin(coeffs, rows, c) % p
}

/// `row` lies in the span of `rows` modulo `p`.
pub open spec fn in_span(row: Row, rows: Seq<Row>, p: int) -> bool {
    exists|coeffs: Seq<int>| #[trigger] represents(row, coeffs, rows, p)
}

/// Every row of `a` lies in the span of `b`.
pub open spec fn spans(b: Seq<Row>, a: Seq<Row>, p: int) -> bool {
    forall|j: int| 0 <= j < a.len() ==> in_span(#[trigger] a[j], b, p)
}

/// A combination is additive in its coefficients.
pub proof fn lemma_lin_add(a: Seq<int>, b: Seq<int>, rows: Seq<Row>, c: int)
    requires
        a.len() == b.len(),
    ensures
        lin(vadd(a, b), rows, c) == lin(a, rows, c) + lin(b, rows, c),
    decreases a.len(),
{
    if a.len() > 0 {
        let n = a.len() - 1;
        assert(vadd(a, b).drop_last() =~= vadd(a.drop_last(), b.drop_last()));
        lemma_lin_add(a.drop_last(), b.drop_last(), rows, c);
        let r = rows[n].at(c);
        assert((a[n] + b[n]) * r == a[n] * r + b[n] * r) by (nonlinear_arith);
    }
}

/// A combination is homogeneous in its coefficients.
pub proof fn lemma_lin_scale(t: int, a: Seq<int>, rows: Seq<Row>, c: int)
    ensures
        lin(vscale(t, a), rows, c) == t * lin(a, rows, c),
    decreases a.len(),
{
    if a.len() > 0 {
        let n = a.len() - 1;
        assert(vscale(t, a).drop_last() =~= vscale(t, a.drop_last()));
        lemma_lin_scale(t, a.drop_last(), rows, c);
        let r = rows[n].at(c);
        let x = lin(a.drop_last(), rows, c);
        assert(t * x + (t * a[n]) * r == t * (x + a[n] * r)) by (nonlinear_arith);
    }
}

/// The zero combination is zero.
pub proof fn lemma_lin_zeros(n: nat, rows: Seq<Row>, c: int)
    ensures
        lin(zeros(n), rows, c) == 0,
    decreases n,
{
    if n > 0 {
        assert(zeros(n).drop_last() =~= zeros((n - 1) as nat));
        lemma_lin_zeros((n - 1) as nat, rows, c);
        lemma_mul_zero(zeros(n).last(), rows[n - 1].at(c));
    }
}

/// The vector that picks row `j` gives row `j`.
pub proof fn lemma_lin_unit(n: nat, j: int, rows: Seq<Row>, c: int)
    requires
        0 <= j < n,
    ensures
        lin(unit(n, j), rows, c) == rows[j].at(c),
    decreases n,
{
    let u = unit(n, j);
    if j == n - 1 {
        assert(u.drop_last() =~= zeros((n - 1) as nat));
        lemma_lin_zeros((n - 1) as nat, rows, c);
        assert(u.last() == 1);
        assert(u.last() * rows[n - 1].at(c) == rows[n - 1].at(c)) by (nonlinear_arith)
            requires
                u.last() == 1,
        ;
    } else {
        assert(u.drop_last() =~= unit((n - 1) as nat, j));
        lemma_lin_unit((n - 1) as nat, j, rows, c);
        lemma_mul_zero(u.last(), rows[n - 1].at(c));
    }
}

/// A combination reads only the rows its coefficients reach.
pub proof fn lemma_lin_rows(a: Seq<int>, rows: Seq<Row>, other: Seq<Row>, c: int)
    requires
        a.len() <= rows.len(),
        a.len() <= other.len(),
        forall|k: int| 0 <= k < a.len() ==> #[trigger] rows[k].at(c) == other[k].at(c),
    ensures
        lin(a, rows, c) == lin(a, other, c),
    decreases a.len(),
{
    if a.len() > 0 {
        lemma_lin_rows(a.drop_last(), rows, other, c);
    }
}

/// Zero times anything is zero.
proof fn lemma_mul_zero(z: int, x: int)
    requires
        z == 0,
    ensures
        z * x == 0,
{
    assert(z * x == 0) by (nonlinear_arith)
        requires
            z == 0,
    ;
}

/// The combination `u` of the rows of `a`, each a combination `w[j]` of
/// `b`, as one combination of `b`.
pub open spec fn compose(u: Seq<int>, w: Seq<Seq<int>>, n: nat) -> Seq<int>
    decreases u.len(),
{
    if u.len() == 0 {
        zeros(n)
    } else {
        vadd(compose(u.drop_last(), w, n), vscale(u.last(), w[u.len() - 1]))
    }
}

/// `compose` has the length of `b`.
pub proof fn lemma_compose_len(u: Seq<int>, w: Seq<Seq<int>>, n: nat)
    requires
        u.len() <= w.len(),
        forall|j: int| 0 <= j < w.len() ==> (#[trigger] w[j]).len() == n,
    ensures
        compose(u, w, n).len() == n,
    decreases u.len(),
{
    if u.len() > 0 {
        lemma_compose_len(u.drop_last(), w, n);
    }
}

/// A combination of combinations is a combination.
pub proof fn lemma_compose(u: Seq<int>, a: Seq<Row>, w: Seq<Seq<int>>, b: Seq<Row>, p: int, c: int)
    requires
        p > 0,
        u.len() <= a.len(),
        u.len() <= w.len(),
        forall|j: int| 0 <= j < w.len() ==> (#[trigger] w[j]).len() == b.len(),
        forall|j: int| 0 <= j < u.len() ==> represents(#[trigger] a[j], w[j], b, p),
    ensures
        lin(u, a, c) % p == lin(compose(u, w, b.len()), b, c) % p,
    decreases u.len(),
{
    let n = b.len();
    if u.len() == 0 {
        lemma_lin_zeros(n, b, c);
    } else {
        let m = u.len() - 1;
        let head = u.drop_last();
        lemma_compose(head, a, w, b, p, c);
        lemma_compose_len(head, w, n);
        let x = lin(head, a, c);
        let y = a[m].at(c);
        let cx = lin(compose(head, w, n), b, c);
        assert(represents(a[m], w[m], b, p));
        let cy = lin(w[m], b, c);
        assert(y % p == cy % p);
        lemma_lin_add(compose(head, w, n), vscale(u[m], w[m]), b, c);
        lemma_lin_scale(u[m], w[m], b, c);
        lemma_mul_mod_noop_right(u[m], y, p);
        lemma_mul_mod_noop_right(u[m], cy, p);
        lemma_add_mod_noop(x, u[m] * y, p);
        lemma_add_mod_noop(cx, u[m] * cy, p);
    }
}

/// Span membership passes along: a row in the span of `a` lies in the span
/// of `b` when every row of `a` does.
pub proof fn lemma_span_trans(row: Row, a: Seq<Row>, b: Seq<Row>, p: int)
    requires
        p > 0,
        in_span(row, a, p),
        spans(b, a, p),
    ensures
        in_span(row, b, p),
{
    let u = choose|u: Seq<int>| #[trigger] represents(row, u, a, p);
    let w = Seq::new(a.len(), |j: int| choose|v: Seq<int>| #[trigger] represents(a[j], v, b, p));
    assert forall|j: int| 0 <= j < a.len() implies represents(#[trigger] a[j], w[j], b, p) by {
        assert(in_span(a[j], b, p));
    }
    lemma_compose_len(u, w, b.len());
    let v = compose(u, w, b.len());
    assert forall|c: int| #[trigger] row.at(c) % p == lin(v, b, c) % p by {
        lemma_compose(u, a, w, b, p, c);
    }
    assert(represents(row, v, b, p));
}

/// Every row lies in the span of a list that holds it.
pub proof fn lemma_span_member(rows: Seq<Row>, j: int, p: int)
    requires
        0 <= j < rows.len(),
    ensures
        in_span(rows[j], rows, p),
{
    let u = unit(rows.len(), j);
    assert forall|c: int| #[trigger] rows[j].at(c) % p == lin(u, rows, c) % p by {
        lemma_lin_unit(rows.len(), j, rows, c);
    }
    assert(represents(rows[j], u, rows, p));
}

/// A list spans every list of its own rows.
pub proof fn lemma_spans_members(b: Seq<Row>, a: Seq<Row>, p: int)
    requires
        forall|j: int|
            #![trigger a[j]]
            0 <= j < a.len() ==> exists|k: int| #![trigger b[k]] 0 <= k < b.len() && b[k] == a[j],
    ensures
        spans(b, a, p),
{
    assert forall|j: int| 0 <= j < a.len() implies in_span(#[trigger] a[j], b, p) by {
        let k = choose|k: int| #![trigger b[k]] 0 <= k < b.len() && b[k] == a[j];
        lemma_span_member(b, k, p);
    }
}

/// A span only grows when rows are appended.
pub proof fn lemma_span_extend(row: Row, rows: Seq<Row>, more: Seq<Row>, p: int)
    requires
        in_span(row, rows, p),
        more.len() >= rows.len(),
        more.take(rows.len() as int) == rows,
    ensures
        in_span(row, more, p),
{
    let u = choose|u: Seq<int>| #[trigger] represents(row, u, rows, p);
    let v = u + zeros((more.len() - rows.len()) as nat);
    assert forall|c: int| #[trigger] row.at(c) % p == lin(v, more, c) % p by {
        lemma_lin_pad(u, (more.len() - rows.len()) as nat, more, c);
        assert forall|k: int| 0 <= k < u.len() implies #[trigger] rows[k].at(c) == more[k].at(c) by {
            assert(more.take(rows.len() as int)[k] == more[k]);
        }
        lemma_lin_rows(u, rows, more, c);
    }
    assert(represents(row, v, more, p));
}

/// Zero coefficients past the end add nothing.
pub proof fn lemma_lin_pad(u: Seq<int>, k: nat, rows: Seq<Row>, c: int)
    ensures
        lin(u + zeros(k), rows, c) == lin(u, rows, c),
    decreases k,
{
    if k == 0 {
        assert(u + zeros(0) =~= u);
    } else {
        assert((u + zeros(k)).drop_last() =~= u + zeros((k - 1) as nat));
        lemma_lin_pad(u, (k - 1) as nat, rows, c);
        lemma_mul_zero((u + zeros(k)).last(), rows[(u + zeros(k)).len() - 1].at(c));
    }
}

} // verus!
