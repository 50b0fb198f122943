//! The F4 reduction kernel against a dense modular Gaussian elimination.

use sylvester::compute::ComputeLimits;
use sylvester::compute::f4::kernel::{Reduction, Workspace, interreduce, reduce};
use sylvester::compute::f4::matrix::{Batch, Row};
use sylvester::compute::small31::Small31;
use sylvester::compute::f4::trace::{BatchRows, Insertion, NoTrace, Returned, RowId, Trace};
use sylvester::compute::f4::basis::find_divisor;
use sylvester::monomial::Monomial;

const SMALL_P: u32 = 101;
const BENCH_P: u32 = 1073741827;

#[derive(Clone, Debug)]
struct Sparse {
    cols: Vec<u32>,
    vals: Vec<u32>,
}

/// A batch: monic reducer rows, one per pivot column, and rows to reduce.
struct Case {
    p: u32,
    ncols: usize,
    upper: Vec<Sparse>,
    lower: Vec<Sparse>,
}

struct Rng(u64);

impl Rng {
    fn below(&mut self, n: u64) -> u64 {
        self.0 = self.0.wrapping_mul(6364136223846793005).wrapping_add(1442695040888963407);
        (self.0 >> 33) % n
    }
}

/// A random matrix with `npiv` pivot columns and `nlower` rows to reduce.
///
/// Every row leads in a pivot column, which is what symbolic preprocessing
/// produces: a row is a multiple of a basis element, so its leading
/// monomial has a divisor among the leads.
fn random_case(rng: &mut Rng, p: u32, ncols: usize, npiv: usize, nlower: usize) -> Case {
    let mut pivot_cols: Vec<u32> = Vec::new();
    while pivot_cols.len() < npiv {
        let col = rng.below(ncols as u64) as u32;
        if !pivot_cols.contains(&col) {
            pivot_cols.push(col);
        }
    }
    pivot_cols.sort_unstable();
    let row = |lead: u32, monic: bool, rng: &mut Rng| {
        let mut cols = vec![lead];
        let mut vals = vec![if monic { 1 } else { 1 + rng.below(p as u64 - 1) as u32 }];
        for col in lead + 1..ncols as u32 {
            if rng.below(3) == 0 {
                cols.push(col);
                vals.push(1 + rng.below(p as u64 - 1) as u32);
            }
        }
        Sparse { cols, vals }
    };
    let upper = pivot_cols.iter().map(|&lead| row(lead, true, rng)).collect();
    let lower = (0..nlower)
        .map(|_| {
            let lead = pivot_cols[rng.below(npiv as u64) as usize];
            row(lead, false, rng)
        })
        .collect();
    Case { p, ncols, upper, lower }
}

/// The batch of a case; the last column holds the constant monomial.
fn batch(case: &Case, field: &Small31) -> Batch {
    let rows = |list: &[Sparse]| -> Vec<Row> {
        list.iter()
            .map(|r| Row::new(field, case.ncols, r.cols.clone(), r.vals.clone()).expect("a canonical row"))
            .collect()
    };
    Batch::new(field, case.ncols, case.ncols as u32 - 1, rows(&case.upper), rows(&case.lower)).expect("a batch")
}

/// Reduce a case and report the new pivots and the counters.
fn run(case: &Case, field: &Small31, ws: &mut Workspace) -> (Vec<Sparse>, Reduction) {
    let mut b = batch(case, field);
    let out = reduce(&mut b, ws, field, &ComputeLimits::none(), &mut NoTrace).unwrap();
    let pivots = (b.npiv()..b.pivot_count())
        .map(|i| Sparse { cols: b.pivot(i).cols.clone(), vals: b.pivot(i).vals.clone() })
        .collect();
    (pivots, out)
}

fn inverse(a: u64, p: u64) -> u64 {
    let (mut result, mut base, mut exp) = (1u64, a % p, p - 2);
    while exp > 0 {
        if exp & 1 == 1 {
            result = result * base % p;
        }
        base = base * base % p;
        exp >>= 1;
    }
    result
}

fn dense(ncols: usize, row: &Sparse) -> Vec<u64> {
    let mut out = vec![0u64; ncols];
    for (&col, &val) in row.cols.iter().zip(&row.vals) {
        out[col as usize] = val as u64;
    }
    out
}

fn sparse(row: &[u64]) -> Sparse {
    let mut out = Sparse { cols: Vec::new(), vals: Vec::new() };
    for (col, &val) in row.iter().enumerate() {
        if val != 0 {
            out.cols.push(col as u32);
            out.vals.push(val as u32);
        }
    }
    out
}

/// Dense modular Gaussian elimination, the reference.
fn reference(case: &Case) -> (Vec<Sparse>, Reduction) {
    let p = case.p as u64;
    let mut pivots: Vec<Option<Vec<u64>>> = vec![None; case.ncols];
    for row in &case.upper {
        pivots[row.cols[0] as usize] = Some(dense(case.ncols, row));
    }
    let mut out = Reduction { new_pivots: 0, zero_rows: 0, unit: false };
    let mut leads: Vec<usize> = Vec::new();
    for row in &case.lower {
        let Some((lead, acc)) = reduce_reference_row(case, row, &pivots, p) else {
            out.zero_rows += 1;
            continue;
        };
        pivots[lead] = Some(acc);
        leads.push(lead);
        out.new_pivots += 1;
        if lead == case.ncols - 1 {
            out.unit = true;
            break;
        }
    }
    if !out.unit {
        backward_reference(&mut pivots, &mut leads, case.ncols, p);
    }
    leads.sort_unstable();
    let rows = leads.iter().map(|&lead| sparse(pivots[lead].as_ref().unwrap())).collect();
    (rows, out)
}

fn reduce_reference_row(case: &Case, row: &Sparse, pivots: &[Option<Vec<u64>>], p: u64) -> Option<(usize, Vec<u64>)> {
    let mut acc = dense(case.ncols, row);
    for col in 0..case.ncols {
        if acc[col] == 0 {
            continue;
        }
        if let Some(pivot) = &pivots[col] {
            subtract_reference(&mut acc, pivot, col, p);
            assert_eq!(acc[col], 0);
        }
    }
    let lead = acc.iter().position(|&value| value != 0)?;
    let scale = inverse(acc[lead], p);
    for value in &mut acc {
        *value = *value * scale % p;
    }
    Some((lead, acc))
}

fn backward_reference(pivots: &mut [Option<Vec<u64>>], leads: &mut [usize], ncols: usize, p: u64) {
    leads.sort_unstable();
    for &lead in leads.iter().rev() {
        let mut acc = pivots[lead].take().expect("a lead names a pivot");
        for col in lead + 1..ncols {
            if acc[col] == 0 {
                continue;
            }
            if let Some(pivot) = &pivots[col] {
                subtract_reference(&mut acc, pivot, col, p);
            }
        }
        pivots[lead] = Some(acc);
    }
}

fn subtract_reference(target: &mut [u64], pivot: &[u64], col: usize, p: u64) {
    let factor = p - target[col];
    for index in col..pivot.len() {
        target[index] = (target[index] + factor * pivot[index]) % p;
    }
}

fn check(case: &Case, field: &Small31) {
    let (want, want_out) = reference(case);
    let (got, got_out) = run(case, field, &mut Workspace::new());
    assert_eq!(got_out, want_out, "counters differ");
    assert_eq!(got.len(), want.len(), "pivot count differs");
    for (got, want) in got.iter().zip(&want) {
        assert_eq!(got.cols, want.cols, "columns differ");
        assert_eq!(got.vals, want.vals, "coefficients differ");
    }
}

#[test]
fn random_batches_match_the_dense_reference() {
    let mut rng = Rng(0x5eed);
    let field = Small31::new(SMALL_P);
    for _ in 0..200 {
        let ncols = 4 + rng.below(20) as usize;
        let npiv = 1 + rng.below(ncols as u64 - 1) as usize;
        let nlower = 1 + rng.below(8) as usize;
        let case = random_case(&mut rng, SMALL_P, ncols, npiv, nlower);
        check(&case, &field);
    }
}

#[test]
fn random_batches_match_the_reference_at_the_benchmark_modulus() {
    let mut rng = Rng(0xf00d);
    for _ in 0..100 {
        let ncols = 4 + rng.below(20) as usize;
        let npiv = 1 + rng.below(ncols as u64 - 1) as usize;
        let case = random_case(&mut rng, BENCH_P, ncols, npiv, 6);
        check(&case, &Small31::new(BENCH_P));
    }
}

#[test]
fn two_runs_agree() {
    let mut rng = Rng(0xabc);
    let case = random_case(&mut rng, SMALL_P, 24, 9, 7);
    let field = Small31::new(SMALL_P);
    let first = run(&case, &field, &mut Workspace::new());
    let second = run(&case, &field, &mut Workspace::new());
    assert_eq!(first.1, second.1);
    for (a, b) in first.0.iter().zip(&second.0) {
        assert_eq!(a.cols, b.cols);
        assert_eq!(a.vals, b.vals);
    }
}

#[test]
fn a_long_chain_of_applications_stays_inside_the_lane() {
    // One row that meets 24 pivots in a row, each dense to the last
    // column, at the large benchmark modulus.
    let field = Small31::new(BENCH_P);
    let ncols = 30;
    let pivot_cols: Vec<u32> = (0..24).collect();
    let upper = pivot_cols
        .iter()
        .map(|&lead| Sparse {
            cols: (lead..ncols as u32).collect(),
            vals: core::iter::once(1).chain((lead + 1..ncols as u32).map(|c| BENCH_P - 1 - c)).collect(),
        })
        .collect();
    let lower = vec![Sparse {
        cols: (0..ncols as u32).collect(),
        vals: (0..ncols as u32).map(|c| BENCH_P - 2 - c).collect(),
    }];
    let case = Case { p: BENCH_P, ncols, upper, lower };
    check(&case, &field);
}

#[test]
fn a_pivot_never_writes_its_leading_coefficient_back() {
    let field = Small31::new(SMALL_P);
    let case = Case {
        p: SMALL_P,
        ncols: 3,
        upper: vec![Sparse { cols: vec![0, 2], vals: vec![1, 7] }],
        lower: vec![Sparse { cols: vec![0, 1], vals: vec![4, 5] }],
    };
    let (rows, out) = run(&case, &field, &mut Workspace::new());
    assert_eq!(out.new_pivots, 1);
    // 4x^2 + 5x reduced by x^2 + 7 gives 5x - 28, monic x - 28/5.
    assert_eq!(rows[0].cols, [1, 2]);
    assert_eq!(rows[0].vals[0], 1);
    check(&case, &field);
}

#[test]
fn a_lane_holding_a_multiple_of_p_is_cleared() {
    // The first row leaves column 2 at 101, whose residue is zero. The
    // lane must be zero for the second row.
    let field = Small31::new(SMALL_P);
    let case = Case {
        p: SMALL_P,
        ncols: 4,
        upper: vec![Sparse { cols: vec![0, 2], vals: vec![1, 1] }],
        lower: vec![
            Sparse { cols: vec![0, 1, 2], vals: vec![1, 9, 1] },
            Sparse { cols: vec![0, 2], vals: vec![1, 3] },
        ],
    };
    let (rows, out) = run(&case, &field, &mut Workspace::new());
    assert_eq!(out.new_pivots, 2);
    assert_eq!(rows[0].cols, [1]);
    assert_eq!(rows[1].cols, [2]);
    assert_eq!(rows[1].vals, [1]);
    check(&case, &field);
}

#[test]
fn a_constant_pivot_stops_the_batch() {
    let field = Small31::new(SMALL_P);
    let case = Case {
        p: SMALL_P,
        ncols: 2,
        upper: vec![Sparse { cols: vec![0, 1], vals: vec![1, 3] }],
        lower: vec![Sparse { cols: vec![0, 1], vals: vec![2, 5] }, Sparse { cols: vec![0], vals: vec![4] }],
    };
    let (rows, out) = run(&case, &field, &mut Workspace::new());
    assert!(out.unit, "a nonzero constant is the unit basis");
    assert_eq!(out.new_pivots, 1, "the rows after the constant are left");
    assert_eq!(rows[0].cols, [1]);
    assert_eq!(rows[0].vals, [1]);
}

#[test]
fn a_reused_workspace_leaves_no_stale_lane() {
    let mut rng = Rng(0x1234);
    let first = random_case(&mut rng, SMALL_P, 18, 6, 5);
    let second = random_case(&mut rng, SMALL_P, 12, 4, 4);
    let field = Small31::new(SMALL_P);

    let mut shared = Workspace::new();
    run(&first, &field, &mut shared);
    let (reused, reused_out) = run(&second, &field, &mut shared);
    let (fresh, fresh_out) = run(&second, &field, &mut Workspace::new());

    assert_eq!(reused_out, fresh_out);
    for (a, b) in reused.iter().zip(&fresh) {
        assert_eq!(a.cols, b.cols);
        assert_eq!(a.vals, b.vals);
    }
}

#[test]
fn interreduction_reduces_every_tail() {
    // x^2 + 5x and x + 2 as pivot rows. The first row's tail holds x,
    // which the second row reduces away.
    let field = Small31::new(SMALL_P);
    let case = Case {
        p: SMALL_P,
        ncols: 3,
        upper: vec![Sparse { cols: vec![0, 1], vals: vec![1, 5] }, Sparse { cols: vec![1, 2], vals: vec![1, 2] }],
        lower: Vec::new(),
    };
    let mut b = batch(&case, &field);
    interreduce(&mut b, &mut Workspace::new(), &field, &ComputeLimits::none(), &mut NoTrace).unwrap();
    assert_eq!(b.pivot(0).cols, [0, 2]);
    assert_eq!(b.pivot(0).vals, [1, SMALL_P - 10]);
    assert_eq!(b.pivot(1).cols, [1, 2]);
    assert_eq!(b.pivot(1).vals, [1, 2]);
}

#[test]
fn a_malformed_batch_is_refused() {
    let field = Small31::new(SMALL_P);
    // Columns that do not ascend, and a coefficient at p.
    assert!(Row::new(&field, 4, vec![2, 1], vec![1, 1]).is_none());
    assert!(Row::new(&field, 4, vec![0, 1], vec![1, SMALL_P]).is_none());
    assert!(Row::new(&field, 4, vec![0, 4], vec![1, 1]).is_none());
    // A reducer row that is not monic.
    let not_monic = Row::new(&field, 4, vec![0, 1], vec![2, 1]).unwrap();
    assert!(Batch::new(&field, 4, 3, vec![not_monic], Vec::new()).is_none());
}

#[test]
fn an_open_deadline_never_stops_the_kernel() {
    let mut rng = Rng(0x99);
    let case = random_case(&mut rng, SMALL_P, 40, 10, 8);
    let field = Small31::new(SMALL_P);
    let mut b = batch(&case, &field);
    let out = reduce(&mut b, &mut Workspace::new(), &field, &ComputeLimits::none(), &mut NoTrace);
    assert!(out.is_ok());
}

/// A trace that counts what the kernel reports.
#[derive(Default)]
struct Counts {
    starts: u32,
    steps: u32,
    scales: u32,
    installed: u32,
}

impl Trace for Counts {
    fn records(&self) -> bool {
        true
    }
    fn restart(&mut self) {}
    fn rows(&mut self, _rows: &BatchRows) {}
    fn pivots_sorted(&mut self, _npiv: u32, _order: &[u32]) {}
    fn inserted(&mut self, _entries: &[Insertion]) {}
    fn returned(&mut self, _entries: &[Returned]) {}
    fn start(&mut self, _row: RowId) {
        self.starts += 1;
    }
    fn step(&mut self, _pivot: u32, _factor: u32) {
        self.steps += 1;
    }
    fn scale(&mut self, _scalar: u32) {
        self.scales += 1;
    }
    fn end(&mut self, installed: Option<u32>) {
        if installed.is_some() {
            self.installed += 1;
        }
    }
    fn held_bytes(&self) -> usize {
        0
    }
}

#[test]
fn the_trace_sees_every_row() {
    let field = Small31::new(SMALL_P);
    let mut rng = Rng(0x77);
    let case = random_case(&mut rng, SMALL_P, 16, 5, 4);
    let mut b = batch(&case, &field);
    let mut counts = Counts::default();
    let out = reduce(&mut b, &mut Workspace::new(), &field, &ComputeLimits::none(), &mut counts).unwrap();
    assert!(counts.starts >= case.lower.len() as u32, "every row to reduce starts");
    assert!(counts.steps > 0);
    assert!(counts.installed >= out.new_pivots, "every new pivot is reported");
    assert!(counts.scales <= case.lower.len() as u32);
}

fn mono(exps: &[u16]) -> Monomial {
    Monomial::from_exps(exps.to_vec())
}

#[test]
fn the_first_lead_by_degree_then_index_divides() {
    // leads: x^2 (degree 2), y (degree 1), x (degree 1), x*y^3 (degree 4)
    let leads = vec![mono(&[2, 0]), mono(&[0, 1]), mono(&[1, 0]), mono(&[1, 3])];
    let order = vec![1usize, 2, 0, 3];
    // x^2*y: y and x both divide at degree 1; y has the lower index.
    let (i, q) = find_divisor(&leads, &order, &mono(&[2, 1])).expect("y divides");
    assert_eq!(i, 1);
    assert_eq!(q.exps, vec![2u16, 0]);
    // x^3: x (index 2, degree 1) comes before x^2 (degree 2).
    let (i, q) = find_divisor(&leads, &order, &mono(&[3, 0])).expect("x divides");
    assert_eq!(i, 2);
    assert_eq!(q.exps, vec![2u16, 0]);
}

#[test]
fn no_lead_divides_a_constant() {
    let leads = vec![mono(&[0, 1]), mono(&[1, 0])];
    let order = vec![0usize, 1];
    assert!(find_divisor(&leads, &order, &mono(&[0, 0])).is_none());
    assert!(find_divisor(&[], &[], &mono(&[4, 4])).is_none());
}
