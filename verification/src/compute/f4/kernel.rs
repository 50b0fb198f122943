//! The reduction kernel and new pivot discovery.
//!
//! One row reduces in three steps. It scatters into a dense `u64`
//! accumulator, one lane per column. It walks the columns in increasing
//! order and, at every column that has a pivot row, adds `p - v` times
//! that pivot's tail. It gathers what is left. The walk covers every
//! column of the row, and it sets every lane it reads to zero, so the
//! accumulator is clean for the next row without a clearing pass.

use vstd::arithmetic::div_mod::{
    lemma_add_mod_noop, lemma_mod_bound, lemma_mod_twice, lemma_mul_mod_noop_right, lemma_small_mod,
};
use vstd::prelude::*;

use super::matrix::{
    Batch, NO_ROW, Row, entry, lemma_entry_at, lemma_entry_below, lemma_entry_push, lemma_entry_pushed,
    leads_distinct, strictly_increasing,
};
use super::span::{
    compose, in_span, lemma_compose, lemma_compose_len, lemma_lin_add, lemma_lin_scale, lemma_lin_unit, lemma_lin_zeros,
    lemma_span_extend, lemma_span_member, lemma_span_trans, lemma_spans_members, lin, represents, spans, unit, vadd,
    vscale, zeros,
};
use super::trace::{RowId, Trace};
use crate::compute::small31::Small31;
use crate::field::{lemma_product_nonzero, valid_modulus};
use crate::compute::{ComputeError, ComputeLimits, RunError};

verus! {

/// The columns one walk covers between two reads of the clock.
pub const WALK_STRIDE: usize = 1024;

/// `pivot_at` maps each of the `ncols` columns to the slot of the pivot
/// that leads there, or to [`NO_ROW`].
pub open spec fn maps_pivots(pivot_at: Seq<u32>, pivots: Seq<Row>, ncols: nat) -> bool {
    &&& pivot_at.len() >= ncols
    &&& forall|c: int|
        0 <= c < ncols ==> #[trigger] pivot_at[c] == NO_ROW || (pivot_at[c] < pivots.len()
            && pivots[pivot_at[c] as int].cols@[0] == c)
}

/// The sum the steps applied at column `c`: `factor` times pivot `slot`,
/// one step after another.
pub open spec fn combo(steps: Seq<(u32, u32)>, pivots: Seq<Row>, c: int) -> int
    decreases steps.len(),
{
    if steps.len() == 0 {
        0
    } else {
        combo(steps.drop_last(), pivots, c) + steps.last().1 as int * pivots[steps.last().0 as int].at(c)
    }
}

/// One more step adds its multiple of its pivot.
pub proof fn lemma_combo_push(steps: Seq<(u32, u32)>, step: (u32, u32), pivots: Seq<Row>, c: int)
    ensures
        combo(steps.push(step), pivots, c) == combo(steps, pivots, c) + step.1 as int * pivots[step.0 as int].at(c),
{
    assert(steps.push(step).drop_last() =~= steps);
}

/// What one walk from column `first` produced: the row left in `cols`,
/// `vals`, and the steps it applied. The row holds no column that has a
/// pivot, every step names a pivot that leads at or past `first`, and at
/// every column from `first` on the row is the accumulator plus the
/// steps, modulo `p`.
pub open spec fn walked(
    acc0: Seq<u64>,
    cols: Seq<u32>,
    vals: Seq<u32>,
    steps: Seq<(u32, u32)>,
    pivots: Seq<Row>,
    pivot_at: Seq<u32>,
    first: int,
    ncols: int,
    p: int,
) -> bool {
    &&& cols.len() == vals.len()
    &&& strictly_increasing(cols)
    &&& forall|k: int|
        #![trigger cols[k]]
        0 <= k < cols.len() ==> first <= cols[k] < ncols && pivot_at[cols[k] as int] == NO_ROW && 0 < vals[k] < p
    &&& forall|k: int|
        0 <= k < steps.len() ==> (#[trigger] steps[k]).0 < pivots.len() && steps[k].1 < p && first
            <= pivots[steps[k].0 as int].cols@[0]
    &&& forall|c: int|
        first <= c < ncols ==> #[trigger] entry(cols, vals, c) % p == (acc0[c] + combo(steps, pivots, c)) % p
}

/// Equal residues stay equal when the same value is added.
proof fn lemma_mod_shift(a: int, b: int, x: int, p: int)
    requires
        p > 0,
        a % p == b % p,
    ensures
        (a + x) % p == (b + x) % p,
{
    lemma_add_mod_noop(a, x, p);
    lemma_add_mod_noop(b, x, p);
}

/// Reduce every lane from `from` on to its residue.
fn sweep_from(field: &Small31, acc: &mut Vec<u64>, from: usize)
    requires
        field.wf(),
    ensures
        final(acc)@.len() == old(acc)@.len(),
        forall|c: int| from <= c < old(acc)@.len() ==> final(acc)@[c] as int == (old(acc)@[c] as int) % field.modulus(),
        forall|c: int| 0 <= c < from && c < old(acc)@.len() ==> final(acc)@[c] == old(acc)@[c],
{
    let ghost start = acc@;
    let mut i: usize = from;
    while i < acc.len()
        invariant
            field.wf(),
            from <= i,
            acc@.len() == start.len(),
            forall|c: int| from <= c < i && c < start.len() ==> acc@[c] as int == (start[c] as int) % field.modulus(),
            forall|c: int| (0 <= c < from || i <= c) && c < start.len() ==> acc@[c] == start[c],
        decreases start.len() - i,
    {
        let reduced = field.reduce_acc(acc[i]);
        acc.set(i, reduced as u64);
        i += 1;
    }
}

/// The elimination walk over one accumulator.
///
/// `acc` holds the row, `pivot_at` maps a column to its pivot, and the
/// result lands in `cols_out` and `vals_out`, ascending by column. Every
/// lane the walk reads becomes zero. A lane takes at most
/// [`Small31::applications_between_sweeps`] applications before the walk
/// sweeps the lanes past the current column, so no lane passes `u64`.
///
/// One row is unbounded work, so the walk reads the clock once per
/// [`WALK_STRIDE`] columns; a run past its deadline stops inside the row.
#[verifier::rlimit(60)]
#[verifier::spinoff_prover]
pub fn walk<T: Trace>(
    batch: &Batch,
    field: &Small31,
    first: usize,
    acc: &mut Vec<u64>,
    pivot_at: &[u32],
    cols_out: &mut Vec<u32>,
    vals_out: &mut Vec<u32>,
    limits: &ComputeLimits,
    trace: &mut T,
) -> (r: Result<Ghost<Seq<(u32, u32)>>, RunError>)
    requires
        field.wf(),
        batch.wf(field.modulus()),
        old(acc)@.len() == batch.ncols,
        first <= batch.ncols,
        maps_pivots(pivot_at@, batch.pivots@, batch.ncols as nat),
        forall|c: int| first <= c < batch.ncols ==> old(acc)@[c] < field.modulus(),
    ensures
        final(acc)@.len() == old(acc)@.len(),
        forall|c: int| 0 <= c < first ==> final(acc)@[c] == old(acc)@[c],
        r is Ok ==> forall|c: int| first <= c < batch.ncols ==> final(acc)@[c] == 0,
        r matches Ok(steps) ==> walked(
            old(acc)@,
            final(cols_out)@,
            final(vals_out)@,
            steps@,
            batch.pivots@,
            pivot_at@,
            first as int,
            batch.ncols as int,
            field.modulus(),
        ),
        final(trace).keeps() == old(trace).keeps(),
        r matches Ok(steps) ==> (old(trace).keeps() ==> final(trace).steps_seen() == old(trace).steps_seen()
            + steps@),
        r matches Ok(steps) ==> forall|k: int| 0 <= k < steps@.len() ==> 0 < #[trigger] steps@[k].1 < field.modulus(),
        r matches Err(e) ==> limits.stop_allowed(e),
{
    cols_out.clear();
    vals_out.clear();
    let ncols = acc.len();
    let between_sweeps = field.applications_between_sweeps();
    let ghost p = field.modulus();
    let ghost acc0 = acc@;
    let ghost pivots = batch.pivots@;
    let ghost mut steps: Seq<(u32, u32)> = Seq::empty();
    proof {
        field.lemma_bounds();
        assert(cols_out@ =~= Seq::<u32>::empty());
        assert(vals_out@ =~= Seq::<u32>::empty());
    }
    let mut applied: u64 = 0;
    let mut col: usize = first;
    while col < ncols
        invariant
            field.wf(),
            p == field.modulus(),
            2 <= p < 0x8000_0000,
            field.lane_limit_spec() == 0xffff_ffff_ffff_ffff - (2 * p - 1),
            between_sweeps == field.per_sweep_spec(),
            between_sweeps > 0,
            (p - 1) + between_sweeps * (2 * p - 1) <= 0xffff_ffff_ffff_ffff,
            batch.wf(p),
            pivots == batch.pivots@,
            ncols == batch.ncols,
            acc0 == old(acc)@,
            acc0.len() == ncols,
            acc@.len() == ncols,
            first <= col <= ncols,
            maps_pivots(pivot_at@, pivots, ncols as nat),
            applied <= between_sweeps,
            forall|c: int| col <= c < ncols ==> acc@[c] <= (p - 1) + applied * (2 * p - 1),
            forall|c: int| 0 <= c < first ==> acc@[c] == acc0[c],
            forall|c: int| first <= c < col ==> acc@[c] == 0,
            cols_out@.len() == vals_out@.len(),
            strictly_increasing(cols_out@),
            forall|k: int|
                #![trigger cols_out@[k]]
                0 <= k < cols_out@.len() ==> first <= cols_out@[k] < col && pivot_at@[cols_out@[k] as int] == NO_ROW
                    && 0 < vals_out@[k] < p,
            forall|k: int|
                0 <= k < steps.len() ==> (#[trigger] steps[k]).0 < pivots.len() && steps[k].1 < p && first
                    <= pivots[steps[k].0 as int].cols@[0] < col,
            forall|c: int|
                first <= c < col ==> #[trigger] entry(cols_out@, vals_out@, c) % p == (acc0[c] + combo(
                    steps,
                    pivots,
                    c,
                )) % p,
            forall|c: int| col <= c < ncols ==> (acc@[c] as int) % p == (acc0[c] + combo(steps, pivots, c)) % p,
            trace.keeps() == old(trace).keeps(),
            old(trace).keeps() ==> trace.steps_seen() == old(trace).steps_seen() + steps,
            forall|k: int| 0 <= k < steps.len() ==> 0 < #[trigger] steps[k].1 < p,
        decreases ncols - col,
    {
        if col % WALK_STRIDE == 0 {
            match limits.stop() {
                Some(stop) => {
                    return Err(stop);
                },
                None => {},
            }
        }
        let val = field.reduce_acc(acc[col]);
        let ghost lane = acc@[col as int];
        acc.set(col, 0);
        if val == 0 {
            proof {
                assert forall|k: int| 0 <= k < cols_out@.len() implies cols_out@[k] != col by {}
                assert(entry(cols_out@, vals_out@, col as int) == 0);
            }
        } else {
            let index = pivot_at[col];
            if index == NO_ROW {
                let ghost old_cols = cols_out@;
                let ghost old_vals = vals_out@;
                cols_out.push(col as u32);
                vals_out.push(val);
                proof {
                    assert forall|k: int| 0 <= k < cols_out@.len() implies first <= #[trigger] cols_out@[k] < col + 1
                        && pivot_at@[cols_out@[k] as int] == NO_ROW && 0 < vals_out@[k] < p by {
                        if k < old_cols.len() {
                            assert(cols_out@[k] == old_cols[k]);
                        }
                    }
                    lemma_entry_pushed(old_cols, old_vals, col as u32, val);
                    lemma_mod_twice(lane as int, p);
                    assert forall|c: int| first <= c < col + 1 implies #[trigger] entry(cols_out@, vals_out@, c) % p == (
                    acc0[c] + combo(steps, pivots, c)) % p by {
                        if c < col {
                            lemma_entry_push(old_cols, old_vals, col as u32, val, c);
                        }
                    }
                }
            } else {
                let pivot = batch.pivot(index as usize);
                proof {
                    assert(pivot.wf(p, ncols as nat) && pivot.monic());
                    assert(pivot.cols@[0] == col);
                }
                if applied == between_sweeps {
                    let ghost pre = acc@;
                    sweep_from(field, acc, col + 1);
                    applied = 0;
                    proof {
                        assert forall|c: int| col + 1 <= c < ncols implies (acc@[c] as int) % p == (acc0[c] + combo(
                            steps,
                            pivots,
                            c,
                        )) % p && acc@[c] <= (p - 1) + applied * (2 * p - 1) by {
                            lemma_mod_twice(pre[c] as int, p);
                            lemma_mod_bound(pre[c] as int, p);
                        }
                    }
                }
                let factor = field.sub(0, val);
                let ghost before = acc@;
                proof {
                    assert forall|k: int| 1 <= k < pivot.cols@.len() implies before[pivot.cols@[k] as int]
                        <= field.lane_limit_spec() by {
                        assert(pivot.cols@[0] < pivot.cols@[k]);
                        assert(applied < between_sweeps);
                        assert((p - 1) + applied * (2 * p - 1) <= 0xffff_ffff_ffff_ffff - (2 * p - 1)) by (nonlinear_arith)
                            requires
                                applied <= between_sweeps - 1,
                                p >= 2,
                                (p - 1) + between_sweeps * (2 * p - 1) <= 0xffff_ffff_ffff_ffff,
                        ;
                    }
                }
                field.axpy_from(
                    acc,
                    pivot.cols.as_slice(),
                    pivot.vals.as_slice(),
                    pivot.shoup.as_slice(),
                    factor,
                    1,
                );
                applied = applied + 1;
                let ghost step = (index, factor);
                let ghost old_steps = steps;
                proof {
                    steps = steps.push(step);
                    assert(pivots[index as int] == *pivot);
                    assert forall|c: int| first <= c < col + 1 implies #[trigger] entry(cols_out@, vals_out@, c) % p == (
                    acc0[c] + combo(steps, pivots, c)) % p by {
                        lemma_combo_push(old_steps, step, pivots, c);
                        assert(combo(steps, pivots, c) == combo(old_steps, pivots, c) + factor as int * pivot.at(c));
                        if c < col {
                            lemma_entry_below(pivot.cols@, pivot.vals@, c);
                            assert(pivot.at(c) == 0);
                            assert(combo(steps, pivots, c) == combo(old_steps, pivots, c));
                        }
                        if c == col {
                            assert forall|k: int| 0 <= k < cols_out@.len() implies cols_out@[k] != col by {}
                            assert(entry(cols_out@, vals_out@, c) == 0);
                            lemma_entry_at(pivot.cols@, pivot.vals@, 0);
                            lemma_mod_shift(lane as int, acc0[c] + combo(old_steps, pivots, c), factor as int, p);
                            lemma_add_mod_noop(lane as int, factor as int, p);
                            assert((val + factor) % p == 0) by {
                                assert(factor == (0 - val) % p);
                                lemma_add_mod_noop(val as int, 0 - val, p);
                                lemma_small_mod(val as nat, p as nat);
                            }
                            lemma_mod_twice(0 - val, p);
                            assert(lane as int % p == val);
                            assert(factor as int % p == factor);
                            assert((lane as int % p + factor as int % p) % p == 0);
                            assert(pivot.at(c) == 1);
                            assert(factor as int * pivot.at(c) == factor as int) by (nonlinear_arith)
                                requires
                                    pivot.at(c) == 1,
                            ;
                            assert(combo(steps, pivots, c) == combo(old_steps, pivots, c) + factor as int);
                            assert((acc0[c] + combo(steps, pivots, c)) % p == 0);
                        }
                    }
                    assert forall|c: int| col + 1 <= c < ncols implies (acc@[c] as int) % p == (acc0[c] + combo(
                        steps,
                        pivots,
                        c,
                    )) % p by {
                        lemma_combo_push(old_steps, step, pivots, c);
                        if exists|k: int| 1 <= k < pivot.cols@.len() && pivot.cols@[k] == c {
                            let k = choose|k: int| 1 <= k < pivot.cols@.len() && pivot.cols@[k] == c;
                            lemma_entry_at(pivot.cols@, pivot.vals@, k);
                            assert((acc@[c] as int) % p == (before[c] + pivot.vals@[k] as int * factor as int) % p);
                            assert(pivot.vals@[k] as int * factor as int == factor as int * pivot.at(c)) by (
                            nonlinear_arith)
                                requires
                                    pivot.at(c) == pivot.vals@[k] as int,
                            ;
                            assert(before[c] as int % p == (acc0[c] + combo(old_steps, pivots, c)) % p);
                            lemma_mod_shift(
                                before[c] as int,
                                acc0[c] + combo(old_steps, pivots, c),
                                pivot.vals@[k] as int * factor as int,
                                p,
                            );
                        } else {
                            assert(acc@[c] == before[c]);
                            if exists|k: int| 0 <= k < pivot.cols@.len() && pivot.cols@[k] == c {
                                let k = choose|k: int| 0 <= k < pivot.cols@.len() && pivot.cols@[k] == c;
                                assert(k == 0);
                            }
                            assert(pivot.at(c) == 0);
                        }
                    }
                    assert forall|c: int| col + 1 <= c < ncols implies acc@[c] <= (p - 1) + applied * (2 * p - 1) by {
                        assert((p - 1) + (applied - 1) * (2 * p - 1) + (2 * p - 1) == (p - 1) + applied * (2 * p - 1))
                            by (nonlinear_arith);
                    }
                }
                proof {
                    assert(factor as int == (0 - val) % p);
                    vstd::arithmetic::div_mod::lemma_mod_multiples_vanish(1, 0 - val, p);
                    lemma_small_mod((p - val) as nat, p as nat);
                    assert(0 < factor < p);
                    assert forall|k: int| 0 <= k < steps.len() implies 0 < #[trigger] steps[k].1 < p by {
                        if k < old_steps.len() {
                            assert(steps[k] == old_steps[k]);
                        }
                    }
                }
                trace.step(index, factor);
                proof {
                    if old(trace).keeps() {
                        assert(trace.steps_seen() =~= old(trace).steps_seen() + steps);
                    }
                }
            }
        }
        col += 1;
    }
    Ok(Ghost(steps))
}

/// What one call to [`reduce`] produced.
#[derive(Clone, Copy, Debug, PartialEq, Eq, Structural)]
pub struct Reduction {
    /// The number of pivots installed.
    pub new_pivots: u32,
    /// The number of rows that reduced to zero.
    pub zero_rows: u32,
    /// A new pivot is a nonzero constant, so the ideal is the whole ring.
    /// The rows after the constant are not reduced.
    pub unit: bool,
}

/// The accumulator, the pivot map, and the row the kernel is writing.
///
/// The run holds one value, so the vectors keep their allocations from
/// batch to batch. Every lane of the accumulator is zero between rows.
pub struct Workspace {
    /// One `u64` lane per column.
    pub acc: Vec<u64>,
    /// Maps a column to its pivot, or [`NO_ROW`].
    pub pivot_at: Vec<u32>,
    pub cols_out: Vec<u32>,
    pub vals_out: Vec<u32>,
    /// The precomputation for `vals_out`.
    pub shoup_out: Vec<u64>,
}

impl Workspace {
    /// Every lane of the accumulator is zero.
    pub open spec fn clean(&self) -> bool {
        forall|c: int| 0 <= c < self.acc@.len() ==> #[trigger] self.acc@[c] == 0
    }

    /// An empty workspace.
    pub fn new() -> (ws: Workspace)
        ensures
            ws.clean(),
            ws.acc@.len() == 0,
            ws.pivot_at@.len() == 0,
            ws.cols_out@.len() == 0,
            ws.vals_out@.len() == 0,
            ws.shoup_out@.len() == 0,
    {
        Workspace {
            acc: Vec::new(),
            pivot_at: Vec::new(),
            cols_out: Vec::new(),
            vals_out: Vec::new(),
            shoup_out: Vec::new(),
        }
    }
}

/// The pivot map names every pivot at its leading column.
pub open spec fn map_complete(pivot_at: Seq<u32>, pivots: Seq<Row>) -> bool {
    forall|i: int| 0 <= i < pivots.len() ==> #[trigger] pivot_at[pivots[i].cols@[0] as int] == i
}

/// What may stop the kernel: the deadline or the cancellation flags of
/// `limits`.
pub open spec fn kernel_stop(limits: ComputeLimits, e: RunError) -> bool {
    limits.stop_allowed(e)
}

/// Map every pivot column to its pivot.
fn map_pivots(batch: &Batch, ws: &mut Workspace, Ghost(p): Ghost<int>)
    requires
        batch.wf(p),
    ensures
        final(ws).acc@ == old(ws).acc@,
        final(ws).pivot_at@.len() == batch.ncols,
        maps_pivots(final(ws).pivot_at@, batch.pivots@, batch.ncols as nat),
        map_complete(final(ws).pivot_at@, batch.pivots@),
{
    let ncols = batch.ncols();
    ws.pivot_at.clear();
    while ws.pivot_at.len() < ncols
        invariant
            ws.pivot_at@.len() <= ncols,
            forall|c: int| 0 <= c < ws.pivot_at@.len() ==> #[trigger] ws.pivot_at@[c] == NO_ROW,
            ws.acc@ == old(ws).acc@,
        decreases ncols - ws.pivot_at@.len(),
    {
        ws.pivot_at.push(NO_ROW);
    }
    let count = batch.pivot_count();
    let mut i: usize = 0;
    while i < count
        invariant
            batch.wf(p),
            count == batch.pivots@.len(),
            ncols == batch.ncols,
            ws.pivot_at@.len() == ncols,
            i <= count,
            forall|c: int|
                0 <= c < ncols ==> #[trigger] ws.pivot_at@[c] == NO_ROW || (ws.pivot_at@[c] < i
                    && batch.pivots@[ws.pivot_at@[c] as int].cols@[0] == c),
            forall|j: int| 0 <= j < i ==> #[trigger] ws.pivot_at@[batch.pivots@[j].cols@[0] as int] == j,
            ws.acc@ == old(ws).acc@,
        decreases count - i,
    {
        let lead = batch.pivot(i).lead();
        proof {
            let row = batch.pivots@[i as int];
            assert(row.wf(p, ncols as nat) && row.monic());
            assert(row.cols@[0] < ncols);
            let at = ws.pivot_at@[lead as int];
            if at != NO_ROW {
                assert(batch.pivots@[at as int].cols@[0] == lead);
                assert(batch.pivots@[at as int].cols@[0] != batch.pivots@[i as int].cols@[0]);
            }
        }
        ws.pivot_at.set(lead as usize, i as u32);
        proof {
            assert forall|j: int| 0 <= j < i + 1 implies #[trigger] ws.pivot_at@[batch.pivots@[j].cols@[0] as int]
                == j by {
                if j < i {
                    assert(batch.pivots@[j].cols@[0] != batch.pivots@[i as int].cols@[0]);
                }
            }
        }
        i += 1;
    }
}

/// Size the accumulator and map every pivot column to its pivot.
fn prepare(batch: &Batch, ws: &mut Workspace, Ghost(p): Ghost<int>)
    requires
        batch.wf(p),
        old(ws).clean(),
    ensures
        final(ws).acc@.len() == batch.ncols,
        final(ws).clean(),
        final(ws).pivot_at@.len() == batch.ncols,
        maps_pivots(final(ws).pivot_at@, batch.pivots@, batch.ncols as nat),
        map_complete(final(ws).pivot_at@, batch.pivots@),
{
    let ncols = batch.ncols();
    ws.acc.truncate(ncols);
    while ws.acc.len() < ncols
        invariant
            ws.acc@.len() <= ncols,
            forall|c: int| 0 <= c < ws.acc@.len() ==> #[trigger] ws.acc@[c] == 0,
        decreases ncols - ws.acc@.len(),
    {
        ws.acc.push(0);
    }
    map_pivots(batch, ws, Ghost(p));
}

/// The coefficient `entry` gives is one of the row's, or zero.
proof fn lemma_entry_below_p(cols: Seq<u32>, vals: Seq<u32>, c: int, p: int)
    requires
        cols.len() == vals.len(),
        p > 0,
        forall|k: int| 0 <= k < vals.len() ==> vals[k] < p,
    ensures
        0 <= entry(cols, vals, c) < p,
{
    if exists|k: int| 0 <= k < cols.len() && cols[k] == c {
        let k = choose|k: int| 0 <= k < cols.len() && cols[k] == c;
        assert(vals[k] < p);
    }
}

/// Write the entries of one row from place `from` on into a clean
/// accumulator.
fn scatter(acc: &mut Vec<u64>, cols: &[u32], vals: &[u32], from: usize)
    requires
        cols@.len() == vals@.len(),
        from <= cols@.len(),
        strictly_increasing(cols@),
        forall|k: int| 0 <= k < cols@.len() ==> (cols@[k] as int) < old(acc)@.len(),
        forall|c: int| 0 <= c < old(acc)@.len() ==> old(acc)@[c] == 0,
    ensures
        final(acc)@.len() == old(acc)@.len(),
        forall|c: int|
            0 <= c < old(acc)@.len() ==> final(acc)@[c] as int == #[trigger] entry(
                cols@.skip(from as int),
                vals@.skip(from as int),
                c,
            ),
{
    let ghost n = acc@.len();
    let mut k: usize = from;
    while k < cols.len()
        invariant
            from <= k <= cols@.len(),
            cols@.len() == vals@.len(),
            strictly_increasing(cols@),
            acc@.len() == n,
            forall|j: int| 0 <= j < cols@.len() ==> (cols@[j] as int) < n,
            forall|c: int|
                0 <= c < n ==> acc@[c] as int == #[trigger] entry(
                    cols@.subrange(from as int, k as int),
                    vals@.subrange(from as int, k as int),
                    c,
                ),
        decreases cols@.len() - k,
    {
        let ghost sc = cols@.subrange(from as int, k as int);
        let ghost sv = vals@.subrange(from as int, k as int);
        acc.set(cols[k] as usize, vals[k] as u64);
        proof {
            assert(cols@.subrange(from as int, k + 1) =~= sc.push(cols@[k as int]));
            assert(vals@.subrange(from as int, k + 1) =~= sv.push(vals@[k as int]));
            assert forall|j: int| 0 <= j < sc.len() implies sc[j] < cols@[k as int] by {
                assert(sc[j] == cols@[from + j]);
            }
            assert(strictly_increasing(sc)) by {
                assert forall|a: int, b: int| 0 <= a < b < sc.len() implies sc[a] < sc[b] by {
                    assert(sc[a] == cols@[from + a] && sc[b] == cols@[from + b]);
                }
            }
            lemma_entry_pushed(sc, sv, cols@[k as int], vals@[k as int]);
            assert forall|c: int| 0 <= c < n implies acc@[c] as int == #[trigger] entry(
                cols@.subrange(from as int, k + 1),
                vals@.subrange(from as int, k + 1),
                c,
            ) by {
                if c != cols@[k as int] {
                    lemma_entry_push(sc, sv, cols@[k as int], vals@[k as int], c);
                }
            }
        }
        k += 1;
    }
    proof {
        assert(cols@.subrange(from as int, k as int) =~= cols@.skip(from as int));
        assert(vals@.subrange(from as int, k as int) =~= vals@.skip(from as int));
    }
}

/// The walk output in the workspace is a row the pivots leave alone:
/// strictly increasing columns below `ncols`, none with a pivot, and
/// coefficients in `(0, p)`.
pub open spec fn gathered(cols: Seq<u32>, vals: Seq<u32>, pivot_at: Seq<u32>, ncols: nat, p: int) -> bool {
    &&& cols.len() == vals.len()
    &&& strictly_increasing(cols)
    &&& forall|k: int|
        #![trigger cols[k]]
        0 <= k < cols.len() ==> cols[k] < ncols && pivot_at[cols[k] as int] == NO_ROW && 0 < vals[k] < p
}

/// The rows of `rows` whose slot is `from` or later hold no entry past
/// their lead in a column some row of `rows` leads in.
pub open spec fn reduced_from(rows: Seq<Row>, from: int) -> bool {
    forall|i: int, k: int, j: int|
        from <= i < rows.len() && 1 <= k < rows[i].cols@.len() && 0 <= j < rows.len() ==> #[trigger] rows[j].cols@[0]
            != #[trigger] rows[i].cols@[k]
}

/// No column of the row past its lead has a pivot.
pub open spec fn tail_free(row: Row, pivot_at: Seq<u32>) -> bool {
    forall|k: int| 1 <= k < row.cols@.len() ==> #[trigger] pivot_at[row.cols@[k] as int] == NO_ROW
}

/// `new` is `old` times `scale` modulo `p`, and `scale` makes the first
/// coefficient 1.
pub open spec fn scaled(new: Seq<u32>, old: Seq<u32>, scale: int, p: int) -> bool {
    &&& 0 < scale < p
    &&& (old[0] * scale) % p == 1
    &&& new.len() == old.len()
    &&& forall|k: int| 0 <= k < old.len() ==> #[trigger] new[k] == (old[k] * scale) % p
}

/// Rows with distinct leading columns below `ncols`, none of them at
/// column `c`, number fewer than `ncols`.
proof fn lemma_pivot_room(pivots: Seq<Row>, ncols: nat, c: int)
    requires
        leads_distinct(pivots),
        forall|i: int|
            0 <= i < pivots.len() ==> (#[trigger] pivots[i]).cols@.len() > 0 && pivots[i].cols@[0] < ncols
                && pivots[i].cols@[0] != c,
        0 <= c < ncols,
    ensures
        pivots.len() < ncols,
{
    let ls = Seq::new(pivots.len(), |i: int| pivots[i].cols@[0] as int);
    assert forall|a: int, b: int| 0 <= a < ls.len() && 0 <= b < ls.len() && a != b implies ls[a] != ls[b] by {
        if a < b {
            assert(pivots[a].cols@[0] != pivots[b].cols@[0]);
        } else {
            assert(pivots[b].cols@[0] != pivots[a].cols@[0]);
        }
    }
    assert(ls.no_duplicates());
    ls.unique_seq_to_set();
    let range = vstd::set_lib::set_int_range(0, ncols as int).remove(c);
    vstd::set_lib::lemma_int_range(0, ncols as int);
    assert forall|x: int| ls.to_set().contains(x) implies range.contains(x) by {
        assert(ls.contains(x));
        let i = choose|i: int| 0 <= i < ls.len() && ls[i] == x;
        assert(pivots[i].cols@[0] != c);
    }
    vstd::set_lib::lemma_len_subset(ls.to_set(), range);
}

/// Normalize the gathered row, append it, and install it as a pivot.
#[verifier::spinoff_prover]
#[verifier::rlimit(50)]
fn install<T: Trace>(
    batch: &mut Batch,
    field: &Small31,
    ws: &mut Workspace,
    raw: u32,
    trace: &mut T,
    Ghost(p): Ghost<int>,
) -> (r: (usize, Ghost<int>))
    requires
        field.wf(),
        valid_modulus(field.modulus() as u64),
        p == field.modulus(),
        old(batch).wf(p),
        old(ws).cols_out@.len() > 0,
        gathered(old(ws).cols_out@, old(ws).vals_out@, old(ws).pivot_at@, old(batch).ncols as nat, p),
        old(ws).pivot_at@.len() == old(batch).ncols,
        maps_pivots(old(ws).pivot_at@, old(batch).pivots@, old(batch).ncols as nat),
        map_complete(old(ws).pivot_at@, old(batch).pivots@),
    ensures
        final(batch).ncols == old(batch).ncols,
        final(batch).constant == old(batch).constant,
        final(batch).npiv == old(batch).npiv,
        final(batch).lower@ == old(batch).lower@,
        final(ws).acc@ == old(ws).acc@,
        final(ws).pivot_at@.len() == old(ws).pivot_at@.len(),
        final(batch).wf(p),
        r.0 == old(batch).pivots@.len() && final(batch).pivots@.len() == r.0 + 1,
        final(batch).pivots@.take(r.0 as int) == old(batch).pivots@,
        final(batch).pivots@[r.0 as int].cols@ == old(ws).cols_out@,
        final(batch).pivots@[r.0 as int].raw == raw,
        scaled(final(batch).pivots@[r.0 as int].vals@, old(ws).vals_out@, r.1@, p),
        maps_pivots(final(ws).pivot_at@, final(batch).pivots@, final(batch).ncols as nat),
        map_complete(final(ws).pivot_at@, final(batch).pivots@),
{
    proof {
        let c = ws.cols_out@[0] as int;
        assert forall|i: int| 0 <= i < batch.pivots@.len() implies (#[trigger] batch.pivots@[i]).cols@.len() > 0
            && batch.pivots@[i].cols@[0] < batch.ncols && batch.pivots@[i].cols@[0] != c by {
            assert(batch.pivots@[i].wf(p, batch.ncols as nat) && batch.pivots@[i].monic());
            assert(ws.pivot_at@[batch.pivots@[i].cols@[0] as int] == i);
            assert(ws.pivot_at@[c] == NO_ROW);
        }
        lemma_pivot_room(batch.pivots@, batch.ncols as nat, c);
    }
    let ghost ncols = batch.ncols as nat;
    let ghost before = ws.vals_out@;
    let lead = ws.vals_out[0];
    proof {
        field.lemma_bounds();
        assert(ws.cols_out@[0] < ncols);
        assert(0 < before[0] < p);
        assert forall|j: int| 0 <= j < before.len() implies 0 < #[trigger] before[j] < p by {
            assert(ws.cols_out@[j] < ncols);
        }
    }
    let mut scale: u32 = 1;
    if lead != 1 {
        scale = field.inv(lead);
        proof {
            if scale == 0 {
                assert(lead as int * scale as int == 0) by (nonlinear_arith)
                    requires
                        scale == 0,
                ;
                assert((0int) % p == 0);
            }
        }
        let mut k: usize = 0;
        while k < ws.vals_out.len()
            invariant
                field.wf(),
                valid_modulus(field.modulus() as u64),
                p == field.modulus(),
                2 <= p < 0x8000_0000,
                0 < scale < p,
                ws.vals_out@.len() == before.len(),
                k <= before.len(),
                forall|j: int| 0 <= j < before.len() ==> 0 < #[trigger] before[j] < p,
                forall|j: int| 0 <= j < k ==> #[trigger] ws.vals_out@[j] == (before[j] * scale) % p,
                forall|j: int| k <= j < before.len() ==> #[trigger] ws.vals_out@[j] == before[j],
                ws.cols_out@ == old(ws).cols_out@,
                ws.pivot_at@ == old(ws).pivot_at@,
                ws.acc@ == old(ws).acc@,
            decreases before.len() - k,
        {
            let v = ws.vals_out[k];
            assert(v as int * scale as int <= 0x8000_0000 * 0x8000_0000) by (nonlinear_arith)
                requires
                    v < 0x8000_0000,
                    scale < 0x8000_0000,
            ;
            let w = field.reduce_acc(v as u64 * scale as u64);
            ws.vals_out.set(k, w);
            k += 1;
        }
        trace.scale(scale);
    } else {
        proof {
            assert forall|j: int| 0 <= j < before.len() implies #[trigger] ws.vals_out@[j] == (before[j] * scale) % p by {
                lemma_small_mod(before[j] as nat, p as nat);
            }
        }
    }
    proof {
        assert forall|j: int| 0 <= j < before.len() implies 0 < #[trigger] ws.vals_out@[j] < p by {
            lemma_product_nonzero(before[j] as int, scale as int, p);
            lemma_mod_bound(before[j] * scale, p);
        }
    }
    field.precompute(ws.vals_out.as_slice(), &mut ws.shoup_out);
    let mut cols: Vec<u32> = Vec::new();
    let mut vals: Vec<u32> = Vec::new();
    let mut shoup: Vec<u64> = Vec::new();
    std::mem::swap(&mut cols, &mut ws.cols_out);
    std::mem::swap(&mut vals, &mut ws.vals_out);
    std::mem::swap(&mut shoup, &mut ws.shoup_out);
    let row = Row { cols, vals, shoup, raw };
    let first = row.cols[0];
    let index = batch.pivots.len();
    let ghost old_pivots = batch.pivots@;
    proof {
        assert(row.wf(p, ncols)) by {
            assert forall|k: int| 0 <= k < row.cols@.len() implies (#[trigger] row.cols@[k]) < ncols by {}
        }
        assert(row.monic());
    }
    batch.pivots.push(row);
    ws.pivot_at.set(first as usize, index as u32);
    trace.end(Some(index as u32));
    proof {
        let ps = batch.pivots@;
        assert(ps.take(index as int) =~= old_pivots);
        assert forall|j: int| 0 <= j < index implies ps[j].cols@[0] != first by {
            assert(old(ws).pivot_at@[old_pivots[j].cols@[0] as int] == j);
            assert(old(ws).pivot_at@[first as int] == NO_ROW);
        }
        assert(crate::compute::f4::matrix::leads_distinct(ps)) by {
            assert forall|a: int, b: int| 0 <= a < b < ps.len() implies (#[trigger] ps[a]).cols@[0] != (
            #[trigger] ps[b]).cols@[0] by {
                if b < index {
                    assert(ps[a] == old_pivots[a] && ps[b] == old_pivots[b]);
                }
            }
        }
        assert(ps.take(batch.npiv as int) =~= old_pivots.take(batch.npiv as int));
        assert forall|i: int| 0 <= i < ps.len() implies (#[trigger] ps[i]).wf(p, ncols) && ps[i].monic() by {
            if i < index {
                assert(ps[i] == old_pivots[i]);
            }
        }
        assert forall|c: int| 0 <= c < ncols implies #[trigger] ws.pivot_at@[c] == NO_ROW || (ws.pivot_at@[c] < ps.len()
            && ps[ws.pivot_at@[c] as int].cols@[0] == c) by {
            if c != first {
                assert(ws.pivot_at@[c] == old(ws).pivot_at@[c]);
                if ws.pivot_at@[c] != NO_ROW {
                    assert(ps[ws.pivot_at@[c] as int] == old_pivots[ws.pivot_at@[c] as int]);
                }
            }
        }
        assert forall|i: int| 0 <= i < ps.len() implies #[trigger] ws.pivot_at@[ps[i].cols@[0] as int] == i by {
            if i < index {
                assert(ps[i] == old_pivots[i]);
                assert(ps[i].cols@[0] != first);
            }
        }
        assert((before[0] * scale) % p == 1) by {
            if lead == 1 {
                lemma_small_mod(1, p as nat);
            }
        }
        assert(before == old(ws).vals_out@);
        assert(scaled(ps[index as int].vals@, old(ws).vals_out@, scale as int, p));
    }
    (index, Ghost(scale as int))
}

/// The batch keeps its shape: the columns, the constant column, the
/// reducer count, and the rows still to reduce.
pub open spec fn same_shape(a: Batch, b: Batch) -> bool {
    &&& a.ncols == b.ncols
    &&& a.constant == b.constant
    &&& a.npiv == b.npiv
    &&& a.lower@ == b.lower@
}

/// The workspace is ready for the next row of `batch`: a clean
/// accumulator of one lane per column and a pivot map that names every
/// pivot.
pub open spec fn ready(ws: Workspace, batch: Batch) -> bool {
    &&& ws.clean()
    &&& ws.acc@.len() == batch.ncols
    &&& ws.pivot_at@.len() == batch.ncols
    &&& maps_pivots(ws.pivot_at@, batch.pivots@, batch.ncols as nat)
    &&& map_complete(ws.pivot_at@, batch.pivots@)
}

/// The pivot is the constant row: one entry, in the constant column.
pub open spec fn is_constant_row(row: Row, constant: u32) -> bool {
    row.cols@.len() == 1 && row.cols@[0] == constant
}

/// Reduce row `r` still to reduce, and install it as a pivot when it
/// survives. Returns whether the new pivot is the constant row.
///
/// Every pivot stays in the span of `origin`, and the row lands in the
/// span of the pivots.
#[verifier::rlimit(60)]
#[verifier::spinoff_prover]
fn reduce_lower_row<T: Trace>(
    batch: &mut Batch,
    ws: &mut Workspace,
    r: usize,
    field: &Small31,
    limits: &ComputeLimits,
    trace: &mut T,
    out: &mut Reduction,
    Ghost(p): Ghost<int>,
    Ghost(origin): Ghost<Seq<Row>>,
) -> (res: Result<bool, RunError>)
    requires
        field.wf(),
        valid_modulus(field.modulus() as u64),
        p == field.modulus(),
        old(batch).wf(p),
        r < old(batch).lower@.len(),
        ready(*old(ws), *old(batch)),
        old(out).new_pivots + old(out).zero_rows <= r,
        old(out).new_pivots as int == old(batch).pivots@.len() - old(batch).npiv,
        !old(out).unit,
        spans(origin, old(batch).pivots@, p),
        in_span(old(batch).lower@[r as int], origin, p),
    ensures
        final(batch).wf(p),
        same_shape(*final(batch), *old(batch)),
        final(batch).pivots@.len() >= old(batch).pivots@.len(),
        final(batch).pivots@.take(old(batch).pivots@.len() as int) == old(batch).pivots@,
        spans(origin, final(batch).pivots@, p),
        res is Ok ==> in_span(old(batch).lower@[r as int], final(batch).pivots@, p),
        res is Ok ==> ready(*final(ws), *final(batch)),
        res is Ok ==> final(out).new_pivots + final(out).zero_rows == old(out).new_pivots + old(out).zero_rows + 1,
        res is Ok ==> final(out).new_pivots as int == final(batch).pivots@.len() - final(batch).npiv,
        res matches Ok(unit) ==> final(out).unit == unit,
        res matches Ok(unit) ==> unit ==> is_constant_row(final(batch).pivots@.last(), final(batch).constant)
            && final(batch).pivots@.len() > old(batch).pivots@.len(),
        res matches Err(e) ==> kernel_stop(*limits, e),
        limits.is_open() ==> res is Ok,
{
    let ghost ncols = batch.ncols as nat;
    let ghost lower = batch.lower@[r as int];
    let ghost pivots = batch.pivots@;
    proof {
        field.lemma_bounds();
        assert(lower.wf(p, ncols));
    }
    scatter(&mut ws.acc, batch.lower[r].cols.as_slice(), batch.lower[r].vals.as_slice(), 0);
    let first = batch.lower[r].cols[0] as usize;
    let ghost acc0 = ws.acc@;
    trace.start(RowId::Lower(r as u32));
    proof {
        assert(lower.cols@.skip(0) =~= lower.cols@);
        assert(lower.vals@.skip(0) =~= lower.vals@);
        assert forall|c: int| first <= c < ncols implies ws.acc@[c] < p by {
            lemma_entry_below_p(lower.cols@, lower.vals@, c, p);
        }
        assert forall|c: int| 0 <= c < first implies ws.acc@[c] == 0 by {
            lemma_entry_below(lower.cols@, lower.vals@, c);
        }
    }
    let steps = match walk(
        &*batch,
        field,
        first,
        &mut ws.acc,
        ws.pivot_at.as_slice(),
        &mut ws.cols_out,
        &mut ws.vals_out,
        limits,
        trace,
    ) {
        Ok(steps) => steps,
        Err(e) => {
            return Err(e);
        },
    };
    let ghost out_cols = ws.cols_out@;
    let ghost out_vals = ws.vals_out@;
    proof {
        assert forall|c: int| 0 <= c < ws.acc@.len() implies #[trigger] ws.acc@[c] == 0 by {}
        assert forall|k: int| 0 <= k < lower.cols@.len() implies first <= #[trigger] lower.cols@[k] < ncols by {
            if k > 0 {
                assert(lower.cols@[0] < lower.cols@[k]);
            }
        }
        assert forall|j: int| 0 <= j < pivots.len() implies strictly_increasing((#[trigger] pivots[j]).cols@)
            && pivots[j].cols@.len() > 0 && forall|k: int|
            0 <= k < pivots[j].cols@.len() ==> #[trigger] pivots[j].cols@[k] < ncols by {
            assert(pivots[j].wf(p, ncols) && pivots[j].monic());
        }
        lemma_walk_all(
            acc0,
            out_cols,
            out_vals,
            steps@,
            pivots,
            ws.pivot_at@,
            first as int,
            ncols as int,
            p,
            lower.cols@,
            lower.vals@,
        );
    }
    if ws.cols_out.len() == 0 {
        out.zero_rows = out.zero_rows + 1;
        trace.end(None);
        proof {
            assert forall|c: int| #[trigger] (lower.at(c) + combo(steps@, pivots, c)) % p == 0 by {
                assert(entry(out_cols, out_vals, c) == 0);
            }
            lemma_reverse_zero(lower, steps@, pivots, p);
        }
        return Ok(false);
    }
    let (index, scale) = install(batch, field, ws, NO_ROW, trace, Ghost(p));
    proof {
        let ps = batch.pivots@;
        let n = ps[index as int];
        assert(ps.take(index as int) == pivots);
        assert forall|k: int| 0 <= k < steps@.len() implies #[trigger] pivots[steps@[k].0 as int] == ps[steps@[k].0 as int] by {
            assert(ps.take(index as int)[steps@[k].0 as int] == ps[steps@[k].0 as int]);
        }
        assert forall|c: int| #[trigger] n.at(c) % p == (scale@ * (lower.at(c) + combo(steps@, pivots, c))) % p by {
            lemma_entry_scaled(out_cols, out_vals, n.vals@, scale@, p, c);
            let o = entry(out_cols, out_vals, c);
            lemma_mod_twice(o * scale@, p);
            assert(o * scale@ == scale@ * o) by (nonlinear_arith);
            lemma_mul_mod_noop_right(scale@, o, p);
            lemma_mul_mod_noop_right(scale@, lower.at(c) + combo(steps@, pivots, c), p);
        }
        lemma_forward(n, lower, scale@, steps@, pivots, origin, p);
        assert forall|j: int| 0 <= j < ps.len() implies in_span(#[trigger] ps[j], origin, p) by {
            if j < index {
                assert(ps[j] == pivots[j]);
            }
        }
        assert forall|c: int| (out_vals[0] * (#[trigger] ps[index as int].at(c))) % p == (lower.at(c) + combo(
            steps@,
            ps,
            c,
        )) % p by {
            lemma_entry_scaled(out_cols, out_vals, n.vals@, scale@, p, c);
            lemma_unscale(entry(out_cols, out_vals, c), scale@, out_vals[0] as int, p);
            assert((out_vals[0] * scale@) % p == 1);
            lemma_combo_same(steps@, pivots, ps, c);
        }
        lemma_reverse(lower, out_vals[0] as int, index as int, steps@, ps, p);
    }
    out.new_pivots = out.new_pivots + 1;
    let row = batch.pivot(index);
    let unit = row.len() == 1 && row.lead() == batch.constant;
    out.unit = unit;
    Ok(unit)
}

/// Reduce the rows still to reduce, in order, and install each survivor
/// as a pivot at once, so every later row reduces against it. A new pivot
/// that is the constant row stops the loop.
///
/// `origin` is the reducer rows followed by the rows still to reduce.
/// Every pivot stays in its span, and every row of it the loop reached
/// lands in the span of the pivots.
fn reduce_lower_rows<T: Trace>(
    batch: &mut Batch,
    ws: &mut Workspace,
    field: &Small31,
    limits: &ComputeLimits,
    trace: &mut T,
    Ghost(p): Ghost<int>,
    Ghost(origin): Ghost<Seq<Row>>,
) -> (r: Result<Reduction, RunError>)
    requires
        field.wf(),
        valid_modulus(field.modulus() as u64),
        p == field.modulus(),
        old(batch).wf(p),
        old(batch).pivots@.len() == old(batch).npiv,
        ready(*old(ws), *old(batch)),
        origin == old(batch).pivots@ + old(batch).lower@,
    ensures
        final(batch).wf(p),
        same_shape(*final(batch), *old(batch)),
        final(batch).pivots@.take(old(batch).npiv as int) == old(batch).pivots@,
        spans(origin, final(batch).pivots@, p),
        r is Ok ==> ready(*final(ws), *final(batch)),
        r matches Ok(out) ==> spans(
            final(batch).pivots@,
            origin.take(final(batch).npiv + out.new_pivots + out.zero_rows),
            p,
        ),
        r matches Ok(out) ==> out.new_pivots as int == final(batch).pivots@.len() - final(batch).npiv,
        r matches Ok(out) ==> out.new_pivots + out.zero_rows <= final(batch).lower@.len(),
        r matches Ok(out) ==> !out.unit ==> out.new_pivots + out.zero_rows == final(batch).lower@.len(),
        r matches Ok(out) ==> out.unit ==> final(batch).pivots@.len() > final(batch).npiv && is_constant_row(
            final(batch).pivots@.last(),
            final(batch).constant,
        ),
        r matches Err(e) ==> kernel_stop(*limits, e),
        limits.is_open() ==> r is Ok,
{
    let mut out = Reduction { new_pivots: 0, zero_rows: 0, unit: false };
    let n = batch.lower.len();
    let ghost start = batch.pivots@;
    let ghost npiv = batch.npiv as int;
    proof {
        assert forall|j: int| 0 <= j < start.len() implies in_span(#[trigger] start[j], origin, p) by {
            assert(origin[j] == start[j]);
            lemma_span_member(origin, j, p);
        }
        assert(origin.take(npiv) =~= start);
        assert forall|j: int| 0 <= j < origin.take(npiv).len() implies in_span(
            #[trigger] origin.take(npiv)[j],
            start,
            p,
        ) by {
            lemma_span_member(start, j, p);
        }
    }
    let mut r: usize = 0;
    while r < n
        invariant
            field.wf(),
            valid_modulus(field.modulus() as u64),
            p == field.modulus(),
            batch.wf(p),
            same_shape(*batch, *old(batch)),
            n == batch.lower@.len(),
            start == old(batch).pivots@,
            start.len() == batch.npiv,
            npiv == batch.npiv,
            origin == start + batch.lower@,
            batch.pivots@.len() >= start.len(),
            batch.pivots@.take(start.len() as int) == start,
            ready(*ws, *batch),
            r <= n,
            out.new_pivots + out.zero_rows == r,
            out.new_pivots as int == batch.pivots@.len() - batch.npiv,
            !out.unit,
            spans(origin, batch.pivots@, p),
            spans(batch.pivots@, origin.take(npiv + r), p),
        decreases n - r,
    {
        match limits.stop_every(r) {
            Some(stop) => {
                return Err(stop);
            },
            None => {},
        }
        let ghost before = batch.pivots@;
        proof {
            assert(origin[npiv + r] == batch.lower@[r as int]);
            lemma_span_member(origin, npiv + r, p);
        }
        let unit = match reduce_lower_row(batch, ws, r, field, limits, trace, &mut out, Ghost(p), Ghost(origin)) {
            Ok(unit) => unit,
            Err(e) => {
                return Err(e);
            },
        };
        proof {
            assert(batch.pivots@.take(start.len() as int) =~= batch.pivots@.take(before.len() as int).take(
                start.len() as int,
            ));
            let covered = origin.take(npiv + r + 1);
            assert forall|j: int| 0 <= j < covered.len() implies in_span(#[trigger] covered[j], batch.pivots@, p) by {
                if j < npiv + r {
                    assert(covered[j] == origin.take(npiv + r)[j]);
                    assert(in_span(origin.take(npiv + r)[j], before, p));
                    lemma_span_extend(covered[j], before, batch.pivots@, p);
                } else {
                    assert(covered[j] == batch.lower@[r as int]);
                }
            }
        }
        if unit {
            return Ok(out);
        }
        r += 1;
    }
    Ok(out)
}

/// Whether the walk output is the tail of `row` already.
fn same_tail(row: &Row, cols: &Vec<u32>, vals: &Vec<u32>) -> (b: bool)
    requires
        row.cols@.len() == row.vals@.len(),
        row.cols@.len() >= 1,
        cols@.len() == vals@.len(),
    ensures
        b <==> (cols@ == row.cols@.skip(1) && vals@ == row.vals@.skip(1)),
{
    let n = row.cols.len();
    if cols.len() != n - 1 {
        proof {
            if cols@ == row.cols@.skip(1) {
                assert(cols@.len() == row.cols@.skip(1).len());
            }
        }
        return false;
    }
    let mut k: usize = 0;
    while k < cols.len()
        invariant
            cols@.len() == n - 1,
            vals@.len() == n - 1,
            n == row.cols@.len(),
            n == row.vals@.len(),
            k <= cols@.len(),
            forall|j: int| 0 <= j < k ==> cols@[j] == row.cols@[j + 1] && vals@[j] == row.vals@[j + 1],
        decreases cols@.len() - k,
    {
        if cols[k] != row.cols[k + 1] || vals[k] != row.vals[k + 1] {
            proof {
                if cols@ == row.cols@.skip(1) && vals@ == row.vals@.skip(1) {
                    assert(cols@[k as int] == row.cols@.skip(1)[k as int]);
                    assert(vals@[k as int] == row.vals@.skip(1)[k as int]);
                }
            }
            return false;
        }
        k += 1;
    }
    proof {
        assert(cols@ =~= row.cols@.skip(1));
        assert(vals@ =~= row.vals@.skip(1));
    }
    true
}

/// Every row keeps its leading column.
pub open spec fn same_leads(a: Seq<Row>, b: Seq<Row>) -> bool {
    &&& a.len() == b.len()
    &&& forall|i: int| 0 <= i < a.len() ==> (#[trigger] a[i]).cols@[0] == b[i].cols@[0]
}

/// A pivot map that names every pivot of one list names every pivot of a
/// list with the same leads.
proof fn lemma_same_leads_map(pivot_at: Seq<u32>, a: Seq<Row>, b: Seq<Row>, ncols: nat)
    requires
        same_leads(a, b),
        maps_pivots(pivot_at, b, ncols),
        map_complete(pivot_at, b),
    ensures
        maps_pivots(pivot_at, a, ncols),
        map_complete(pivot_at, a),
{
    assert forall|c: int| 0 <= c < ncols implies #[trigger] pivot_at[c] == NO_ROW || (pivot_at[c] < a.len()
        && a[pivot_at[c] as int].cols@[0] == c) by {
        if pivot_at[c] != NO_ROW {
            assert(a[pivot_at[c] as int].cols@[0] == b[pivot_at[c] as int].cols@[0]);
        }
    }
    assert forall|i: int| 0 <= i < a.len() implies #[trigger] pivot_at[a[i].cols@[0] as int] == i by {
        assert(a[i].cols@[0] == b[i].cols@[0]);
    }
}

/// Reduce the tail of every pivot from `from` on, backward.
///
/// The pass takes the pivots in decreasing slot order, and with the
/// pivots from `from` on sorted by leading column, a row meets only rows
/// that are already reduced. Each row keeps its leading term and reduces
/// its tail against every pivot; a row whose tail the walk leaves as it
/// was stays as it is.
///
/// Every pivot stays in the span of `origin`, and every row of `covered`
/// stays in the span of the pivots.
#[verifier::rlimit(60)]
#[verifier::spinoff_prover]
fn backward<T: Trace>(
    batch: &mut Batch,
    ws: &mut Workspace,
    from: usize,
    field: &Small31,
    limits: &ComputeLimits,
    trace: &mut T,
    Ghost(origin): Ghost<Seq<Row>>,
    Ghost(covered): Ghost<Seq<Row>>,
) -> (r: Result<(), RunError>)
    requires
        field.wf(),
        old(batch).wf(field.modulus()),
        from <= old(batch).pivots@.len(),
        ready(*old(ws), *old(batch)),
        spans(origin, old(batch).pivots@, field.modulus()),
        spans(old(batch).pivots@, covered, field.modulus()),
    ensures
        final(batch).wf(field.modulus()),
        same_shape(*final(batch), *old(batch)),
        same_leads(final(batch).pivots@, old(batch).pivots@),
        forall|i: int| 0 <= i < from ==> #[trigger] final(batch).pivots@[i] == old(batch).pivots@[i],
        spans(origin, final(batch).pivots@, field.modulus()),
        spans(final(batch).pivots@, covered, field.modulus()),
        r is Ok ==> ready(*final(ws), *final(batch)),
        r is Ok ==> reduced_from(final(batch).pivots@, from as int),
        r matches Err(e) ==> kernel_stop(*limits, e),
        limits.is_open() ==> r is Ok,
{
    let ghost p = field.modulus();
    let ghost ncols = batch.ncols as nat;
    let ghost start = batch.pivots@;
    proof {
        field.lemma_bounds();
    }
    let count = batch.pivot_count();
    let mut index: usize = count;
    while index > from
        invariant
            field.wf(),
            p == field.modulus(),
            2 <= p,
            ncols == batch.ncols,
            batch.wf(p),
            same_shape(*batch, *old(batch)),
            start == old(batch).pivots@,
            same_leads(batch.pivots@, start),
            count == start.len(),
            from <= index <= count,
            forall|i: int| 0 <= i < index ==> #[trigger] batch.pivots@[i] == start[i],
            ready(*ws, *batch),
            forall|i: int| index <= i < count ==> tail_free(#[trigger] batch.pivots@[i], ws.pivot_at@),
            spans(origin, batch.pivots@, p),
            spans(batch.pivots@, covered, p),
        decreases index,
    {
        match limits.stop_every(index) {
            Some(stop) => {
                return Err(stop);
            },
            None => {},
        }
        index -= 1;
        let len = batch.pivots[index].cols.len();
        if len < 2 {
            proof {
                assert(tail_free(batch.pivots@[index as int], ws.pivot_at@));
            }
        } else {
            let ghost row = batch.pivots@[index as int];
            proof {
                assert(row.wf(p, ncols) && row.monic());
            }
            scatter(&mut ws.acc, batch.pivots[index].cols.as_slice(), batch.pivots[index].vals.as_slice(), 1);
            let first = batch.pivots[index].cols[1] as usize;
            let ghost acc0 = ws.acc@;
            let ghost pivots = batch.pivots@;
            trace.start(RowId::Pivot(index as u32));
            proof {
                let tc = row.cols@.skip(1);
                let tv = row.vals@.skip(1);
                assert(strictly_increasing(tc)) by {
                    assert forall|a: int, b: int| 0 <= a < b < tc.len() implies tc[a] < tc[b] by {
                        assert(tc[a] == row.cols@[a + 1] && tc[b] == row.cols@[b + 1]);
                    }
                }
                assert forall|k: int| 0 <= k < tv.len() implies tv[k] < p by {
                    assert(tv[k] == row.vals@[k + 1]);
                }
                assert(tc[0] == first);
                assert forall|c: int| first <= c < ncols implies ws.acc@[c] < p by {
                    lemma_entry_below_p(tc, tv, c, p);
                }
                assert forall|c: int| 0 <= c < first implies ws.acc@[c] == 0 by {
                    lemma_entry_below(tc, tv, c);
                }
            }
            let steps = match walk(
                &*batch,
                field,
                first,
                &mut ws.acc,
                ws.pivot_at.as_slice(),
                &mut ws.cols_out,
                &mut ws.vals_out,
                limits,
                trace,
            ) {
                Ok(steps) => steps,
                Err(e) => {
                    return Err(e);
                },
            };
            proof {
                assert forall|c: int| 0 <= c < ws.acc@.len() implies #[trigger] ws.acc@[c] == 0 by {}
            }
            let unchanged = same_tail(&batch.pivots[index], &ws.cols_out, &ws.vals_out);
            if unchanged {
                trace.end(Some(index as u32));
                proof {
                    assert forall|k: int| 1 <= k < row.cols@.len() implies #[trigger] ws.pivot_at@[row.cols@[k] as int]
                        == NO_ROW by {
                        assert(row.cols@[k] == ws.cols_out@[k - 1]);
                    }
                }
            } else {
                let lead = batch.pivots[index].cols[0];
                let raw = batch.pivots[index].raw;
                let ghost out_cols = ws.cols_out@;
                let ghost out_vals = ws.vals_out@;
                ws.cols_out.insert(0, lead);
                ws.vals_out.insert(0, 1);
                proof {
                    assert forall|k: int| 0 <= k < ws.vals_out@.len() implies ws.vals_out@[k] < p by {
                        if k > 0 {
                            assert(ws.vals_out@[k] == out_vals[k - 1]);
                            assert(out_cols[k - 1] < ncols);
                        }
                    }
                }
                field.precompute(ws.vals_out.as_slice(), &mut ws.shoup_out);
                let mut cols: Vec<u32> = Vec::new();
                let mut vals: Vec<u32> = Vec::new();
                let mut shoup: Vec<u64> = Vec::new();
                std::mem::swap(&mut cols, &mut ws.cols_out);
                std::mem::swap(&mut vals, &mut ws.vals_out);
                std::mem::swap(&mut shoup, &mut ws.shoup_out);
                let fresh = Row { cols, vals, shoup, raw };
                let ghost before = batch.pivots@;
                proof {
                    assert(fresh.cols@ == out_cols.insert(0, lead));
                    assert forall|k: int| 0 <= k < out_cols.len() implies lead < #[trigger] out_cols[k] by {
                        assert(out_cols[k] >= first);
                        assert(row.cols@[0] < row.cols@[1]);
                    }
                    assert(strictly_increasing(fresh.cols@)) by {
                        assert forall|a: int, b: int| 0 <= a < b < fresh.cols@.len() implies fresh.cols@[a]
                            < fresh.cols@[b] by {
                            if a > 0 {
                                assert(fresh.cols@[a] == out_cols[a - 1] && fresh.cols@[b] == out_cols[b - 1]);
                            } else {
                                assert(fresh.cols@[b] == out_cols[b - 1]);
                            }
                        }
                    }
                    assert(fresh.wf(p, ncols)) by {
                        assert forall|k: int| 0 <= k < fresh.cols@.len() implies (#[trigger] fresh.cols@[k]) < ncols by {
                            if k > 0 {
                                assert(fresh.cols@[k] == out_cols[k - 1]);
                            }
                        }
                        assert forall|k: int| 0 <= k < fresh.vals@.len() implies 0 < #[trigger] fresh.vals@[k] < p by {
                            if k > 0 {
                                assert(fresh.vals@[k] == out_vals[k - 1]);
                                assert(out_cols[k - 1] < ncols);
                            }
                        }
                    }
                    assert(fresh.monic());
                    assert(tail_free(fresh, ws.pivot_at@)) by {
                        assert forall|k: int| 1 <= k < fresh.cols@.len() implies #[trigger] ws.pivot_at@[fresh.cols@[k] as int]
                            == NO_ROW by {
                            assert(fresh.cols@[k] == out_cols[k - 1]);
                        }
                    }
                }
                proof {
                    let tc = row.cols@.skip(1);
                    let tv = row.vals@.skip(1);
                    assert(strictly_increasing(tc)) by {
                        assert forall|a: int, b: int| 0 <= a < b < tc.len() implies tc[a] < tc[b] by {
                            assert(tc[a] == row.cols@[a + 1] && tc[b] == row.cols@[b + 1]);
                        }
                    }
                    assert forall|k: int| 0 <= k < tc.len() implies first <= #[trigger] tc[k] < ncols by {
                        assert(tc[k] == row.cols@[k + 1]);
                        if k > 0 {
                            assert(row.cols@[1] < row.cols@[k + 1]);
                        }
                    }
                    assert forall|j: int| 0 <= j < pivots.len() implies strictly_increasing((#[trigger] pivots[j]).cols@)
                        && pivots[j].cols@.len() > 0 && forall|k: int|
                        0 <= k < pivots[j].cols@.len() ==> #[trigger] pivots[j].cols@[k] < ncols by {
                        assert(pivots[j].wf(p, ncols) && pivots[j].monic());
                    }
                    lemma_walk_all(acc0, out_cols, out_vals, steps@, pivots, ws.pivot_at@, first as int, ncols as int, p, tc, tv);
                    assert forall|c: int| #[trigger] fresh.at(c) % p == (1 * (row.at(c) + combo(steps@, pivots, c))) % p by {
                        lemma_entry_front(out_cols, out_vals, lead, c);
                        lemma_entry_tail(row, c);
                        if c == lead {
                            assert forall|k: int| 0 <= k < steps@.len() implies #[trigger] pivots[steps@[k].0 as int].at(c)
                                == 0 by {
                                let pr = pivots[steps@[k].0 as int];
                                assert(pr.wf(p, ncols));
                                lemma_entry_below(pr.cols@, pr.vals@, c);
                            }
                            lemma_combo_zero(steps@, pivots, c);
                        }
                    }
                    assert(in_span(row, origin, p));
                    lemma_forward(fresh, row, 1, steps@, pivots, origin, p);
                }
                batch.pivots.set(index, fresh);
                trace.end(Some(index as u32));
                proof {
                    let ps = batch.pivots@;
                    assert forall|k: int| 0 <= k < steps@.len() implies #[trigger] pivots[steps@[k].0 as int]
                        == ps[steps@[k].0 as int] by {
                        let slot = steps@[k].0 as int;
                        assert(first <= pivots[slot].cols@[0]);
                        assert(pivots[index as int].cols@[0] < first);
                    }
                    assert forall|c: int| (1 * (#[trigger] ps[index as int].at(c))) % p == (row.at(c) + combo(
                        steps@,
                        ps,
                        c,
                    )) % p by {
                        lemma_combo_same(steps@, pivots, ps, c);
                        assert(fresh.at(c) % p == (1 * (row.at(c) + combo(steps@, pivots, c))) % p);
                        lemma_mod_twice(row.at(c) + combo(steps@, pivots, c), p);
                    }
                    lemma_reverse(row, 1, index as int, steps@, ps, p);
                    assert forall|j: int| 0 <= j < pivots.len() implies in_span(#[trigger] pivots[j], ps, p) by {
                        if j == index {
                        } else {
                            assert(ps[j] == pivots[j]);
                            lemma_span_member(ps, j, p);
                        }
                    }
                    assert forall|j: int| 0 <= j < covered.len() implies in_span(#[trigger] covered[j], ps, p) by {
                        assert(in_span(covered[j], pivots, p));
                        lemma_span_trans(covered[j], pivots, ps, p);
                    }
                    assert forall|j: int| 0 <= j < ps.len() implies in_span(#[trigger] ps[j], origin, p) by {
                        if j != index {
                            assert(ps[j] == pivots[j]);
                        }
                    }
                }
                proof {
                    let ps = batch.pivots@;
                    assert(same_leads(ps, before));
                    assert(same_leads(ps, start));
                    lemma_same_leads_map(ws.pivot_at@, ps, before, ncols);
                    assert(crate::compute::f4::matrix::leads_distinct(ps)) by {
                        assert forall|a: int, b: int| 0 <= a < b < ps.len() implies (#[trigger] ps[a]).cols@[0] != (
                        #[trigger] ps[b]).cols@[0] by {
                            assert(ps[a].cols@[0] == before[a].cols@[0]);
                            assert(ps[b].cols@[0] == before[b].cols@[0]);
                        }
                    }
                    assert(crate::compute::f4::matrix::sorted_from(ps.take(batch.npiv as int), 0)) by {
                        assert forall|a: int, b: int| 0 <= a < b < ps.take(batch.npiv as int).len() implies (
                        #[trigger] ps.take(batch.npiv as int)[a]).cols@[0] < (#[trigger] ps.take(
                            batch.npiv as int,
                        )[b]).cols@[0] by {
                            assert(ps.take(batch.npiv as int)[a] == ps[a]);
                            assert(ps.take(batch.npiv as int)[b] == ps[b]);
                            assert(before.take(batch.npiv as int)[a] == before[a]);
                            assert(before.take(batch.npiv as int)[b] == before[b]);
                        }
                    }
                    assert forall|i: int| 0 <= i < ps.len() implies (#[trigger] ps[i]).wf(p, ncols) && ps[i].monic() by {
                        if i != index {
                            assert(ps[i] == before[i]);
                        }
                    }
                    assert forall|i: int| index <= i < count implies tail_free(#[trigger] ps[i], ws.pivot_at@) by {
                        if i != index {
                            assert(ps[i] == before[i]);
                        }
                    }
                }
            }
        }
    }
    proof {
        let ps = batch.pivots@;
        assert forall|i: int, k: int, j: int|
            from <= i < ps.len() && 1 <= k < ps[i].cols@.len() && 0 <= j < ps.len() implies #[trigger] ps[j].cols@[0]
            != #[trigger] ps[i].cols@[k] by {
            assert(tail_free(ps[i], ws.pivot_at@));
            assert(ws.pivot_at@[ps[i].cols@[k] as int] == NO_ROW);
            assert(ws.pivot_at@[ps[j].cols@[0] as int] == j);
        }
    }
    Ok(())
}

/// Sort the new pivots by leading column and, unless the batch stopped at
/// the constant row, reduce their tails.
fn finish_reduction<T: Trace>(
    batch: &mut Batch,
    ws: &mut Workspace,
    npiv: usize,
    unit: bool,
    field: &Small31,
    limits: &ComputeLimits,
    trace: &mut T,
    Ghost(origin): Ghost<Seq<Row>>,
    Ghost(covered): Ghost<Seq<Row>>,
) -> (r: Result<(), RunError>)
    requires
        field.wf(),
        old(batch).wf(field.modulus()),
        npiv == old(batch).npiv,
        ready(*old(ws), *old(batch)),
        spans(origin, old(batch).pivots@, field.modulus()),
        spans(old(batch).pivots@, covered, field.modulus()),
    ensures
        spans(origin, final(batch).pivots@, field.modulus()),
        spans(final(batch).pivots@, covered, field.modulus()),
        final(batch).wf(field.modulus()),
        same_shape(*final(batch), *old(batch)),
        final(batch).pivots@.len() == old(batch).pivots@.len(),
        forall|i: int| 0 <= i < npiv ==> #[trigger] final(batch).pivots@[i] == old(batch).pivots@[i],
        crate::compute::f4::matrix::sorted_from(final(batch).pivots@, npiv as int),
        unit ==> forall|j: int|
            npiv <= j < old(batch).pivots@.len() && is_constant_row(#[trigger] old(batch).pivots@[j], old(batch).constant)
                ==> exists|i: int|
                npiv <= i < final(batch).pivots@.len() && is_constant_row(
                    #[trigger] final(batch).pivots@[i],
                    final(batch).constant,
                ),
        r is Ok ==> final(ws).clean(),
        r is Ok && !unit ==> ready(*final(ws), *final(batch)),
        r is Ok && !unit ==> reduced_from(final(batch).pivots@, npiv as int),
        r matches Err(e) ==> kernel_stop(*limits, e),
        limits.is_open() ==> r is Ok,
{
    let ghost p = field.modulus();
    let ghost old_rows = batch.pivots@;
    proof {
        field.lemma_bounds();
        assert forall|i: int| 0 <= i < old_rows.len() implies (#[trigger] old_rows[i]).cols@.len() > 0 by {
            assert(old_rows[i].monic());
        }
    }
    let order = batch.sort_pivots_from(npiv);
    if trace.records() {
        trace.pivots_sorted(npiv as u32, order.as_slice());
    }
    proof {
        crate::compute::f4::matrix::lemma_permutes(batch.pivots@, old_rows, npiv as int, p, batch.ncols as nat);
        let ps = batch.pivots@;
        assert(ps.take(npiv as int) =~= old_rows.take(npiv as int));
        let perm = choose|perm: Seq<int>| #[trigger] crate::compute::f4::matrix::rearranges(perm, ps, old_rows, npiv as int);
        assert forall|j: int|
            npiv <= j < old_rows.len() && is_constant_row(#[trigger] old_rows[j], batch.constant) implies exists|i: int|
            npiv <= i < ps.len() && is_constant_row(#[trigger] ps[i], batch.constant) by {
            let i = crate::compute::f4::matrix::lemma_rearranges_onto(perm, ps, old_rows, npiv as int, j);
            assert(ps[i] == old_rows[j]);
        }
        assert forall|j: int| 0 <= j < old_rows.len() implies in_span(#[trigger] old_rows[j], ps, p) by {
            if j < npiv {
                assert(ps[j] == old_rows[j]);
                lemma_span_member(ps, j, p);
            } else {
                let i = crate::compute::f4::matrix::lemma_rearranges_onto(perm, ps, old_rows, npiv as int, j);
                lemma_span_member(ps, i, p);
            }
        }
        assert forall|j: int| 0 <= j < covered.len() implies in_span(#[trigger] covered[j], ps, p) by {
            assert(in_span(covered[j], old_rows, p));
            lemma_span_trans(covered[j], old_rows, ps, p);
        }
        assert forall|i: int| 0 <= i < ps.len() implies in_span(#[trigger] ps[i], origin, p) by {
            if i < npiv {
                assert(ps[i] == old_rows[i]);
            } else {
                assert(ps[i] == old_rows[perm[i]]);
            }
        }
    }
    if unit {
        return Ok(());
    }
    map_pivots(&*batch, ws, Ghost(p));
    backward(batch, ws, npiv, field, limits, trace, Ghost(origin), Ghost(covered))
}

/// Reduce the rows still to reduce against the pivots, and install the
/// new pivots.
///
/// Rows reduce in batch order, and a row that survives becomes the pivot
/// of its leading column at once, so every later row reduces against it.
/// After the row loop the new pivots are sorted by leading column and
/// interreduced backward. A new pivot that is the constant row stops the
/// batch: the ideal is the whole ring.
pub fn reduce<T: Trace>(
    batch: &mut Batch,
    ws: &mut Workspace,
    field: &Small31,
    limits: &ComputeLimits,
    trace: &mut T,
) -> (r: Result<
    Reduction,
    RunError,
>)
    requires
        field.wf(),
        valid_modulus(field.modulus() as u64),
        old(batch).wf(field.modulus()),
        old(batch).pivots@.len() == old(batch).npiv,
        old(ws).clean(),
    ensures
        final(batch).wf(field.modulus()),
        same_shape(*final(batch), *old(batch)),
        final(batch).pivots@.take(final(batch).npiv as int) == old(batch).pivots@,
        r is Ok ==> final(ws).clean(),
        r matches Ok(out) ==> out.new_pivots as int == final(batch).pivots@.len() - final(batch).npiv,
        r matches Ok(out) ==> crate::compute::f4::matrix::sorted_from(final(batch).pivots@, final(batch).npiv as int),
        r matches Ok(out) ==> out.new_pivots + out.zero_rows <= final(batch).lower@.len(),
        r matches Ok(out) ==> !out.unit ==> out.new_pivots + out.zero_rows == final(batch).lower@.len()
            && reduced_from(final(batch).pivots@, final(batch).npiv as int),
        r matches Ok(out) ==> out.unit ==> exists|i: int|
            final(batch).npiv <= i < final(batch).pivots@.len() && is_constant_row(
                #[trigger] final(batch).pivots@[i],
                final(batch).constant,
            ),
        r matches Ok(out) ==> spans(old(batch).pivots@ + old(batch).lower@, final(batch).pivots@, field.modulus()),
        r matches Ok(out) ==> spans(
            final(batch).pivots@,
            (old(batch).pivots@ + old(batch).lower@).take(final(batch).npiv + out.new_pivots + out.zero_rows),
            field.modulus(),
        ),
        r matches Err(e) ==> kernel_stop(*limits, e),
        limits.is_open() ==> r is Ok,
{
    let ghost p = field.modulus();
    let ghost origin = batch.pivots@ + batch.lower@;
    prepare(&*batch, ws, Ghost(p));
    let npiv = batch.npiv();
    let out = match reduce_lower_rows(batch, ws, field, limits, trace, Ghost(p), Ghost(origin)) {
        Ok(out) => out,
        Err(e) => {
            return Err(e);
        },
    };
    let ghost mid = batch.pivots@;
    proof {
        if out.unit {
            assert(is_constant_row(mid[mid.len() - 1], batch.constant));
        }
    }
    let ghost covered = origin.take(npiv + out.new_pivots + out.zero_rows);
    match finish_reduction(batch, ws, npiv, out.unit, field, limits, trace, Ghost(origin), Ghost(covered)) {
        Ok(()) => {},
        Err(e) => {
            return Err(e);
        },
    }
    proof {
        assert(batch.pivots@.take(npiv as int) =~= mid.take(npiv as int));
    }
    Ok(out)
}

/// Reduce the tail of every pivot row of `batch`.
///
/// Every element of a basis is the pivot of its own leading column. Each
/// keeps its leading term and reduces its tail against the others; an
/// element never reduces itself, because its own lead is no column of its
/// tail.
pub fn interreduce<T: Trace>(
    batch: &mut Batch,
    ws: &mut Workspace,
    field: &Small31,
    limits: &ComputeLimits,
    trace: &mut T,
) -> (r: Result<
    (),
    RunError,
>)
    requires
        field.wf(),
        old(batch).wf(field.modulus()),
        old(ws).clean(),
    ensures
        final(batch).wf(field.modulus()),
        same_shape(*final(batch), *old(batch)),
        same_leads(final(batch).pivots@, old(batch).pivots@),
        r is Ok ==> final(ws).clean(),
        r is Ok ==> reduced_from(final(batch).pivots@, 0),
        spans(old(batch).pivots@, final(batch).pivots@, field.modulus()),
        spans(final(batch).pivots@, old(batch).pivots@, field.modulus()),
        r matches Err(e) ==> kernel_stop(*limits, e),
        limits.is_open() ==> r is Ok,
{
    let ghost p = field.modulus();
    let ghost rows = batch.pivots@;
    proof {
        assert forall|j: int| 0 <= j < rows.len() implies in_span(#[trigger] rows[j], rows, p) by {
            lemma_span_member(rows, j, p);
        }
    }
    prepare(&*batch, ws, Ghost(p));
    backward(batch, ws, 0, field, limits, trace, Ghost(rows), Ghost(rows))
}

/// The coefficient vector over `n` pivots that the steps apply.
pub open spec fn step_coeffs(steps: Seq<(u32, u32)>, n: nat) -> Seq<int>
    decreases steps.len(),
{
    if steps.len() == 0 {
        zeros(n)
    } else {
        vadd(step_coeffs(steps.drop_last(), n), vscale(steps.last().1 as int, unit(n, steps.last().0 as int)))
    }
}

/// The steps apply the combination [`step_coeffs`] of the pivots.
proof fn lemma_step_coeffs(steps: Seq<(u32, u32)>, pivots: Seq<Row>, c: int)
    requires
        forall|k: int| 0 <= k < steps.len() ==> (#[trigger] steps[k]).0 < pivots.len(),
    ensures
        step_coeffs(steps, pivots.len()).len() == pivots.len(),
        combo(steps, pivots, c) == lin(step_coeffs(steps, pivots.len()), pivots, c),
    decreases steps.len(),
{
    let n = pivots.len();
    if steps.len() == 0 {
        lemma_lin_zeros(n, pivots, c);
    } else {
        let head = steps.drop_last();
        let last = steps.last();
        assert(last == steps[steps.len() - 1]);
        lemma_step_coeffs(head, pivots, c);
        lemma_lin_add(step_coeffs(head, n), vscale(last.1 as int, unit(n, last.0 as int)), pivots, c);
        lemma_lin_scale(last.1 as int, unit(n, last.0 as int), pivots, c);
        lemma_lin_unit(n, last.0 as int, pivots, c);
    }
}

/// The steps add nothing at a column every pivot they name leaves empty.
proof fn lemma_combo_zero(steps: Seq<(u32, u32)>, pivots: Seq<Row>, c: int)
    requires
        forall|k: int| 0 <= k < steps.len() ==> #[trigger] pivots[steps[k].0 as int].at(c) == 0,
    ensures
        combo(steps, pivots, c) == 0,
    decreases steps.len(),
{
    if steps.len() > 0 {
        let last = steps.last();
        assert(last == steps[steps.len() - 1]);
        lemma_combo_zero(steps.drop_last(), pivots, c);
        let z = pivots[last.0 as int].at(c);
        assert(last.1 as int * z == 0) by (nonlinear_arith)
            requires
                z == 0,
        ;
    }
}

/// A row has no entry past its columns.
proof fn lemma_entry_absent(cols: Seq<u32>, vals: Seq<u32>, c: int)
    requires
        forall|k: int| 0 <= k < cols.len() ==> cols[k] != c,
    ensures
        entry(cols, vals, c) == 0,
{
}

/// The walk relation holds at every column: outside `[first, ncols)` the
/// row, the source, and every pivot the steps name are empty.
proof fn lemma_walk_all(
    acc0: Seq<u64>,
    cols: Seq<u32>,
    vals: Seq<u32>,
    steps: Seq<(u32, u32)>,
    pivots: Seq<Row>,
    pivot_at: Seq<u32>,
    first: int,
    ncols: int,
    p: int,
    src_cols: Seq<u32>,
    src_vals: Seq<u32>,
)
    requires
        walked(acc0, cols, vals, steps, pivots, pivot_at, first, ncols, p),
        forall|c: int| first <= c < ncols ==> acc0[c] as int == entry(src_cols, src_vals, c),
        strictly_increasing(src_cols),
        forall|k: int| 0 <= k < src_cols.len() ==> first <= #[trigger] src_cols[k] < ncols,
        forall|j: int|
            0 <= j < pivots.len() ==> strictly_increasing((#[trigger] pivots[j]).cols@) && pivots[j].cols@.len() > 0
                && forall|k: int| 0 <= k < pivots[j].cols@.len() ==> #[trigger] pivots[j].cols@[k] < ncols,
    ensures
        forall|c: int| #[trigger] entry(cols, vals, c) % p == (entry(src_cols, src_vals, c) + combo(steps, pivots, c)) % p,
{
    assert forall|c: int| #[trigger] entry(cols, vals, c) % p == (entry(src_cols, src_vals, c) + combo(steps, pivots, c)) % p by {
        if c < first || c >= ncols {
            assert forall|k: int| 0 <= k < cols.len() implies cols[k] != c by {
                assert(first <= cols[k] < ncols);
            }
            assert forall|k: int| 0 <= k < src_cols.len() implies src_cols[k] != c by {
                assert(first <= src_cols[k] < ncols);
            }
            lemma_entry_absent(cols, vals, c);
            lemma_entry_absent(src_cols, src_vals, c);
            assert forall|k: int| 0 <= k < steps.len() implies #[trigger] pivots[steps[k].0 as int].at(c) == 0 by {
                let row = pivots[steps[k].0 as int];
                assert(first <= row.cols@[0]);
                if c < first {
                    lemma_entry_below(row.cols@, row.vals@, c);
                } else {
                    assert forall|m: int| 0 <= m < row.cols@.len() implies row.cols@[m] != c by {
                        assert(row.cols@[m] < ncols);
                    }
                }
            }
            lemma_combo_zero(steps, pivots, c);
        }
    }
}

/// Undo a scaling: `l * ((o * s) % p)` is `o` modulo `p` when `l * s` is 1.
proof fn lemma_unscale(o: int, s: int, l: int, p: int)
    requires
        p > 0,
        (l * s) % p == 1,
    ensures
        (l * ((o * s) % p)) % p == o % p,
{
    lemma_mul_mod_noop_right(l, o * s, p);
    assert(l * (o * s) == o * (l * s)) by (nonlinear_arith);
    lemma_mul_mod_noop_right(o, l * s, p);
    assert(o * 1 == o);
}

/// The entry of a scaled row is the scaled entry.
proof fn lemma_entry_scaled(cols: Seq<u32>, vals: Seq<u32>, scaled_vals: Seq<u32>, scale: int, p: int, c: int)
    requires
        cols.len() == vals.len(),
        scaled_vals.len() == vals.len(),
        strictly_increasing(cols),
        forall|k: int| 0 <= k < vals.len() ==> #[trigger] scaled_vals[k] == (vals[k] * scale) % p,
        p > 0,
    ensures
        entry(cols, scaled_vals, c) == (entry(cols, vals, c) * scale) % p,
{
    if exists|k: int| 0 <= k < cols.len() && cols[k] == c {
        let k = choose|k: int| 0 <= k < cols.len() && cols[k] == c;
        lemma_entry_at(cols, vals, k);
        lemma_entry_at(cols, scaled_vals, k);
    } else {
        assert(0 * scale == 0) by (nonlinear_arith);
    }
}

/// A row that agrees with `t` times the source plus the steps lies in the
/// span of what spans the source and the pivots.
proof fn lemma_forward(new: Row, src: Row, t: int, steps: Seq<(u32, u32)>, pivots: Seq<Row>, origin: Seq<Row>, p: int)
    requires
        p > 0,
        in_span(src, origin, p),
        spans(origin, pivots, p),
        forall|k: int| 0 <= k < steps.len() ==> (#[trigger] steps[k]).0 < pivots.len(),
        forall|c: int| #[trigger] new.at(c) % p == (t * (src.at(c) + combo(steps, pivots, c))) % p,
    ensures
        in_span(new, origin, p),
{
    let vs = choose|v: Seq<int>| #[trigger] represents(src, v, origin, p);
    let n = pivots.len();
    let sc = step_coeffs(steps, n);
    let w = Seq::new(n, |j: int| choose|v: Seq<int>| #[trigger] represents(pivots[j], v, origin, p));
    assert forall|j: int| 0 <= j < n implies represents(#[trigger] pivots[j], w[j], origin, p) by {
        assert(in_span(pivots[j], origin, p));
    }
    lemma_step_coeffs(steps, pivots, 0);
    lemma_compose_len(sc, w, origin.len());
    let comp = compose(sc, w, origin.len());
    let v = vscale(t, vadd(vs, comp));
    assert forall|c: int| #[trigger] new.at(c) % p == lin(v, origin, c) % p by {
        lemma_step_coeffs(steps, pivots, c);
        lemma_compose(sc, pivots, w, origin, p, c);
        lemma_lin_add(vs, comp, origin, c);
        lemma_lin_scale(t, vadd(vs, comp), origin, c);
        let a = src.at(c);
        let b = combo(steps, pivots, c);
        let la = lin(vs, origin, c);
        let lb = lin(comp, origin, c);
        assert(a % p == la % p);
        assert(b % p == lb % p);
        lemma_add_mod_noop(a, b, p);
        lemma_add_mod_noop(la, lb, p);
        lemma_mul_mod_noop_right(t, a + b, p);
        lemma_mul_mod_noop_right(t, la + lb, p);
    }
    assert(represents(new, v, origin, p));
}

/// A source whose multiple `a` of one pivot `x` is the source plus the
/// steps lies in the span of the pivots.
proof fn lemma_reverse(src: Row, a: int, xi: int, steps: Seq<(u32, u32)>, pivots: Seq<Row>, p: int)
    requires
        p > 0,
        0 <= xi < pivots.len(),
        forall|k: int| 0 <= k < steps.len() ==> (#[trigger] steps[k]).0 < pivots.len(),
        forall|c: int| (a * (#[trigger] pivots[xi].at(c))) % p == (src.at(c) + combo(steps, pivots, c)) % p,
    ensures
        in_span(src, pivots, p),
{
    let n = pivots.len();
    let sc = step_coeffs(steps, n);
    lemma_step_coeffs(steps, pivots, 0);
    let v = vadd(vscale(a, unit(n, xi)), vscale(-1, sc));
    assert forall|c: int| #[trigger] src.at(c) % p == lin(v, pivots, c) % p by {
        lemma_step_coeffs(steps, pivots, c);
        lemma_lin_add(vscale(a, unit(n, xi)), vscale(-1, sc), pivots, c);
        lemma_lin_scale(a, unit(n, xi), pivots, c);
        lemma_lin_scale(-1, sc, pivots, c);
        lemma_lin_unit(n, xi, pivots, c);
        let s = src.at(c);
        let b = combo(steps, pivots, c);
        let x = pivots[xi].at(c);
        assert((a * x) % p == (s + b) % p);
        lemma_add_mod_noop(a * x, -b, p);
        lemma_add_mod_noop(s + b, -b, p);
        assert(s + b + -b == s);
    }
    assert(represents(src, v, pivots, p));
}

/// A source the steps cancel lies in the span of the pivots.
proof fn lemma_reverse_zero(src: Row, steps: Seq<(u32, u32)>, pivots: Seq<Row>, p: int)
    requires
        p > 0,
        forall|k: int| 0 <= k < steps.len() ==> (#[trigger] steps[k]).0 < pivots.len(),
        forall|c: int| #[trigger] (src.at(c) + combo(steps, pivots, c)) % p == 0,
    ensures
        in_span(src, pivots, p),
{
    let n = pivots.len();
    let sc = step_coeffs(steps, n);
    lemma_step_coeffs(steps, pivots, 0);
    let v = vscale(-1, sc);
    assert forall|c: int| #[trigger] src.at(c) % p == lin(v, pivots, c) % p by {
        lemma_step_coeffs(steps, pivots, c);
        lemma_lin_scale(-1, sc, pivots, c);
        let s = src.at(c);
        let b = combo(steps, pivots, c);
        assert((s + b) % p == 0);
        lemma_add_mod_noop(s + b, -b, p);
        lemma_add_mod_noop(0, -b, p);
        assert(s + b + -b == s);
        assert((0int) % p == 0);
    }
    assert(represents(src, v, pivots, p));
}

/// The steps read only the pivots they name.
proof fn lemma_combo_same(steps: Seq<(u32, u32)>, pivots: Seq<Row>, other: Seq<Row>, c: int)
    requires
        forall|k: int| 0 <= k < steps.len() ==> #[trigger] pivots[steps[k].0 as int] == other[steps[k].0 as int],
    ensures
        combo(steps, pivots, c) == combo(steps, other, c),
    decreases steps.len(),
{
    if steps.len() > 0 {
        assert(steps.last() == steps[steps.len() - 1]);
        lemma_combo_same(steps.drop_last(), pivots, other, c);
    }
}

/// A row with its leading entry put back in front.
proof fn lemma_entry_front(cols: Seq<u32>, vals: Seq<u32>, lead: u32, c: int)
    requires
        cols.len() == vals.len(),
        strictly_increasing(cols),
        forall|k: int| 0 <= k < cols.len() ==> lead < #[trigger] cols[k],
    ensures
        entry(cols.insert(0, lead), vals.insert(0, 1u32), c) == if c == lead {
            1
        } else {
            entry(cols, vals, c)
        },
{
    let nc = cols.insert(0, lead);
    let nv = vals.insert(0, 1u32);
    assert(strictly_increasing(nc)) by {
        assert forall|a: int, b: int| 0 <= a < b < nc.len() implies nc[a] < nc[b] by {
            if a == 0 {
                assert(nc[b] == cols[b - 1]);
            } else {
                assert(nc[a] == cols[a - 1] && nc[b] == cols[b - 1]);
            }
        }
    }
    if c == lead {
        lemma_entry_at(nc, nv, 0);
    } else if exists|k: int| 0 <= k < cols.len() && cols[k] == c {
        let k = choose|k: int| 0 <= k < cols.len() && cols[k] == c;
        lemma_entry_at(cols, vals, k);
        assert(nc[k + 1] == c);
        lemma_entry_at(nc, nv, k + 1);
        assert(nv[k + 1] == vals[k]);
    } else {
        assert forall|k: int| 0 <= k < nc.len() implies nc[k] != c by {
            if k > 0 {
                assert(nc[k] == cols[k - 1]);
            }
        }
    }
}

/// A monic row is its lead plus its tail.
proof fn lemma_entry_tail(row: Row, c: int)
    requires
        row.cols@.len() == row.vals@.len(),
        strictly_increasing(row.cols@),
        row.monic(),
    ensures
        row.at(c) == if c == row.cols@[0] {
            1
        } else {
            entry(row.cols@.skip(1), row.vals@.skip(1), c)
        },
{
    let tc = row.cols@.skip(1);
    let tv = row.vals@.skip(1);
    assert(row.cols@ =~= tc.insert(0, row.cols@[0]));
    assert(row.vals@ =~= tv.insert(0, 1u32));
    assert(strictly_increasing(tc)) by {
        assert forall|a: int, b: int| 0 <= a < b < tc.len() implies tc[a] < tc[b] by {
            assert(tc[a] == row.cols@[a + 1] && tc[b] == row.cols@[b + 1]);
        }
    }
    assert forall|k: int| 0 <= k < tc.len() implies row.cols@[0] < #[trigger] tc[k] by {
        assert(tc[k] == row.cols@[k + 1]);
    }
    lemma_entry_front(tc, tv, row.cols@[0], c);
}

} // verus!
