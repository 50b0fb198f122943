//! The recording hook of the F4 engine.
//!
//! The kernel is generic over [`Trace`], so the raw path carries no trace
//! work. [`NoTrace`] is the raw path's trace. The recorder that lowers the
//! reports into certificate nodes lives with the certificate writer,
//! because the shape of a node belongs to the certificate and not to the
//! engine.
//!
//! Four of the methods report one batch: [`Trace::rows`],
//! [`Trace::pivots_sorted`], [`Trace::inserted`], and [`Trace::returned`].
//! The other four report one row as the kernel reduces it.

use vstd::prelude::*;

verus! {

/// A row of one batch, for the trace.
#[derive(Clone, Copy, Debug, PartialEq, Eq, Structural)]
pub enum RowId {
    /// Row `index` of the rows still to reduce.
    Lower(u32),
    /// Row `index` of the batch's pivot list.
    Pivot(u32),
}

/// One row of a batch: where it sits and the basis element it multiplies.
///
/// The multiplier is in [`BatchRows::mults`], at the row's own position.
#[derive(Clone, Copy, Debug, PartialEq, Eq, Structural)]
pub struct BatchRow {
    /// The row's place in the batch.
    pub place: RowId,
    /// The global basis index the row multiplies.
    pub source: u32,
}

/// The rows of one batch.
///
/// The pivot rows come first, in increasing pivot slot, then the rows to
/// reduce, in increasing lower slot. `mults` holds `nvars` exponents per
/// row, in the order of `rows`.
pub struct BatchRows<'a> {
    /// One entry per row of the batch.
    pub rows: &'a [BatchRow],
    /// The multipliers, `nvars` exponents per row.
    pub mults: &'a [u32],
    /// The number of variables, which is the stride of `mults`.
    pub nvars: usize,
}

/// One element a batch added to the basis.
#[derive(Clone, Copy, Debug, PartialEq, Eq, Structural)]
pub struct Insertion {
    /// The sorted pivot slot the element came from.
    pub pivot: u32,
    /// The global basis index the element received, or `None` when the
    /// run stopped before it.
    pub basis: Option<u32>,
}

/// One element of the basis a run returns.
#[derive(Clone, Copy, Debug, PartialEq, Eq, Structural)]
pub enum Returned {
    /// The pivot at this slot of the last batch.
    Pivot(u32),
    /// The generator at this input index, which seeding found to be a
    /// nonzero constant.
    Input(u32),
}

/// What the engine reports while it computes.
///
/// The kernel calls [`Trace::start`], [`Trace::step`], [`Trace::scale`],
/// and [`Trace::end`] in the order it applies the operations, so a
/// recorder builds one node per row. The run loop calls the other four
/// methods between batches.
pub trait Trace {
    /// Whether the trace keeps what it is told; a trace keeps nothing
    /// unless it says otherwise.
    open spec fn keeps(&self) -> bool {
        false
    }

    /// The steps a keeping trace was told, in order: each the pivot slot
    /// and the factor of one [`Trace::step`].
    open spec fn steps_seen(&self) -> Seq<(u32, u32)> {
        Seq::empty()
    }

    /// Whether the trace keeps what it is told. The engine builds no
    /// report for a trace that keeps nothing.
    fn records(&self) -> bool;

    /// The run starts again at a wider lane width; the trace drops every
    /// node and every map of the failed attempt.
    fn restart(&mut self)
        ensures
            final(self).keeps() == old(self).keeps(),
    ;

    /// The rows of the batch that is about to reduce.
    fn rows(&mut self, rows: &BatchRows)
        ensures
            final(self).keeps() == old(self).keeps(),
    ;

    /// The pivots from `npiv` on were sorted by leading column:
    /// `order[r]` is the slot the row now at slot `npiv + r` held before.
    fn pivots_sorted(&mut self, npiv: u32, order: &[u32])
        ensures
            final(self).keeps() == old(self).keeps(),
    ;

    /// The new pivots of the batch went into the basis, in this order.
    fn inserted(&mut self, entries: &[Insertion])
        ensures
            final(self).keeps() == old(self).keeps(),
    ;

    /// The run returns this basis.
    fn returned(&mut self, entries: &[Returned])
        ensures
            final(self).keeps() == old(self).keeps(),
    ;

    /// A row starts reducing.
    fn start(&mut self, row: RowId)
        ensures
            final(self).keeps() == old(self).keeps(),
    ;

    /// `factor` times the tail of pivot `pivot` was added to the row. A
    /// keeping trace keeps the step after the ones it was told.
    fn step(&mut self, pivot: u32, factor: u32)
        ensures
            final(self).keeps() == old(self).keeps(),
            old(self).keeps() ==> final(self).steps_seen() == old(self).steps_seen().push((pivot, factor)),
    ;

    /// The row was multiplied by `scalar`.
    fn scale(&mut self, scalar: u32)
        ensures
            final(self).keeps() == old(self).keeps(),
    ;

    /// The row ended, as pivot `installed` or as zero.
    fn end(&mut self, installed: Option<u32>)
        ensures
            final(self).keeps() == old(self).keeps(),
    ;

    /// The bytes this trace holds, which the run's memory estimate counts.
    fn held_bytes(&self) -> usize;
}

/// The trace of a run that records nothing.
#[derive(Clone, Copy, Debug)]
pub struct NoTrace;

impl Trace for NoTrace {
    fn records(&self) -> (r: bool) {
        false
    }

    fn restart(&mut self) {
    }

    fn rows(&mut self, rows: &BatchRows) {
    }

    fn pivots_sorted(&mut self, npiv: u32, order: &[u32]) {
    }

    fn inserted(&mut self, entries: &[Insertion]) {
    }

    fn returned(&mut self, entries: &[Returned]) {
    }

    fn start(&mut self, row: RowId) {
    }

    fn step(&mut self, pivot: u32, factor: u32) {
    }

    fn scale(&mut self, scalar: u32) {
    }

    fn end(&mut self, installed: Option<u32>) {
    }

    fn held_bytes(&self) -> (r: usize)
        ensures
            r == 0,
    {
        0
    }
}

} // verus!
