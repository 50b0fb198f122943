//! One reduction matrix: its pivot rows and the rows still to reduce.
//!
//! A row is sparse: strictly increasing columns, one nonzero coefficient
//! below `p` per column, and the multiply precomputation of each
//! coefficient. The leading column of a row is its first, smallest
//! column. Columns number the monomials of one batch in descending order,
//! so a smaller column is a larger monomial.

use vstd::prelude::*;

use vstd::relations::injective_on;
use vstd::set_lib::{lemma_int_range, lemma_map_size, lemma_subset_equality, set_int_range};

use crate::compute::small31::{Small31, shoup_spec};

verus! {

/// The absent row or column index.
pub const NO_ROW: u32 = 4294967295;

/// The columns ascend strictly.
pub open spec fn strictly_increasing(s: Seq<u32>) -> bool {
    forall|a: int, b: int| 0 <= a < b < s.len() ==> s[a] < s[b]
}

/// The coefficient of column `c` in the sparse row `cols`, `vals`: the
/// value at the place of `c`, or zero where the row has no such column.
pub open spec fn entry(cols: Seq<u32>, vals: Seq<u32>, c: int) -> int {
    if exists|k: int| 0 <= k < cols.len() && cols[k] == c {
        vals[choose|k: int| 0 <= k < cols.len() && cols[k] == c] as int
    } else {
        0
    }
}

/// The coefficient at a place of the row is the row's entry there.
pub proof fn lemma_entry_at(cols: Seq<u32>, vals: Seq<u32>, k: int)
    requires
        strictly_increasing(cols),
        0 <= k < cols.len(),
    ensures
        entry(cols, vals, cols[k] as int) == vals[k] as int,
{
    let c = cols[k] as int;
    let j = choose|j: int| 0 <= j < cols.len() && cols[j] == c;
    assert(0 <= j < cols.len() && cols[j] == c);
    if j < k {
        assert(cols[j] < cols[k]);
    }
    if k < j {
        assert(cols[k] < cols[j]);
    }
}

/// A column below the first of the row has no entry.
pub proof fn lemma_entry_below(cols: Seq<u32>, vals: Seq<u32>, c: int)
    requires
        strictly_increasing(cols),
        cols.len() > 0 ==> c < cols[0],
    ensures
        entry(cols, vals, c) == 0,
{
    if exists|k: int| 0 <= k < cols.len() && cols[k] == c {
        let k = choose|k: int| 0 <= k < cols.len() && cols[k] == c;
        if k > 0 {
            assert(cols[0] < cols[k]);
        }
    }
}

/// One more column past the last leaves every earlier entry.
pub proof fn lemma_entry_push(cols: Seq<u32>, vals: Seq<u32>, col: u32, val: u32, c: int)
    requires
        cols.len() == vals.len(),
        strictly_increasing(cols),
        forall|k: int| 0 <= k < cols.len() ==> cols[k] < col,
        c != col,
    ensures
        entry(cols.push(col), vals.push(val), c) == entry(cols, vals, c),
{
    let nc = cols.push(col);
    let nv = vals.push(val);
    if exists|k: int| 0 <= k < nc.len() && nc[k] == c {
        let k = choose|k: int| 0 <= k < nc.len() && nc[k] == c;
        assert(k < cols.len());
        assert(cols[k] == c);
        assert(strictly_increasing(nc));
        lemma_entry_at(nc, nv, k);
        lemma_entry_at(cols, vals, k);
    } else {
        assert forall|k: int| 0 <= k < cols.len() implies cols[k] != c by {
            assert(nc[k] == cols[k]);
        }
    }
}

/// The pushed column holds the pushed value.
pub proof fn lemma_entry_pushed(cols: Seq<u32>, vals: Seq<u32>, col: u32, val: u32)
    requires
        cols.len() == vals.len(),
        strictly_increasing(cols),
        forall|k: int| 0 <= k < cols.len() ==> cols[k] < col,
    ensures
        entry(cols.push(col), vals.push(val), col as int) == val as int,
{
    let nc = cols.push(col);
    assert(strictly_increasing(nc));
    lemma_entry_at(nc, vals.push(val), cols.len() as int);
}

/// One sparse row of a batch.
pub struct Row {
    /// The columns, strictly increasing.
    pub cols: Vec<u32>,
    /// One coefficient per column.
    pub vals: Vec<u32>,
    /// The multiply precomputation of each coefficient.
    pub shoup: Vec<u64>,
    /// The row this one started as, or [`NO_ROW`] for a row the kernel
    /// created. A reduced pivot keeps the value of the row it rewrites.
    pub raw: u32,
}

impl Row {
    /// The row is canonical modulo `p` in a batch of `ncols` columns.
    pub open spec fn wf(&self, p: int, ncols: nat) -> bool {
        &&& self.cols@.len() == self.vals@.len()
        &&& self.shoup@.len() == self.vals@.len()
        &&& strictly_increasing(self.cols@)
        &&& forall|k: int| 0 <= k < self.cols@.len() ==> (#[trigger] self.cols@[k]) < ncols
        &&& forall|k: int| 0 <= k < self.vals@.len() ==> 0 < #[trigger] self.vals@[k] < p
        &&& forall|k: int|
            0 <= k < self.vals@.len() ==> #[trigger] self.shoup@[k] == shoup_spec(self.vals@[k] as int, p)
    }

    /// The coefficient of column `c`.
    pub open spec fn at(&self, c: int) -> int {
        entry(self.cols@, self.vals@, c)
    }

    /// The row is a pivot: nonempty, with leading coefficient 1.
    pub open spec fn monic(&self) -> bool {
        self.cols@.len() > 0 && self.vals@[0] == 1
    }

    /// The leading column.
    pub fn lead(&self) -> (c: u32)
        requires
            self.cols@.len() > 0,
        ensures
            c == self.cols@[0],
    {
        self.cols[0]
    }

    /// The number of nonzero entries.
    pub fn len(&self) -> (n: usize)
        ensures
            n == self.cols@.len(),
    {
        self.cols.len()
    }
}

/// One reduction matrix.
///
/// `pivots` holds the reducer rows first, one per pivot column and sorted
/// by leading column, and the pivots the kernel installs after them.
/// `lower` holds the rows still to reduce, in symbolic row order.
/// `constant` is the column of the constant monomial, or [`NO_ROW`] where
/// the batch has none.
pub struct Batch {
    pub ncols: usize,
    pub constant: u32,
    pub npiv: usize,
    pub pivots: Vec<Row>,
    pub lower: Vec<Row>,
}

/// No two pivots of `rows` lead in one column.
pub open spec fn leads_distinct(rows: Seq<Row>) -> bool {
    forall|a: int, b: int| 0 <= a < b < rows.len() ==> (#[trigger] rows[a]).cols@[0] != (#[trigger] rows[b]).cols@[0]
}

/// The rows from `from` on are sorted by leading column.
pub open spec fn sorted_from(rows: Seq<Row>, from: int) -> bool {
    forall|a: int, b: int| from <= a < b < rows.len() ==> (#[trigger] rows[a]).cols@[0] < (#[trigger] rows[b]).cols@[0]
}

impl Batch {
    /// Every row is canonical modulo `p`, every pivot is monic, no two
    /// pivots lead in one column, the reducer rows are sorted by leading
    /// column, and every row still to reduce is nonempty.
    pub open spec fn wf(&self, p: int) -> bool {
        &&& self.ncols < NO_ROW
        &&& self.npiv <= self.pivots@.len() < NO_ROW
        &&& self.lower@.len() < NO_ROW
        &&& forall|i: int|
            0 <= i < self.pivots@.len() ==> (#[trigger] self.pivots@[i]).wf(p, self.ncols as nat)
                && self.pivots@[i].monic()
        &&& leads_distinct(self.pivots@)
        &&& sorted_from(self.pivots@.take(self.npiv as int), 0)
        &&& forall|i: int|
            0 <= i < self.lower@.len() ==> (#[trigger] self.lower@[i]).wf(p, self.ncols as nat)
                && self.lower@[i].cols@.len() > 0
    }

    /// The number of columns.
    pub fn ncols(&self) -> (n: usize)
        ensures
            n == self.ncols,
    {
        self.ncols
    }

    /// The number of reducer rows.
    pub fn npiv(&self) -> (n: usize)
        ensures
            n == self.npiv,
    {
        self.npiv
    }

    /// The number of pivot rows: the reducer rows and the installed pivots.
    pub fn pivot_count(&self) -> (n: usize)
        ensures
            n == self.pivots@.len(),
    {
        self.pivots.len()
    }

    /// The pivot row in slot `i`: a reducer row below [`Batch::npiv`], an
    /// installed pivot from there on.
    pub fn pivot(&self, i: usize) -> (row: &Row)
        requires
            i < self.pivots@.len(),
        ensures
            *row == self.pivots@[i as int],
    {
        &self.pivots[i]
    }

    /// The rows still to reduce.
    pub fn lower(&self) -> (rows: &[Row])
        ensures
            rows@ == self.lower@,
    {
        self.lower.as_slice()
    }
}

/// `new` holds the rows of `old` with the ones from `from` on
/// rearranged.
pub open spec fn permutes(new: Seq<Row>, old: Seq<Row>, from: int) -> bool {
    &&& new.len() == old.len()
    &&& forall|i: int| 0 <= i < from && i < old.len() ==> #[trigger] new[i] == old[i]
    &&& exists|perm: Seq<int>| #[trigger] rearranges(perm, new, old, from)
}

/// `perm` takes each place from `from` on to a distinct place of `old`
/// from `from` on, and `new` holds there what `old` holds at that place.
pub open spec fn rearranges(perm: Seq<int>, new: Seq<Row>, old: Seq<Row>, from: int) -> bool {
    &&& perm.len() == old.len()
    &&& forall|i: int| from <= i < old.len() ==> from <= #[trigger] perm[i] < old.len()
    &&& forall|i: int, j: int| from <= i < j < old.len() ==> #[trigger] perm[i] != #[trigger] perm[j]
    &&& forall|i: int| from <= i < old.len() ==> #[trigger] new[i] == old[perm[i]]
}

/// A rearrangement of canonical monic rows with distinct leads is one.
pub proof fn lemma_permutes(new: Seq<Row>, old: Seq<Row>, from: int, p: int, ncols: nat)
    requires
        0 <= from,
        permutes(new, old, from),
    ensures
        (forall|i: int| 0 <= i < old.len() ==> (#[trigger] old[i]).wf(p, ncols) && old[i].monic()) ==> (forall|
            i: int,
        | 0 <= i < new.len() ==> (#[trigger] new[i]).wf(p, ncols) && new[i].monic()),
        leads_distinct(old) ==> leads_distinct(new),
{
    let perm = choose|perm: Seq<int>| #[trigger] rearranges(perm, new, old, from);
    if forall|i: int| 0 <= i < old.len() ==> (#[trigger] old[i]).wf(p, ncols) && old[i].monic() {
        assert forall|i: int| 0 <= i < new.len() implies (#[trigger] new[i]).wf(p, ncols) && new[i].monic() by {
            if i < from {
                assert(new[i] == old[i]);
            } else {
                assert(new[i] == old[perm[i]]);
            }
        }
    }
    if leads_distinct(old) {
        assert forall|a: int, b: int| 0 <= a < b < new.len() implies (#[trigger] new[a]).cols@[0] != (
        #[trigger] new[b]).cols@[0] by {
            let ia = if a < from { a } else { perm[a] };
            let ib = if b < from { b } else { perm[b] };
            assert(new[a] == old[ia]);
            assert(new[b] == old[ib]);
            assert(ia != ib);
            if ia < ib {
                assert(old[ia].cols@[0] != old[ib].cols@[0]);
            } else {
                assert(old[ib].cols@[0] != old[ia].cols@[0]);
            }
        }
    }
}

impl Batch {
    /// Swap the pivots in slots `j - 1` and `j`.
    fn swap_down(&mut self, j: usize)
        requires
            0 < j < old(self).pivots@.len(),
        ensures
            final(self).pivots@ == old(self).pivots@.update(j - 1, old(self).pivots@[j as int]).update(
                j as int,
                old(self).pivots@[j - 1],
            ),
            final(self).ncols == old(self).ncols,
            final(self).constant == old(self).constant,
            final(self).npiv == old(self).npiv,
            final(self).lower@ == old(self).lower@,
    {
        let ghost before = self.pivots@;
        let row = self.pivots.remove(j);
        self.pivots.insert(j - 1, row);
        assert(self.pivots@ =~= before.update(j - 1, before[j as int]).update(j as int, before[j - 1]));
    }

    /// Sort the pivots from `from` on by leading column, ascending, and
    /// return the slot each of them held before: entry `r` is the old slot
    /// of the row now at slot `from + r`.
    #[verifier::rlimit(80)]
    #[verifier::spinoff_prover]
    pub fn sort_pivots_from(&mut self, from: usize) -> (order: Vec<u32>)
        requires
            from <= old(self).pivots@.len(),
            old(self).pivots@.len() < NO_ROW,
            forall|i: int| 0 <= i < old(self).pivots@.len() ==> (#[trigger] old(self).pivots@[i]).cols@.len() > 0,
            leads_distinct(old(self).pivots@),
        ensures
            permutes(final(self).pivots@, old(self).pivots@, from as int),
            order@.len() == old(self).pivots@.len() - from,
            forall|r: int|
                0 <= r < order@.len() ==> from <= #[trigger] order@[r] < old(self).pivots@.len()
                    && final(self).pivots@[from + r] == old(self).pivots@[order@[r] as int],
            sorted_from(final(self).pivots@, from as int),
            final(self).ncols == old(self).ncols,
            final(self).constant == old(self).constant,
            final(self).npiv == old(self).npiv,
            final(self).lower@ == old(self).lower@,
    {
        let ghost old_rows = self.pivots@;
        let n = self.pivots.len();
        let ghost mut perm: Seq<int> = Seq::new(n as nat, |i: int| i);
        let mut order: Vec<u32> = Vec::new();
        let mut k: usize = from;
        while k < n
            invariant
                from <= k <= n,
                n < NO_ROW,
                order@.len() == k - from,
                forall|r: int| 0 <= r < order@.len() ==> #[trigger] order@[r] == from + r,
            decreases n - k,
        {
            order.push(k as u32);
            k += 1;
        }
        let mut i: usize = from;
        if i < n {
            i = i + 1;
        }
        proof {
            assert(rearranges(perm, self.pivots@, old_rows, from as int));
        }
        while i < n
            invariant
                from <= i <= n,
                n == old_rows.len(),
                i == from || from < i,
                self.pivots@.len() == n,
                forall|k: int| 0 <= k < n ==> (#[trigger] old_rows[k]).cols@.len() > 0,
                leads_distinct(old_rows),
                forall|k: int| 0 <= k < from ==> #[trigger] self.pivots@[k] == old_rows[k],
                rearranges(perm, self.pivots@, old_rows, from as int),
                order@.len() == n - from,
                forall|r: int| 0 <= r < order@.len() ==> #[trigger] order@[r] == perm[from + r],
                n > from ==> i > from,
                sorted_from(self.pivots@.take(i as int), from as int),
                self.ncols == old(self).ncols,
                self.constant == old(self).constant,
                self.npiv == old(self).npiv,
                self.lower@ == old(self).lower@,
            decreases n - i,
        {
            let mut j: usize = i;
            while j > from && self.pivots[j - 1].cols[0] > self.pivots[j].cols[0]
                invariant
                    from < i < n,
                    from <= j <= i,
                    n == old_rows.len(),
                    self.pivots@.len() == n,
                    forall|k: int| 0 <= k < n ==> (#[trigger] old_rows[k]).cols@.len() > 0,
                    leads_distinct(old_rows),
                    forall|k: int| 0 <= k < from ==> #[trigger] self.pivots@[k] == old_rows[k],
                    rearranges(perm, self.pivots@, old_rows, from as int),
                    order@.len() == n - from,
                    forall|r: int| 0 <= r < order@.len() ==> #[trigger] order@[r] == perm[from + r],
                    sorted_from(self.pivots@.take(j as int), from as int),
                    sorted_from(self.pivots@.take(i + 1).skip(j as int), 0),
                    j < i ==> forall|a: int| from <= a < j ==> (#[trigger] self.pivots@[a]).cols@[0] < self.pivots@[
                        j + 1].cols@[0],
                    self.ncols == old(self).ncols,
                    self.constant == old(self).constant,
                    self.npiv == old(self).npiv,
                    self.lower@ == old(self).lower@,
                decreases j,
            {
                let ghost before = self.pivots@;
                proof {
                    lemma_rows_nonempty(before, old_rows, perm, from as int);
                }
                self.swap_down(j);
                let upper = order[j - from];
                let below = order[j - 1 - from];
                order.set(j - 1 - from, upper);
                order.set(j - from, below);
                proof {
                    let a = perm[j - 1];
                    perm = perm.update(j - 1, perm[j as int]).update(j as int, a);
                    assert(rearranges(perm, self.pivots@, old_rows, from as int)) by {
                        assert forall|x: int, y: int| from <= x < y < n implies #[trigger] perm[x] != #[trigger] perm[y] by {
                        }
                    }
                    lemma_distinct_now(self.pivots@, old_rows, perm, from as int);
                    assert forall|x: int, y: int| from <= x < y < j - 1 implies (#[trigger] self.pivots@.take(
                        j - 1,
                    )[x]).cols@[0] < (#[trigger] self.pivots@.take(j - 1)[y]).cols@[0] by {
                        assert(self.pivots@.take(j - 1)[x] == before.take(j as int)[x]);
                        assert(self.pivots@.take(j - 1)[y] == before.take(j as int)[y]);
                    }
                    assert forall|x: int, y: int| 0 <= x < y < self.pivots@.take(i + 1).skip(j - 1).len() implies (
                    #[trigger] self.pivots@.take(i + 1).skip(j - 1)[x]).cols@[0] < (
                    #[trigger] self.pivots@.take(i + 1).skip(j - 1)[y]).cols@[0] by {
                        let s = before.take(i + 1).skip(j as int);
                        let t = self.pivots@.take(i + 1).skip(j - 1);
                        assert(t[0] == s[0]);
                        assert(before[j - 1].cols@[0] > before[j as int].cols@[0]);
                        if x == 0 && y == 1 {
                            assert(t[1] == before[j - 1]);
                            assert(t[0] == before[j as int]);
                        } else if x == 0 {
                            assert(t[y] == s[y - 1]);
                            assert(before[j as int].cols@[0] < before[j - 1].cols@[0]);
                            if y > 1 {
                                assert(s[0].cols@[0] < s[y - 1].cols@[0]);
                            }
                        } else if x == 1 {
                            assert(t[1] == before[j - 1]);
                            assert(t[y] == s[y - 1]);
                            if j < i {
                                assert(before[j - 1].cols@[0] < before[j + 1].cols@[0]);
                                assert(s[1] == before[j + 1]);
                                if y - 1 > 1 {
                                    assert(s[1].cols@[0] < s[y - 1].cols@[0]);
                                }
                            }
                        } else {
                            assert(t[x] == s[x - 1]);
                            assert(t[y] == s[y - 1]);
                        }
                    }
                    if j - 1 < i {
                        assert forall|a: int| from <= a < j - 1 implies (#[trigger] self.pivots@[a]).cols@[0]
                            < self.pivots@[j as int].cols@[0] by {
                            assert(self.pivots@[a] == before[a]);
                            assert(self.pivots@[j as int] == before[j - 1]);
                            assert(before.take(j as int)[a] == before[a]);
                            assert(before.take(j as int)[j - 1] == before[j - 1]);
                        }
                    }
                }
                j -= 1;
            }
            proof {
                assert forall|x: int, y: int| from <= x < y < i + 1 implies (#[trigger] self.pivots@.take(i + 1)[x]).cols@[0]
                    < (#[trigger] self.pivots@.take(i + 1)[y]).cols@[0] by {
                    let t = self.pivots@.take(i + 1);
                    if y < j {
                        assert(self.pivots@.take(j as int)[x] == t[x]);
                        assert(self.pivots@.take(j as int)[y] == t[y]);
                    } else if x >= j {
                        let s = t.skip(j as int);
                        assert(s[x - j] == t[x]);
                        assert(s[y - j] == t[y]);
                    } else {
                        // x < j <= y
                        lemma_rows_nonempty(self.pivots@, old_rows, perm, from as int);
                        if j == from {
                        } else {
                            let s = t.skip(j as int);
                            assert(self.pivots@[j - 1].cols@[0] <= self.pivots@[j as int].cols@[0]);
                            lemma_distinct_now(self.pivots@, old_rows, perm, from as int);
                            if j < i {
                                assert(self.pivots@.take(j as int)[x] == t[x]);
                            }
                            assert(s[0] == t[j as int]);
                            assert(s[y - j] == t[y]);
                            if x < j - 1 {
                                assert(self.pivots@.take(j as int)[x] == t[x]);
                                assert(self.pivots@.take(j as int)[j - 1] == t[j - 1]);
                            }
                            if y > j {
                                assert(s[0].cols@[0] < s[y - j].cols@[0]);
                            }
                        }
                    }
                }
            }
            i += 1;
        }
        proof {
            if n > from {
                assert(self.pivots@.take(n as int) =~= self.pivots@);
            } else {
                assert forall|a: int, b: int| from <= a < b < n implies (#[trigger] self.pivots@[a]).cols@[0]
                    < (#[trigger] self.pivots@[b]).cols@[0] by {}
            }
            assert forall|r: int| 0 <= r < order@.len() implies from <= #[trigger] order@[r] < old_rows.len()
                && self.pivots@[from + r] == old_rows[order@[r] as int] by {
                assert(order@[r] == perm[from + r]);
            }
        }
        order
    }
}

/// A rearrangement reaches every place: each old row from `from` on
/// stands somewhere in the new list.
pub proof fn lemma_rearranges_onto(perm: Seq<int>, new: Seq<Row>, old: Seq<Row>, from: int, j: int) -> (i: int)
    requires
        0 <= from <= j < old.len(),
        rearranges(perm, new, old, from),
    ensures
        from <= i < old.len(),
        new[i] == old[j],
{
    let n = old.len() as int;
    let x = set_int_range(from, n);
    let f = |i: int| perm[i];
    lemma_int_range(from, n);
    assert(injective_on(f, x)) by {
        assert forall|a: int, b: int| x.contains(a) && x.contains(b) && #[trigger] f(a) == #[trigger] f(b) implies a == b by {
            if a < b {
                assert(perm[a] != perm[b]);
            } else if b < a {
                assert(perm[b] != perm[a]);
            }
        }
    }
    let y = x.map(f);
    lemma_map_size(x, y, f);
    assert(y.subset_of(x)) by {
        assert forall|v: int| y.contains(v) implies x.contains(v) by {
            let u = choose|u: int| x.contains(u) && f(u) == v;
            assert(from <= perm[u] < n);
        }
    }
    lemma_subset_equality(y, x);
    assert(x.contains(j));
    assert(y.contains(j));
    let i = choose|i: int| x.contains(i) && f(i) == j;
    assert(new[i] == old[perm[i]]);
    i
}

/// Every row of a rearrangement is nonempty when every old row is.
proof fn lemma_rows_nonempty(rows: Seq<Row>, old_rows: Seq<Row>, perm: Seq<int>, from: int)
    requires
        0 <= from,
        rows.len() == old_rows.len(),
        forall|k: int| 0 <= k < old_rows.len() ==> (#[trigger] old_rows[k]).cols@.len() > 0,
        forall|k: int| 0 <= k < from && k < old_rows.len() ==> #[trigger] rows[k] == old_rows[k],
        rearranges(perm, rows, old_rows, from),
    ensures
        forall|k: int| 0 <= k < rows.len() ==> (#[trigger] rows[k]).cols@.len() > 0,
{
    assert forall|k: int| 0 <= k < rows.len() implies (#[trigger] rows[k]).cols@.len() > 0 by {
        if k < from {
            assert(rows[k] == old_rows[k]);
        } else {
            assert(rows[k] == old_rows[perm[k]]);
        }
    }
}

/// The leads of a rearrangement of rows with distinct leads stay distinct.
proof fn lemma_distinct_now(rows: Seq<Row>, old_rows: Seq<Row>, perm: Seq<int>, from: int)
    requires
        0 <= from,
        rows.len() == old_rows.len(),
        leads_distinct(old_rows),
        forall|k: int| 0 <= k < from && k < old_rows.len() ==> #[trigger] rows[k] == old_rows[k],
        rearranges(perm, rows, old_rows, from),
    ensures
        leads_distinct(rows),
{
    assert(permutes(rows, old_rows, from));
    lemma_permutes(rows, old_rows, from, 0, 0);
}

impl Row {
    /// The row of `cols` and `vals` modulo the modulus of `field`, with
    /// its precomputation, when the columns ascend strictly below `ncols`
    /// and every coefficient is in `(0, p)`; `None` otherwise.
    pub fn new(field: &Small31, ncols: usize, cols: Vec<u32>, vals: Vec<u32>) -> (r: Option<Row>)
        requires
            field.wf(),
        ensures
            r is Some <==> (cols@.len() == vals@.len() && strictly_increasing(cols@) && (forall|k: int|
                0 <= k < cols@.len() ==> (#[trigger] cols@[k]) < ncols) && (forall|k: int|
                0 <= k < vals@.len() ==> 0 < #[trigger] vals@[k] < field.modulus())),
            r matches Some(row) ==> row.wf(field.modulus(), ncols as nat) && row.cols@ == cols@ && row.vals@ == vals@
                && row.raw == NO_ROW,
    {
        if cols.len() != vals.len() {
            return None;
        }
        let mut k: usize = 0;
        while k < cols.len()
            invariant
                field.wf(),
                cols@.len() == vals@.len(),
                k <= cols@.len(),
                forall|a: int, b: int| 0 <= a < b < k ==> cols@[a] < cols@[b],
                forall|j: int| 0 <= j < k ==> (#[trigger] cols@[j]) < ncols,
                forall|j: int| 0 <= j < k ==> 0 < #[trigger] vals@[j] < field.modulus(),
            decreases cols@.len() - k,
        {
            if cols[k] as usize >= ncols || vals[k] == 0 || vals[k] as u64 >= field.modulus_u64() {
                return None;
            }
            if k > 0 && cols[k - 1] >= cols[k] {
                return None;
            }
            proof {
                assert forall|a: int, b: int| 0 <= a < b < k + 1 implies cols@[a] < cols@[b] by {
                    if b == k && a < k - 1 {
                        assert(cols@[a] < cols@[k - 1]);
                    }
                }
            }
            k += 1;
        }
        let mut shoup: Vec<u64> = Vec::new();
        field.precompute(vals.as_slice(), &mut shoup);
        Some(Row { cols, vals, shoup, raw: NO_ROW })
    }
}

impl Batch {
    /// The batch of `ncols` columns whose reducer rows are `upper` and
    /// whose rows still to reduce are `lower`; `constant` names the column
    /// of the constant monomial, or [`NO_ROW`]. `None` when a row is not
    /// canonical, a reducer row is not monic, the reducer rows do not
    /// ascend strictly by leading column, or a row to reduce is empty.
    pub fn new(field: &Small31, ncols: usize, constant: u32, upper: Vec<Row>, lower: Vec<Row>) -> (r: Option<Batch>)
        requires
            field.wf(),
            forall|i: int| 0 <= i < upper@.len() ==> (#[trigger] upper@[i]).wf(field.modulus(), ncols as nat),
            forall|i: int| 0 <= i < lower@.len() ==> (#[trigger] lower@[i]).wf(field.modulus(), ncols as nat),
        ensures
            r matches Some(b) ==> b.wf(field.modulus()) && b.ncols == ncols && b.constant == constant && b.npiv
                == upper@.len() && b.pivots@ == upper@ && b.lower@ == lower@,
            r is None <==> !(ncols < NO_ROW && upper@.len() < NO_ROW && lower@.len() < NO_ROW && (forall|i: int|
                0 <= i < upper@.len() ==> (#[trigger] upper@[i]).monic()) && sorted_from(upper@, 0) && (forall|i: int|
                0 <= i < lower@.len() ==> (#[trigger] lower@[i]).cols@.len() > 0)),
    {
        if ncols >= NO_ROW as usize || upper.len() >= NO_ROW as usize || lower.len() >= NO_ROW as usize {
            return None;
        }
        let mut i: usize = 0;
        while i < upper.len()
            invariant
                i <= upper@.len(),
                forall|j: int| 0 <= j < upper@.len() ==> (#[trigger] upper@[j]).wf(field.modulus(), ncols as nat),
                forall|j: int| 0 <= j < i ==> (#[trigger] upper@[j]).monic(),
                forall|a: int, b: int| 0 <= a < b < i ==> (#[trigger] upper@[a]).cols@[0] < (#[trigger] upper@[b]).cols@[0],
            decreases upper@.len() - i,
        {
            if upper[i].cols.len() == 0 || upper[i].vals[0] != 1 {
                return None;
            }
            if i > 0 && upper[i - 1].cols[0] >= upper[i].cols[0] {
                return None;
            }
            proof {
                assert forall|a: int, b: int| 0 <= a < b < i + 1 implies (#[trigger] upper@[a]).cols@[0] < (
                #[trigger] upper@[b]).cols@[0] by {
                    if b == i && a < i - 1 {
                        assert(upper@[a].cols@[0] < upper@[i - 1].cols@[0]);
                    }
                }
            }
            i += 1;
        }
        let mut k: usize = 0;
        while k < lower.len()
            invariant
                k <= lower@.len(),
                forall|j: int| 0 <= j < k ==> (#[trigger] lower@[j]).cols@.len() > 0,
            decreases lower@.len() - k,
        {
            if lower[k].cols.len() == 0 {
                return None;
            }
            k += 1;
        }
        let npiv = upper.len();
        let b = Batch { ncols, constant, npiv, pivots: upper, lower };
        proof {
            assert(b.pivots@.take(npiv as int) =~= b.pivots@);
            assert(leads_distinct(b.pivots@)) by {
                assert forall|a: int, c: int| 0 <= a < c < b.pivots@.len() implies (#[trigger] b.pivots@[a]).cols@[0]
                    != (#[trigger] b.pivots@[c]).cols@[0] by {
                    assert(b.pivots@[a].cols@[0] < b.pivots@[c].cols@[0]);
                }
            }
        }
        Some(b)
    }
}

} // verus!
