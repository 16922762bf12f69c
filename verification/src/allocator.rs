//! Bump allocation of operation slots inside custom-gate rows.
//!
//! Each gate row of a given kind and limb width hosts `copies_per_row`
//! independent operation slots.  A request is served from the first row
//! of its kind and width that still has a free slot; only when every such
//! row is full is a new row opened.  [`crate::circuit::alloc_counts_ok`]
//! records the consequence: the row count is always the ceiling of the
//! slot count over `copies_per_row`.

use vstd::prelude::*;
use crate::circuit::{CircuitBuilder, GateKind, GateRow, rows_for, slots_for, wf, extends, valid_bits};

verus! {

/// Row and slot counts are never negative.
pub(crate) proof fn lemma_counts_nonneg(rows: Seq<GateRow>, kind: GateKind, bits: usize)
    ensures
        rows_for(rows, kind, bits) >= 0,
        slots_for(rows, kind, bits) >= 0,
    decreases rows.len(),
{
    if rows.len() > 0 {
        lemma_counts_nonneg(rows.drop_last(), kind, bits);
    }
}

/// Appending a row adds its contribution to the counts of its own kind
/// and width and leaves every other count unchanged.
proof fn lemma_counts_push(rows: Seq<GateRow>, r: GateRow, kind: GateKind, bits: usize)
    ensures
        rows_for(rows.push(r), kind, bits) == rows_for(rows, kind, bits)
            + (if r.kind == kind && r.bits == bits { 1int } else { 0int }),
        slots_for(rows.push(r), kind, bits) == slots_for(rows, kind, bits)
            + (if r.kind == kind && r.bits == bits { r.used as int } else { 0int }),
{
    assert(rows.push(r).drop_last() =~= rows);
    assert(rows.push(r).last() == r);
}

/// Replacing a row by one of the same kind and width shifts the slot
/// count of that kind and width by the change in `used` and leaves every
/// other count unchanged.
proof fn lemma_counts_update(rows: Seq<GateRow>, i: int, r2: GateRow, kind: GateKind, bits: usize)
    requires
        0 <= i < rows.len(),
        r2.kind == rows[i].kind,
        r2.bits == rows[i].bits,
    ensures
        rows_for(rows.update(i, r2), kind, bits) == rows_for(rows, kind, bits),
        slots_for(rows.update(i, r2), kind, bits) == slots_for(rows, kind, bits)
            + (if rows[i].kind == kind && rows[i].bits == bits { r2.used - rows[i].used } else { 0int }),
    decreases rows.len(),
{
    let upd = rows.update(i, r2);
    if i == rows.len() - 1 {
        assert(upd.drop_last() =~= rows.drop_last());
        assert(upd.last() == r2);
    } else {
        assert(upd.drop_last() =~= rows.drop_last().update(i, r2));
        assert(upd.last() == rows.last());
        lemma_counts_update(rows.drop_last(), i, r2, kind, bits);
    }
}

/// With every row at most full, the slot count cannot exceed full rows.
proof fn lemma_counts_le(rows: Seq<GateRow>, cpr: usize, kind: GateKind, bits: usize)
    requires
        forall|j: int| 0 <= j < rows.len() ==> (#[trigger] rows[j]).used <= cpr,
    ensures
        slots_for(rows, kind, bits) <= rows_for(rows, kind, bits) * cpr,
    decreases rows.len(),
{
    if rows.len() > 0 {
        assert forall|j: int| 0 <= j < rows.drop_last().len() implies (#[trigger] rows.drop_last()[j]).used <= cpr by {
            assert(rows.drop_last()[j] == rows[j]);
        }
        lemma_counts_le(rows.drop_last(), cpr, kind, bits);
        let r = rows_for(rows.drop_last(), kind, bits);
        assert((r + 1) * cpr == r * cpr + cpr) by (nonlinear_arith);
    }
}

/// A row with a free slot keeps the slot count strictly below full rows.
proof fn lemma_counts_open(rows: Seq<GateRow>, cpr: usize, i: int, kind: GateKind, bits: usize)
    requires
        forall|j: int| 0 <= j < rows.len() ==> (#[trigger] rows[j]).used <= cpr,
        0 <= i < rows.len(),
        rows[i].kind == kind,
        rows[i].bits == bits,
        rows[i].used < cpr,
    ensures
        slots_for(rows, kind, bits) < rows_for(rows, kind, bits) * cpr,
    decreases rows.len(),
{
    assert forall|j: int| 0 <= j < rows.drop_last().len() implies (#[trigger] rows.drop_last()[j]).used <= cpr by {
        assert(rows.drop_last()[j] == rows[j]);
    }
    let r = rows_for(rows.drop_last(), kind, bits);
    if i == rows.len() - 1 {
        lemma_counts_le(rows.drop_last(), cpr, kind, bits);
        assert((r + 1) * cpr == r * cpr + cpr) by (nonlinear_arith);
    } else {
        assert(rows.drop_last()[i] == rows[i]);
        lemma_counts_open(rows.drop_last(), cpr, i, kind, bits);
        assert((r + 1) * cpr == r * cpr + cpr) by (nonlinear_arith);
    }
}

/// With every row of the kind and width full, the slot count is exactly
/// full rows.
proof fn lemma_counts_all_full(rows: Seq<GateRow>, cpr: usize, kind: GateKind, bits: usize)
    requires
        forall|j: int| 0 <= j < rows.len() && (#[trigger] rows[j]).kind == kind && rows[j].bits == bits
            ==> rows[j].used == cpr,
    ensures
        slots_for(rows, kind, bits) == rows_for(rows, kind, bits) * cpr,
    decreases rows.len(),
{
    if rows.len() > 0 {
        assert forall|j: int| 0 <= j < rows.drop_last().len() && (#[trigger] rows.drop_last()[j]).kind == kind
            && rows.drop_last()[j].bits == bits implies rows.drop_last()[j].used == cpr by {
            assert(rows.drop_last()[j] == rows[j]);
        }
        lemma_counts_all_full(rows.drop_last(), cpr, kind, bits);
        let r = rows_for(rows.drop_last(), kind, bits);
        assert((r + 1) * cpr == r * cpr + cpr) by (nonlinear_arith);
    }
}

/// A matching row makes the row count positive.
proof fn lemma_counts_mem(rows: Seq<GateRow>, i: int, kind: GateKind, bits: usize)
    requires
        0 <= i < rows.len(),
        rows[i].kind == kind,
        rows[i].bits == bits,
    ensures
        rows_for(rows, kind, bits) >= 1,
    decreases rows.len(),
{
    lemma_counts_nonneg(rows.drop_last(), kind, bits);
    if i < rows.len() - 1 {
        assert(rows.drop_last()[i] == rows[i]);
        lemma_counts_mem(rows.drop_last(), i, kind, bits);
    }
}

impl CircuitBuilder {
    /// First row of the requested kind and width with a free slot, if any.
    fn find_open_row(&self, kind: GateKind, bits: usize) -> (res: Option<usize>)
        ensures
            match res {
                Some(i) => {
                    &&& i < self.rows@.len()
                    &&& self.rows@[i as int].kind == kind
                    &&& self.rows@[i as int].bits == bits
                    &&& self.rows@[i as int].used < self.copies_per_row
                },
                None => forall|j: int| 0 <= j < self.rows@.len()
                    ==> !((#[trigger] self.rows@[j]).kind == kind && self.rows@[j].bits == bits
                        && self.rows@[j].used < self.copies_per_row),
            },
    {
        let n = self.rows.len();
        let mut i: usize = 0;
        while i < n
            invariant
                i <= n,
                n == self.rows@.len(),
                forall|j: int| 0 <= j < i
                    ==> !((#[trigger] self.rows@[j]).kind == kind && self.rows@[j].bits == bits
                        && self.rows@[j].used < self.copies_per_row),
            decreases n - i,
        {
            let row = self.rows[i];
            if row.kind == kind && row.bits == bits && row.used < self.copies_per_row {
                return Some(i);
            }
            i = i + 1;
        }
        None
    }

    /// Find or open a gate row of the requested kind and width and take
    /// one operation slot from it, returning the row index and the copy
    /// index inside the row.
    pub fn find_gate_slot(&mut self, kind: GateKind, bits: usize) -> (res: (usize, usize))
        requires
            wf(*old(self)),
            valid_bits(bits),
        ensures
            wf(*final(self)),
            extends(*old(self), *final(self)),
            final(self).signals@ == old(self).signals@,
            final(self).eqs@ == old(self).eqs@,
            final(self).zeros@ == old(self).zeros@,
            final(self).slots@ == old(self).slots@,
            slots_for(final(self).rows@, kind, bits) == slots_for(old(self).rows@, kind, bits) + 1,
            forall|k2: GateKind, b2: usize| !(k2 == kind && b2 == bits)
                ==> #[trigger] slots_for(final(self).rows@, k2, b2) == slots_for(old(self).rows@, k2, b2),
            forall|k2: GateKind, b2: usize| !(k2 == kind && b2 == bits)
                ==> #[trigger] rows_for(final(self).rows@, k2, b2) == rows_for(old(self).rows@, k2, b2),
            rows_for(final(self).rows@, kind, bits) == rows_for(old(self).rows@, kind, bits)
                + (if slots_for(old(self).rows@, kind, bits)
                    == rows_for(old(self).rows@, kind, bits) * old(self).copies_per_row { 1int } else { 0int }),
            res.0 < final(self).rows@.len(),
            res.1 < old(self).copies_per_row,
    {
        let ghost rows0 = self.rows@;
        let cpr = self.copies_per_row;
        match self.find_open_row(kind, bits) {
            Some(i) => {
                let row = self.rows[i];
                let copy = row.used;
                let r2 = GateRow { kind: row.kind, bits: row.bits, used: row.used + 1 };
                self.rows[i] = r2;
                proof {
                    lemma_counts_mem(rows0, i as int, kind, bits);
                    lemma_counts_open(rows0, cpr, i as int, kind, bits);
                    assert forall|k2: GateKind, b2: usize|
                        #![trigger slots_for(self.rows@, k2, b2)]
                        slots_for(self.rows@, k2, b2) == slots_for(rows0, k2, b2)
                            + (if k2 == kind && b2 == bits { 1int } else { 0int }) by {
                        lemma_counts_update(rows0, i as int, r2, k2, b2);
                    }
                    assert forall|k2: GateKind, b2: usize|
                        #![trigger rows_for(self.rows@, k2, b2)]
                        rows_for(self.rows@, k2, b2) == rows_for(rows0, k2, b2) by {
                        lemma_counts_update(rows0, i as int, r2, k2, b2);
                    }
                    assert(slots_for(rows0, kind, bits) < rows_for(rows0, kind, bits) * cpr);
                    assert(rows_for(self.rows@, kind, bits) == rows_for(rows0, kind, bits));
                }
                (i, copy)
            },
            None => {
                let i = self.rows.len();
                let r = GateRow { kind, bits, used: 1 };
                self.rows.push(r);
                proof {
                    lemma_counts_all_full(rows0, cpr, kind, bits);
                    assert forall|k2: GateKind, b2: usize|
                        #![trigger slots_for(self.rows@, k2, b2)]
                        slots_for(self.rows@, k2, b2) == slots_for(rows0, k2, b2)
                            + (if k2 == kind && b2 == bits { 1int } else { 0int }) by {
                        lemma_counts_push(rows0, r, k2, b2);
                    }
                    assert forall|k2: GateKind, b2: usize|
                        #![trigger rows_for(self.rows@, k2, b2)]
                        rows_for(self.rows@, k2, b2) == rows_for(rows0, k2, b2)
                            + (if k2 == kind && b2 == bits { 1int } else { 0int }) by {
                        lemma_counts_push(rows0, r, k2, b2);
                    }
                    lemma_counts_nonneg(rows0, kind, bits);
                    let rf = rows_for(rows0, kind, bits);
                    assert((rf + 1 - 1) * cpr == rf * cpr) by (nonlinear_arith);
                    assert(rf * cpr + 1 <= (rf + 1) * cpr) by (nonlinear_arith)
                        requires cpr >= 1, rf >= 0;
                }
                (i, 0)
            },
        }
    }

    /// Number of gate rows of the given kind and width allocated so far.
    pub fn num_gate_rows(&self, kind: GateKind, bits: usize) -> (n: usize)
        ensures
            n == rows_for(self.rows@, kind, bits),
    {
        let len = self.rows.len();
        let mut n: usize = 0;
        let mut i: usize = 0;
        while i < len
            invariant
                i <= len,
                len == self.rows@.len(),
                n <= i,
                n == rows_for(self.rows@.take(i as int), kind, bits),
            decreases len - i,
        {
            let row = self.rows[i];
            proof {
                assert(self.rows@.take(i as int + 1).drop_last() =~= self.rows@.take(i as int));
                assert(self.rows@.take(i as int + 1).last() == self.rows@[i as int]);
            }
            if row.kind == kind && row.bits == bits {
                n = n + 1;
            }
            i = i + 1;
        }
        proof {
            assert(self.rows@.take(len as int) =~= self.rows@);
        }
        n
    }
}

} // verus!
