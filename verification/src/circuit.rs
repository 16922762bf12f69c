//! The circuit-construction session: a signal table, the recorded
//! constraints, and the custom-gate rows from which operation slots are
//! bump-allocated.
//!
//! The semantic reference point is [`sat`]: a witness (one `u64` per
//! signal) satisfies the circuit when it agrees with every pinned
//! constant, every equality and zero constraint, and the identity of
//! every wired operation slot.  Gadget contracts are stated over all
//! satisfying witnesses of the grown circuit.

use vstd::prelude::*;
use vstd::arithmetic::power2::{pow2, lemma_pow2_pos, lemma_pow2_unfold, lemma_pow2_strictly_increases, lemma2_to64};

verus! {

/// Largest supported limb width.  Keeping every limb below 32 bits
/// guarantees that `x * y + z` on in-range operands stays far below both
/// `u64::MAX` and the order of the native field, so field arithmetic on
/// limbs coincides with integer arithmetic.
pub const MAX_BITS: usize = 31;

/// Handle to one field-valued signal of the circuit.
#[derive(Clone, Copy, Debug, PartialEq, Eq, Structural)]
pub struct Target {
    pub index: usize,
}

/// The two custom-gate kinds, each with its own slot pool.
#[derive(Clone, Copy, Debug, PartialEq, Eq, Structural)]
pub enum GateKind {
    Arithmetic,
    Subtraction,
}

/// An equality constraint between the signals at indices `a` and `b`.
#[derive(Clone, Copy, Debug, PartialEq, Eq, Structural)]
pub struct EqConstraint {
    pub a: usize,
    pub b: usize,
}

/// A wired operation slot: gate kind, limb width, and the signal
/// indices of its three input and two output ports.
#[derive(Clone, Copy, Debug, PartialEq, Eq, Structural)]
pub struct SlotConstraint {
    pub kind: GateKind,
    pub bits: usize,
    pub in0: usize,
    pub in1: usize,
    pub in2: usize,
    pub out0: usize,
    pub out1: usize,
}

/// Allocation record of one custom-gate row: its kind and width, and how
/// many of its `copies_per_row` operation slots are taken.
#[derive(Clone, Copy, Debug, PartialEq, Eq, Structural)]
pub struct GateRow {
    pub kind: GateKind,
    pub bits: usize,
    pub used: usize,
}

/// A circuit under construction.
///
/// `signals[i]` is `Some(c)` when signal `i` is pinned to the constant
/// `c`, and `None` for an unconstrained (virtual) signal or a gate port.
pub struct CircuitBuilder {
    pub signals: Vec<Option<u64>>,
    pub eqs: Vec<EqConstraint>,
    pub zeros: Vec<usize>,
    pub slots: Vec<SlotConstraint>,
    pub rows: Vec<GateRow>,
    pub copies_per_row: usize,
}

/// A usable limb width: at least one bit, and small enough (see
/// [`MAX_BITS`]) that limb arithmetic never wraps.
pub open spec fn valid_bits(bits: usize) -> bool {
    1 <= bits <= MAX_BITS
}

/// `2^bits`, the exclusive upper bound of a `bits`-wide limb.
pub open spec fn limb_bound(bits: usize) -> int {
    pow2(bits as nat) as int
}

/// What the polynomial identity of one operation slot guarantees of a
/// witness: whenever the inputs are in range, the outputs are the exact
/// limb decomposition of the operation's integer result.
pub open spec fn slot_holds(s: SlotConstraint, w: Seq<u64>) -> bool {
    let b = limb_bound(s.bits);
    match s.kind {
        GateKind::Arithmetic => {
            // in0 * in1 + in2 == out0 + out1 * 2^bits
            (w[s.in0 as int] < b && w[s.in1 as int] < b && w[s.in2 as int] < b) ==> {
                &&& w[s.out0 as int] < b
                &&& w[s.out1 as int] < b
                &&& w[s.out0 as int] + w[s.out1 as int] * b == w[s.in0 as int] * w[s.in1 as int] + w[s.in2 as int]
            }
        },
        GateKind::Subtraction => {
            // in0 - in1 - in2 == out0 - out1 * 2^bits, with out1 the borrow flag
            (w[s.in0 as int] < b && w[s.in1 as int] < b && w[s.in2 as int] <= 1) ==> {
                &&& w[s.out0 as int] < b
                &&& w[s.out1 as int] <= 1
                &&& w[s.out0 as int] + w[s.in1 as int] + w[s.in2 as int] == w[s.in0 as int] + w[s.out1 as int] * b
            }
        },
    }
}

/// The witness `w` satisfies every constraint recorded in `c`.
pub open spec fn sat(c: CircuitBuilder, w: Seq<u64>) -> bool {
    &&& w.len() >= c.signals@.len()
    &&& forall|i: int| 0 <= i < c.signals@.len() ==> (#[trigger] c.signals@[i] matches Some(v) ==> w[i] == v)
    &&& forall|i: int| 0 <= i < c.eqs@.len() ==> w[(#[trigger] c.eqs@[i]).a as int] == w[c.eqs@[i].b as int]
    &&& forall|i: int| 0 <= i < c.zeros@.len() ==> w[#[trigger] c.zeros@[i] as int] == 0
    &&& forall|i: int| 0 <= i < c.slots@.len() ==> slot_holds(#[trigger] c.slots@[i], w)
}

/// The signal index exists in `c`'s signal table.
pub open spec fn valid_target(c: CircuitBuilder, t: Target) -> bool {
    t.index < c.signals@.len()
}

/// Signal `t` is pinned to the constant `v` in `c`.
pub open spec fn is_const_val(c: CircuitBuilder, t: Target, v: u64) -> bool {
    t.index < c.signals@.len() && c.signals@[t.index as int] == Some(v)
}

/// Number of rows of the given kind and width among `rows`.
pub open spec fn rows_for(rows: Seq<GateRow>, kind: GateKind, bits: usize) -> int
    decreases rows.len(),
{
    if rows.len() == 0 {
        0
    } else {
        rows_for(rows.drop_last(), kind, bits)
            + if rows.last().kind == kind && rows.last().bits == bits { 1int } else { 0int }
    }
}

/// Number of operation slots taken from rows of the given kind and width.
pub open spec fn slots_for(rows: Seq<GateRow>, kind: GateKind, bits: usize) -> int
    decreases rows.len(),
{
    if rows.len() == 0 {
        0
    } else {
        slots_for(rows.drop_last(), kind, bits)
            + if rows.last().kind == kind && rows.last().bits == bits { rows.last().used as int } else { 0int }
    }
}

/// Rows are bump-allocated: for every kind and width, the taken slots
/// fill whole rows except for at most one partially used row, so the row
/// count is exactly the ceiling of the slot count over `copies_per_row`.
pub open spec fn alloc_counts_ok(rows: Seq<GateRow>, copies_per_row: usize) -> bool {
    forall|kind: GateKind, bits: usize| {
        let r = rows_for(rows, kind, bits);
        let s = #[trigger] slots_for(rows, kind, bits);
        &&& (r == 0 ==> s == 0)
        &&& (r >= 1 ==> (r - 1) * copies_per_row < s <= r * copies_per_row)
    }
}

/// Every field of the slot constraint refers to an existing signal, and
/// its width is usable.
pub open spec fn wf_slot(s: SlotConstraint, n: int) -> bool {
    &&& s.in0 < n
    &&& s.in1 < n
    &&& s.in2 < n
    &&& s.out0 < n
    &&& s.out1 < n
    &&& valid_bits(s.bits)
}

/// Well-formedness of a circuit under construction: every recorded
/// constraint refers to existing signals, every row is partially or fully
/// used, and the allocation accounting of [`alloc_counts_ok`] holds.
pub open spec fn wf(c: CircuitBuilder) -> bool {
    &&& c.copies_per_row >= 1
    &&& forall|i: int| 0 <= i < c.eqs@.len() ==> (#[trigger] c.eqs@[i]).a < c.signals@.len() && c.eqs@[i].b < c.signals@.len()
    &&& forall|i: int| 0 <= i < c.zeros@.len() ==> #[trigger] c.zeros@[i] < c.signals@.len()
    &&& forall|i: int| 0 <= i < c.slots@.len() ==> wf_slot(#[trigger] c.slots@[i], c.signals@.len() as int)
    &&& forall|i: int| 0 <= i < c.rows@.len() ==> 1 <= (#[trigger] c.rows@[i]).used <= c.copies_per_row && valid_bits(c.rows@[i].bits)
    &&& alloc_counts_ok(c.rows@, c.copies_per_row)
}

/// `c2` is `c1` grown by further signals and constraints: everything
/// recorded in `c1` is still recorded, unchanged, in `c2`.
pub open spec fn extends(c1: CircuitBuilder, c2: CircuitBuilder) -> bool {
    &&& c1.signals@.len() <= c2.signals@.len()
    &&& forall|i: int| 0 <= i < c1.signals@.len() ==> #[trigger] c2.signals@[i] == c1.signals@[i]
    &&& c1.eqs@.len() <= c2.eqs@.len()
    &&& forall|i: int| 0 <= i < c1.eqs@.len() ==> #[trigger] c2.eqs@[i] == c1.eqs@[i]
    &&& c1.zeros@.len() <= c2.zeros@.len()
    &&& forall|i: int| 0 <= i < c1.zeros@.len() ==> #[trigger] c2.zeros@[i] == c1.zeros@[i]
    &&& c1.slots@.len() <= c2.slots@.len()
    &&& forall|i: int| 0 <= i < c1.slots@.len() ==> #[trigger] c2.slots@[i] == c1.slots@[i]
    &&& c1.copies_per_row == c2.copies_per_row
}

/// Growing a circuit only adds constraints, so a witness of the grown
/// circuit still satisfies the smaller one.
pub broadcast proof fn lemma_sat_extends(c1: CircuitBuilder, c2: CircuitBuilder, w: Seq<u64>)
    requires
        #[trigger] extends(c1, c2),
        #[trigger] sat(c2, w),
    ensures
        sat(c1, w),
{
    assert forall|i: int| 0 <= i < c1.signals@.len() implies (#[trigger] c1.signals@[i] matches Some(v) ==> w[i] == v) by {
        assert(c2.signals@[i] == c1.signals@[i]);
    }
    assert forall|i: int| 0 <= i < c1.eqs@.len() implies w[(#[trigger] c1.eqs@[i]).a as int] == w[c1.eqs@[i].b as int] by {
        assert(c2.eqs@[i] == c1.eqs@[i]);
    }
    assert forall|i: int| 0 <= i < c1.zeros@.len() implies w[#[trigger] c1.zeros@[i] as int] == 0 by {
        assert(c2.zeros@[i] == c1.zeros@[i]);
    }
    assert forall|i: int| 0 <= i < c1.slots@.len() implies slot_holds(#[trigger] c1.slots@[i], w) by {
        assert(c2.slots@[i] == c1.slots@[i]);
    }
}

/// Growing is transitive.
pub broadcast proof fn lemma_extends_trans(c1: CircuitBuilder, c2: CircuitBuilder, c3: CircuitBuilder)
    requires
        #[trigger] extends(c1, c2),
        #[trigger] extends(c2, c3),
    ensures
        extends(c1, c3),
{
    assert forall|i: int| 0 <= i < c1.signals@.len() implies #[trigger] c3.signals@[i] == c1.signals@[i] by {
        assert(c2.signals@[i] == c1.signals@[i]);
    }
    assert forall|i: int| 0 <= i < c1.eqs@.len() implies #[trigger] c3.eqs@[i] == c1.eqs@[i] by {
        assert(c2.eqs@[i] == c1.eqs@[i]);
    }
    assert forall|i: int| 0 <= i < c1.zeros@.len() implies #[trigger] c3.zeros@[i] == c1.zeros@[i] by {
        assert(c2.zeros@[i] == c1.zeros@[i]);
    }
    assert forall|i: int| 0 <= i < c1.slots@.len() implies #[trigger] c3.slots@[i] == c1.slots@[i] by {
        assert(c2.slots@[i] == c1.slots@[i]);
    }
}

impl CircuitBuilder {
    /// Start an empty circuit whose custom-gate rows each host
    /// `copies_per_row` independent operation slots.
    pub fn new(copies_per_row: usize) -> (res: CircuitBuilder)
        requires
            copies_per_row >= 1,
        ensures
            wf(res),
            res.signals@.len() == 0,
            res.eqs@.len() == 0,
            res.zeros@.len() == 0,
            res.slots@.len() == 0,
            res.rows@.len() == 0,
            res.copies_per_row == copies_per_row,
    {
        let res = CircuitBuilder {
            signals: Vec::new(),
            eqs: Vec::new(),
            zeros: Vec::new(),
            slots: Vec::new(),
            rows: Vec::new(),
            copies_per_row,
        };
        proof {
            assert forall|kind: GateKind, bits: usize|
                #![trigger slots_for(res.rows@, kind, bits)]
                rows_for(res.rows@, kind, bits) == 0 && slots_for(res.rows@, kind, bits) == 0 by {
                assert(res.rows@.len() == 0);
            }
        }
        res
    }

    /// Allocate a fresh unconstrained signal.
    pub fn add_virtual_target(&mut self) -> (t: Target)
        requires
            wf(*old(self)),
        ensures
            wf(*final(self)),
            extends(*old(self), *final(self)),
            final(self).signals@ == old(self).signals@.push(None),
            final(self).eqs@ == old(self).eqs@,
            final(self).zeros@ == old(self).zeros@,
            final(self).slots@ == old(self).slots@,
            final(self).rows@ == old(self).rows@,
            t.index == old(self).signals@.len(),
    {
        let index = self.signals.len();
        self.signals.push(None);
        Target { index }
    }

    /// Allocate a signal pinned to the constant `c`.
    pub fn constant(&mut self, c: u64) -> (t: Target)
        requires
            wf(*old(self)),
        ensures
            wf(*final(self)),
            extends(*old(self), *final(self)),
            final(self).signals@ == old(self).signals@.push(Some(c)),
            final(self).eqs@ == old(self).eqs@,
            final(self).zeros@ == old(self).zeros@,
            final(self).slots@ == old(self).slots@,
            final(self).rows@ == old(self).rows@,
            t.index == old(self).signals@.len(),
            is_const_val(*final(self), t, c),
    {
        let index = self.signals.len();
        self.signals.push(Some(c));
        Target { index }
    }

    /// The signal pinned to zero.
    pub fn zero(&mut self) -> (t: Target)
        requires
            wf(*old(self)),
        ensures
            wf(*final(self)),
            extends(*old(self), *final(self)),
            final(self).signals@ == old(self).signals@.push(Some(0)),
            final(self).eqs@ == old(self).eqs@,
            final(self).zeros@ == old(self).zeros@,
            final(self).slots@ == old(self).slots@,
            final(self).rows@ == old(self).rows@,
            is_const_val(*final(self), t, 0),
    {
        self.constant(0)
    }

    /// The signal pinned to one.
    pub fn one(&mut self) -> (t: Target)
        requires
            wf(*old(self)),
        ensures
            wf(*final(self)),
            extends(*old(self), *final(self)),
            final(self).signals@ == old(self).signals@.push(Some(1)),
            final(self).eqs@ == old(self).eqs@,
            final(self).zeros@ == old(self).zeros@,
            final(self).slots@ == old(self).slots@,
            final(self).rows@ == old(self).rows@,
            is_const_val(*final(self), t, 1),
    {
        self.constant(1)
    }

    /// Assert that two signals carry the same value in every satisfying
    /// witness.
    pub fn connect(&mut self, x: Target, y: Target)
        requires
            wf(*old(self)),
            valid_target(*old(self), x),
            valid_target(*old(self), y),
        ensures
            wf(*final(self)),
            extends(*old(self), *final(self)),
            final(self).signals@ == old(self).signals@,
            final(self).eqs@ == old(self).eqs@.push(EqConstraint { a: x.index, b: y.index }),
            final(self).zeros@ == old(self).zeros@,
            final(self).slots@ == old(self).slots@,
            final(self).rows@ == old(self).rows@,
            forall|w: Seq<u64>| #[trigger] sat(*final(self), w) ==> w[x.index as int] == w[y.index as int],
    {
        self.eqs.push(EqConstraint { a: x.index, b: y.index });
        proof {
            assert forall|w: Seq<u64>| #[trigger] sat(*self, w) implies w[x.index as int] == w[y.index as int] by {
                let i: int = self.eqs@.len() - 1;
                assert(self.eqs@[i] == (EqConstraint { a: x.index, b: y.index }));
            }
        }
    }

    /// Assert that a signal is zero in every satisfying witness.
    pub fn assert_zero(&mut self, x: Target)
        requires
            wf(*old(self)),
            valid_target(*old(self), x),
        ensures
            wf(*final(self)),
            extends(*old(self), *final(self)),
            final(self).signals@ == old(self).signals@,
            final(self).eqs@ == old(self).eqs@,
            final(self).zeros@ == old(self).zeros@.push(x.index),
            final(self).slots@ == old(self).slots@,
            final(self).rows@ == old(self).rows@,
            forall|w: Seq<u64>| #[trigger] sat(*final(self), w) ==> w[x.index as int] == 0,
    {
        self.zeros.push(x.index);
        proof {
            assert forall|w: Seq<u64>| #[trigger] sat(*self, w) implies w[x.index as int] == 0 by {
                let i: int = self.zeros@.len() - 1;
                assert(self.zeros@[i] == x.index);
            }
        }
    }

    /// Record the constraint of one wired operation slot.
    pub(crate) fn add_slot(&mut self, s: SlotConstraint)
        requires
            wf(*old(self)),
            wf_slot(s, old(self).signals@.len() as int),
        ensures
            wf(*final(self)),
            extends(*old(self), *final(self)),
            final(self).signals@ == old(self).signals@,
            final(self).eqs@ == old(self).eqs@,
            final(self).zeros@ == old(self).zeros@,
            final(self).slots@ == old(self).slots@.push(s),
            final(self).rows@ == old(self).rows@,
            forall|w: Seq<u64>| #[trigger] sat(*final(self), w) ==> slot_holds(s, w),
    {
        self.slots.push(s);
        proof {
            assert forall|w: Seq<u64>| #[trigger] sat(*self, w) implies slot_holds(s, w) by {
                let i: int = self.slots@.len() - 1;
                assert(self.slots@[i] == s);
            }
        }
    }

    /// Inspect whether a signal is pinned to a known constant, and to
    /// which value.
    pub fn target_as_constant(&self, t: Target) -> (res: Option<u64>)
        requires
            valid_target(*self, t),
        ensures
            res == self.signals@[t.index as int],
    {
        self.signals[t.index]
    }

    /// Number of signals allocated so far; a witness assigns a value to
    /// each of them.
    pub fn num_targets(&self) -> (n: usize)
        ensures
            n == self.signals@.len(),
    {
        self.signals.len()
    }

    /// Check a full witness assignment against every recorded constraint:
    /// returns exactly whether `w` satisfies the circuit.
    pub fn satisfies_witness(&self, w: &Vec<u64>) -> (r: bool)
        requires
            wf(*self),
        ensures
            r == sat(*self, w@),
    {
        let ns = self.signals.len();
        if w.len() < ns {
            return false;
        }
        let mut i: usize = 0;
        while i < ns
            invariant
                i <= ns,
                ns == self.signals@.len(),
                wf(*self),
                w@.len() >= ns,
                forall|j: int| 0 <= j < i ==> (#[trigger] self.signals@[j] matches Some(v) ==> w@[j] == v),
            decreases ns - i,
        {
            if let Some(v) = self.signals[i] {
                if w[i] != v {
                    proof {
                        assert(self.signals@[i as int] == Some(v));
                    }
                    return false;
                }
            }
            i = i + 1;
        }
        let ne = self.eqs.len();
        let mut i: usize = 0;
        while i < ne
            invariant
                i <= ne,
                ne == self.eqs@.len(),
                wf(*self),
                w@.len() >= self.signals@.len(),
                forall|j: int| 0 <= j < i ==> w@[(#[trigger] self.eqs@[j]).a as int] == w@[self.eqs@[j].b as int],
            decreases ne - i,
        {
            let e = self.eqs[i];
            if w[e.a] != w[e.b] {
                proof {
                    assert(self.eqs@[i as int] == e);
                }
                return false;
            }
            i = i + 1;
        }
        let nz = self.zeros.len();
        let mut i: usize = 0;
        while i < nz
            invariant
                i <= nz,
                nz == self.zeros@.len(),
                wf(*self),
                w@.len() >= self.signals@.len(),
                forall|j: int| 0 <= j < i ==> w@[#[trigger] self.zeros@[j] as int] == 0,
            decreases nz - i,
        {
            let z = self.zeros[i];
            if w[z] != 0 {
                proof {
                    assert(self.zeros@[i as int] == z);
                }
                return false;
            }
            i = i + 1;
        }
        let nsl = self.slots.len();
        let mut i: usize = 0;
        while i < nsl
            invariant
                i <= nsl,
                nsl == self.slots@.len(),
                wf(*self),
                w@.len() >= self.signals@.len(),
                forall|j: int| 0 <= j < i ==> slot_holds(#[trigger] self.slots@[j], w@),
            decreases nsl - i,
        {
            let s = self.slots[i];
            if !slot_satisfied(s, w) {
                proof {
                    assert(self.slots@[i as int] == s);
                }
                return false;
            }
            i = i + 1;
        }
        true
    }
}

/// Evaluate the identity of one operation slot on a witness: returns
/// exactly whether [`slot_holds`] is met.
fn slot_satisfied(s: SlotConstraint, w: &Vec<u64>) -> (r: bool)
    requires
        valid_bits(s.bits),
        s.in0 < w@.len(),
        s.in1 < w@.len(),
        s.in2 < w@.len(),
        s.out0 < w@.len(),
        s.out1 < w@.len(),
    ensures
        r == slot_holds(s, w@),
{
    proof {
        lemma_limb_bound_range(s.bits);
    }
    let b = limb_bound_u64(s.bits);
    match s.kind {
        GateKind::Arithmetic => {
            let x = w[s.in0];
            let y = w[s.in1];
            let z = w[s.in2];
            if x < b && y < b && z < b {
                let out0 = w[s.out0];
                let out1 = w[s.out1];
                if out0 < b && out1 < b {
                    proof {
                        vstd::arithmetic::mul::lemma_mul_upper_bound(x as int, b - 1, y as int, b - 1);
                        vstd::arithmetic::mul::lemma_mul_upper_bound(b - 1, 0x7fffffff, b - 1, 0x7fffffff);
                        vstd::arithmetic::mul::lemma_mul_upper_bound(out1 as int, b - 1, b as int, 0x80000000);
                    }
                    x * y + z == out0 + out1 * b
                } else {
                    false
                }
            } else {
                true
            }
        },
        GateKind::Subtraction => {
            let x = w[s.in0];
            let y = w[s.in1];
            let bin = w[s.in2];
            if x < b && y < b && bin <= 1 {
                let res = w[s.out0];
                let bout = w[s.out1];
                if res < b && bout <= 1 {
                    proof {
                        vstd::arithmetic::mul::lemma_mul_upper_bound(bout as int, 1, b as int, 0x80000000);
                    }
                    res + y + bin == x + bout * b
                } else {
                    false
                }
            } else {
                true
            }
        },
    }
}

/// The limb bound of any usable width lies between `2` and `2^31`.
pub proof fn lemma_limb_bound_range(bits: usize)
    requires
        valid_bits(bits),
    ensures
        2 <= limb_bound(bits) <= 0x80000000,
{
    lemma2_to64();
    if bits < 31 {
        lemma_pow2_strictly_increases(bits as nat, 31);
    }
    if bits > 1 {
        lemma_pow2_strictly_increases(1, bits as nat);
    }
}

/// `2^bits` as a `u64`.
pub fn limb_bound_u64(bits: usize) -> (r: u64)
    requires
        valid_bits(bits),
    ensures
        r == limb_bound(bits),
        r >= 2,
{
    proof {
        lemma2_to64();
    }
    let mut r: u64 = 1;
    let mut i: usize = 0;
    while i < bits
        invariant
            i <= bits,
            valid_bits(bits),
            r == pow2(i as nat),
        decreases bits - i,
    {
        proof {
            lemma2_to64();
            if i < 30 {
                lemma_pow2_strictly_increases(i as nat, 30);
            }
            lemma_pow2_unfold((i + 1) as nat);
        }
        r = r * 2;
        i = i + 1;
    }
    proof {
        lemma_pow2_unfold(bits as nat);
        lemma_pow2_pos((bits - 1) as nat);
    }
    r
}

} // verus!
