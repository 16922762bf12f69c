//! Fixed-width binary arithmetic gadgets.
//!
//! A [`BinaryTarget`] is a handle to a circuit signal that stands for an
//! unsigned integer below `2^bits`.  The gadgets realize multiply-add,
//! addition with carry, multi-operand summation and subtraction with
//! borrow on such handles.  Fully constant operand triples fold to
//! constants and take no gate row; everything else is wired to an
//! operation slot of a gate row, and each contract states the limb
//! identity that every satisfying witness of the grown circuit must
//! assign to the returned handles.

use vstd::prelude::*;
use vstd::arithmetic::power2::{lemma_pow2_pos, lemma2_to64};
use vstd::arithmetic::div_mod::{
    lemma_fundamental_div_mod,
    lemma_fundamental_div_mod_converse,
    lemma_div_is_ordered,
    lemma_div_multiples_vanish,
    lemma_small_mod,
    lemma_basic_div,
    lemma_mod_division_less_than_divisor,
};
use vstd::arithmetic::mul::lemma_mul_upper_bound;
use crate::circuit::{
    CircuitBuilder, Target, GateKind, EqConstraint, SlotConstraint, sat, wf, extends, valid_target,
    valid_bits, is_const_val, limb_bound, limb_bound_u64, slot_holds, rows_for, slots_for,
    lemma_sat_extends, lemma_extends_trans, lemma_limb_bound_range,
};

verus! {

broadcast use lemma_sat_extends, lemma_extends_trans;

/// Handle to a circuit signal standing for an unsigned integer of `bits`
/// bits.  Range validity is an invariant kept by gate constraints.
#[derive(Clone, Copy, Debug, PartialEq, Eq, Structural)]
pub struct BinaryTarget {
    pub target: Target,
    pub bits: usize,
}

/// The handle points at an existing signal and carries a usable width.
pub open spec fn valid_binary(c: CircuitBuilder, t: BinaryTarget) -> bool {
    valid_target(c, t.target) && valid_bits(t.bits)
}

/// The value a witness assigns to the handle's signal.
pub open spec fn value_of(w: Seq<u64>, t: BinaryTarget) -> int {
    w[t.target.index as int] as int
}

/// The witness value is inside the handle's `bits`-bit range.
pub open spec fn in_range(w: Seq<u64>, t: BinaryTarget) -> bool {
    value_of(w, t) < limb_bound(t.bits)
}

/// The constant the handle's signal is pinned to, if any.
pub open spec fn binary_const(c: CircuitBuilder, t: BinaryTarget) -> Option<u64> {
    c.signals@[t.target.index as int]
}

/// If the handle is pinned to a constant, that constant is in range.
pub open spec fn const_in_range(c: CircuitBuilder, t: BinaryTarget) -> bool {
    binary_const(c, t) matches Some(v) ==> v < limb_bound(t.bits)
}

/// `(low, high)` is the limb decomposition of `x * y + z`:
/// `x * y + z == low + high * 2^bits` with both limbs in range.
pub open spec fn mul_add_rel(bits: usize, x: int, y: int, z: int, low: int, high: int) -> bool {
    &&& 0 <= low < limb_bound(bits)
    &&& 0 <= high < limb_bound(bits)
    &&& low + high * limb_bound(bits) == x * y + z
}

/// `(result, borrow_out)` realizes `x - y - borrow_in` over the integers:
/// `result == x - y - borrow_in + borrow_out * 2^bits` with `result` in
/// range and `borrow_out` a flag, so `borrow_out == 1` iff
/// `y + borrow_in > x`.
pub open spec fn sub_rel(bits: usize, x: int, y: int, borrow_in: int, result: int, borrow_out: int) -> bool {
    &&& 0 <= result < limb_bound(bits)
    &&& 0 <= borrow_out <= 1
    &&& result + y + borrow_in == x + borrow_out * limb_bound(bits)
}

/// Low limb of the folded constant `x * y + z`.
pub open spec fn fold_low(bits: usize, x: u64, y: u64, z: u64) -> int {
    (x * y + z) % limb_bound(bits)
}

/// High limb of the folded constant `x * y + z`.
pub open spec fn fold_high(bits: usize, x: u64, y: u64, z: u64) -> int {
    ((x * y + z) / limb_bound(bits)) % limb_bound(bits)
}

/// Constant folding is exact: for in-range constants the folded limbs
/// decompose `x * y + z` with no truncation.
pub proof fn lemma_fold_exact(bits: usize, x: u64, y: u64, z: u64)
    requires
        valid_bits(bits),
        x < limb_bound(bits),
        y < limb_bound(bits),
        z < limb_bound(bits),
    ensures
        mul_add_rel(bits, x as int, y as int, z as int, fold_low(bits, x, y, z), fold_high(bits, x, y, z)),
        fold_high(bits, x, y, z) == (x * y + z) / limb_bound(bits),
{
    let b = limb_bound(bits);
    lemma_pow2_pos(bits as nat);
    let s = x * y + z;
    lemma_mul_upper_bound(x as int, b - 1, y as int, b - 1);
    assert((b - 1) * (b - 1) + (b - 1) == b * (b - 1)) by (nonlinear_arith);
    assert(s <= b * (b - 1));
    lemma_div_is_ordered(s, b * (b - 1), b);
    lemma_div_multiples_vanish(b - 1, b);
    assert(s / b <= b - 1);
    lemma_fundamental_div_mod(s, b);
    lemma_mod_division_less_than_divisor(s, b);
    assert(s / b >= 0) by {
        vstd::arithmetic::div_mod::lemma_div_pos_is_pos(s, b);
    }
    lemma_small_mod((s / b) as nat, b as nat);
}

/// All three operands are pinned to known constants.
pub open spec fn all_const(c: CircuitBuilder, x: BinaryTarget, y: BinaryTarget, z: BinaryTarget) -> bool {
    binary_const(c, x) is Some && binary_const(c, y) is Some && binary_const(c, z) is Some
}

/// `c1` is `c0` grown by exactly one wired operation slot: five fresh
/// port signals, one slot constraint of the given kind and width over
/// them, and three equality constraints tying the input ports, in order,
/// to the operands `a`, `b` and `d`.  The slot's two output ports are the
/// returned handles `out0` and `out1`.  Nothing else changes: the zero
/// constraints are untouched, and the five new signals are unconstrained
/// ports, not pinned constants.
pub open spec fn wires_one_slot(
    c0: CircuitBuilder,
    c1: CircuitBuilder,
    kind: GateKind,
    bits: usize,
    a: BinaryTarget,
    b: BinaryTarget,
    d: BinaryTarget,
    out0: BinaryTarget,
    out1: BinaryTarget,
) -> bool {
    let base = c0.signals@.len() as int;
    let s = c1.slots@.last();
    let e = c0.eqs@.len() as int;
    &&& c1.signals@.len() == base + 5
    &&& (forall|j: int| base <= j < base + 5 ==> c1.signals@[j] is None)
    &&& out0.target.index == base + 3
    &&& out1.target.index == base + 4
    &&& c1.slots@.len() == c0.slots@.len() + 1
    &&& s.kind == kind
    &&& s.bits == bits
    &&& s.in0 == base
    &&& s.in1 == base + 1
    &&& s.in2 == base + 2
    &&& s.out0 == base + 3
    &&& s.out1 == base + 4
    &&& c1.eqs@.len() == e + 3
    &&& c1.eqs@[e].a == base && c1.eqs@[e].b == a.target.index
    &&& c1.eqs@[e + 1].a == base + 1 && c1.eqs@[e + 1].b == b.target.index
    &&& c1.eqs@[e + 2].a == base + 2 && c1.eqs@[e + 2].b == d.target.index
    &&& c1.zeros@ == c0.zeros@
}

/// Low limb of the folded constant `x * y + z`, as the wrapped value.
pub open spec fn fold_low_u64(bits: usize, x: u64, y: u64, z: u64) -> u64 {
    fold_low(bits, x, y, z) as u64
}

/// High limb of the folded constant `x * y + z`, as the wrapped value.
pub open spec fn fold_high_u64(bits: usize, x: u64, y: u64, z: u64) -> u64 {
    fold_high(bits, x, y, z) as u64
}

/// The sum, over the witness `w`, of the values of all handles in `ts`.
pub open spec fn sum_values(w: Seq<u64>, ts: Seq<BinaryTarget>) -> int
    decreases ts.len(),
{
    if ts.len() == 0 {
        0
    } else {
        sum_values(w, ts.drop_last()) + value_of(w, ts.last())
    }
}

/// Every handle in `ts` carries an in-range value under `w`.
pub open spec fn all_in_range(w: Seq<u64>, ts: Seq<BinaryTarget>) -> bool {
    forall|j: int| 0 <= j < ts.len() ==> in_range(w, #[trigger] ts[j])
}

/// Extending a prefix sum by one element.
proof fn lemma_sum_take(w: Seq<u64>, ts: Seq<BinaryTarget>, i: int)
    requires
        0 <= i < ts.len(),
    ensures
        sum_values(w, ts.take(i + 1)) == sum_values(w, ts.take(i)) + value_of(w, ts[i]),
{
    assert(ts.take(i + 1).drop_last() =~= ts.take(i));
    assert(ts.take(i + 1).last() == ts[i]);
}

impl CircuitBuilder {
    /// Wrap a fresh unconstrained signal as a `bits`-wide binary value.
    pub fn add_virtual_binary_target(&mut self, bits: usize) -> (t: BinaryTarget)
        requires
            wf(*old(self)),
            valid_bits(bits),
        ensures
            wf(*final(self)),
            extends(*old(self), *final(self)),
            final(self).signals@ == old(self).signals@.push(None),
            final(self).eqs@ == old(self).eqs@,
            final(self).zeros@ == old(self).zeros@,
            final(self).slots@ == old(self).slots@,
            final(self).rows@ == old(self).rows@,
            valid_binary(*final(self), t),
            t.bits == bits,
            t.target.index == old(self).signals@.len(),
            binary_const(*final(self), t) is None,
    {
        let target = self.add_virtual_target();
        BinaryTarget { target, bits }
    }

    /// Wrap `n` fresh unconstrained signals as `bits`-wide binary values.
    pub fn add_virtual_binary_targets(&mut self, bits: usize, n: usize) -> (ts: Vec<BinaryTarget>)
        requires
            wf(*old(self)),
            valid_bits(bits),
        ensures
            wf(*final(self)),
            extends(*old(self), *final(self)),
            final(self).eqs@ == old(self).eqs@,
            final(self).zeros@ == old(self).zeros@,
            final(self).slots@ == old(self).slots@,
            final(self).rows@ == old(self).rows@,
            ts@.len() == n,
            final(self).signals@.len() == old(self).signals@.len() + n,
            forall|j: int| 0 <= j < n
                ==> valid_binary(*final(self), #[trigger] ts@[j]) && ts@[j].bits == bits
                    && binary_const(*final(self), ts@[j]) is None,
            forall|j: int| 0 <= j < n
                ==> (#[trigger] ts@[j]).target.index == old(self).signals@.len() + j,
    {
        let mut ts: Vec<BinaryTarget> = Vec::new();
        let mut k: usize = 0;
        while k < n
            invariant
                k <= n,
                wf(*self),
                valid_bits(bits),
                extends(*old(self), *self),
                self.eqs@ == old(self).eqs@,
                self.zeros@ == old(self).zeros@,
                self.slots@ == old(self).slots@,
                self.rows@ == old(self).rows@,
                ts@.len() == k,
                self.signals@.len() == old(self).signals@.len() + k,
                forall|j: int| 0 <= j < k
                    ==> valid_binary(*self, #[trigger] ts@[j]) && ts@[j].bits == bits
                        && binary_const(*self, ts@[j]) is None,
                forall|j: int| 0 <= j < k
                    ==> (#[trigger] ts@[j]).target.index == old(self).signals@.len() + j,
            decreases n - k,
        {
            let ghost pre = *self;
            let t = self.add_virtual_binary_target(bits);
            ts.push(t);
            proof {
                assert forall|j: int| 0 <= j < ts@.len()
                    implies valid_binary(*self, #[trigger] ts@[j]) && ts@[j].bits == bits
                        && binary_const(*self, ts@[j]) is None by {
                    if j < ts@.len() - 1 {
                        assert(ts@[j].target.index < pre.signals@.len());
                        assert(self.signals@[ts@[j].target.index as int] == pre.signals@[ts@[j].target.index as int]);
                    }
                }
            }
            k = k + 1;
        }
        ts
    }

    /// A `bits`-wide binary value pinned to the constant `c`.
    pub fn constant_binary(&mut self, bits: usize, c: u64) -> (t: BinaryTarget)
        requires
            wf(*old(self)),
            valid_bits(bits),
            c < limb_bound(bits),
        ensures
            wf(*final(self)),
            extends(*old(self), *final(self)),
            final(self).signals@ == old(self).signals@.push(Some(c)),
            final(self).eqs@ == old(self).eqs@,
            final(self).zeros@ == old(self).zeros@,
            final(self).slots@ == old(self).slots@,
            final(self).rows@ == old(self).rows@,
            valid_binary(*final(self), t),
            t.bits == bits,
            t.target.index == old(self).signals@.len(),
            is_const_val(*final(self), t.target, c),
            binary_const(*final(self), t) == Some(c),
    {
        let target = self.constant(c);
        BinaryTarget { target, bits }
    }

    /// The `bits`-wide binary value zero.
    pub fn zero_binary(&mut self, bits: usize) -> (t: BinaryTarget)
        requires
            wf(*old(self)),
            valid_bits(bits),
        ensures
            wf(*final(self)),
            extends(*old(self), *final(self)),
            final(self).signals@ == old(self).signals@.push(Some(0)),
            final(self).eqs@ == old(self).eqs@,
            final(self).zeros@ == old(self).zeros@,
            final(self).slots@ == old(self).slots@,
            final(self).rows@ == old(self).rows@,
            valid_binary(*final(self), t),
            t.bits == bits,
            binary_const(*final(self), t) == Some(0u64),
    {
        proof {
            lemma_pow2_pos(bits as nat);
        }
        self.constant_binary(bits, 0)
    }

    /// The `bits`-wide binary value one.
    pub fn one_binary(&mut self, bits: usize) -> (t: BinaryTarget)
        requires
            wf(*old(self)),
            valid_bits(bits),
        ensures
            wf(*final(self)),
            extends(*old(self), *final(self)),
            final(self).signals@ == old(self).signals@.push(Some(1)),
            final(self).eqs@ == old(self).eqs@,
            final(self).zeros@ == old(self).zeros@,
            final(self).slots@ == old(self).slots@,
            final(self).rows@ == old(self).rows@,
            valid_binary(*final(self), t),
            t.bits == bits,
            binary_const(*final(self), t) == Some(1u64),
    {
        proof {
            lemma_pow2_pos(bits as nat);
            lemma2_to64();
            if bits > 1 {
                vstd::arithmetic::power2::lemma_pow2_strictly_increases(1, bits as nat);
            }
        }
        self.constant_binary(bits, 1)
    }

    /// Constrain two binary values of the same width to be equal in every
    /// satisfying witness.
    pub fn connect_binary(&mut self, x: BinaryTarget, y: BinaryTarget)
        requires
            wf(*old(self)),
            valid_binary(*old(self), x),
            valid_binary(*old(self), y),
            x.bits == y.bits,
        ensures
            wf(*final(self)),
            extends(*old(self), *final(self)),
            final(self).signals@ == old(self).signals@,
            final(self).eqs@ == old(self).eqs@.push(EqConstraint { a: x.target.index, b: y.target.index }),
            final(self).zeros@ == old(self).zeros@,
            final(self).slots@ == old(self).slots@,
            final(self).rows@ == old(self).rows@,
            forall|w: Seq<u64>| #[trigger] sat(*final(self), w) ==> value_of(w, x) == value_of(w, y),
    {
        self.connect(x.target, y.target)
    }

    /// Checks for special cases where the value of `x * y + z` can be
    /// determined without taking a gate slot: when all three operands are
    /// known constants, the exact sum is computed and split into its two
    /// limbs, both returned as constants.
    pub fn arithmetic_binary_special_cases(
        &mut self,
        x: BinaryTarget,
        y: BinaryTarget,
        z: BinaryTarget,
    ) -> (res: Option<(BinaryTarget, BinaryTarget)>)
        requires
            wf(*old(self)),
            valid_binary(*old(self), x),
            valid_binary(*old(self), y),
            valid_binary(*old(self), z),
            y.bits == x.bits,
            z.bits == x.bits,
            const_in_range(*old(self), x),
            const_in_range(*old(self), y),
            const_in_range(*old(self), z),
        ensures
            wf(*final(self)),
            extends(*old(self), *final(self)),
            final(self).eqs@ == old(self).eqs@,
            final(self).zeros@ == old(self).zeros@,
            final(self).slots@ == old(self).slots@,
            final(self).rows@ == old(self).rows@,
            res is Some <==> all_const(*old(self), x, y, z),
            res is None ==> *final(self) == *old(self),
            res matches Some(r) ==> {
                let cx = binary_const(*old(self), x)->0;
                let cy = binary_const(*old(self), y)->0;
                let cz = binary_const(*old(self), z)->0;
                &&& r.0.bits == x.bits
                &&& r.1.bits == x.bits
                &&& valid_binary(*final(self), r.0)
                &&& valid_binary(*final(self), r.1)
                &&& binary_const(*final(self), r.0) == Some(fold_low_u64(x.bits, cx, cy, cz))
                &&& binary_const(*final(self), r.1) == Some(fold_high_u64(x.bits, cx, cy, cz))
                &&& r.0.target.index == old(self).signals@.len()
                &&& r.1.target.index == old(self).signals@.len() + 1
                &&& final(self).signals@ == old(self).signals@
                    .push(Some(fold_low_u64(x.bits, cx, cy, cz)))
                    .push(Some(fold_high_u64(x.bits, cx, cy, cz)))
            },
    {
        let x_const = self.target_as_constant(x.target);
        let y_const = self.target_as_constant(y.target);
        let z_const = self.target_as_constant(z.target);

        // If both factors are constant, so is the first term.
        let first_term_const = match (x_const, y_const) {
            (Some(xx), Some(yy)) => {
                proof {
                    lemma_limb_bound_range(x.bits);
                    lemma_mul_upper_bound(xx as int, limb_bound(x.bits) - 1, yy as int, limb_bound(x.bits) - 1);
                    lemma_mul_upper_bound(limb_bound(x.bits) - 1, 0x7fffffff, limb_bound(x.bits) - 1, 0x7fffffff);
                }
                Some(xx * yy)
            },
            _ => None,
        };

        match (first_term_const, z_const) {
            (Some(a), Some(b)) => {
                proof {
                    lemma_limb_bound_range(x.bits);
                    lemma_mul_upper_bound(x_const->0 as int, limb_bound(x.bits) - 1, y_const->0 as int, limb_bound(x.bits) - 1);
                    lemma_mul_upper_bound(limb_bound(x.bits) - 1, 0x7fffffff, limb_bound(x.bits) - 1, 0x7fffffff);
                }
                let sum = a + b;
                let base = limb_bound_u64(x.bits);
                let low_val = sum % base;
                let high_val = (sum / base) % base;
                proof {
                    lemma_mod_division_less_than_divisor(sum as int, base as int);
                    lemma_mod_division_less_than_divisor((sum / base) as int, base as int);
                    assert(low_val == fold_low_u64(x.bits, x_const->0, y_const->0, z_const->0));
                    assert(high_val == fold_high_u64(x.bits, x_const->0, y_const->0, z_const->0));
                }
                let low = self.constant_binary(x.bits, low_val);
                let high = self.constant_binary(x.bits, high_val);
                Some((low, high))
            },
            _ => None,
        }
    }

    /// Take a fresh operation slot of the requested kind and width from
    /// the allocator, allocate its five port signals, and record the
    /// slot's constraint over them.
    fn wire_slot(&mut self, kind: GateKind, bits: usize) -> (s: SlotConstraint)
        requires
            wf(*old(self)),
            valid_bits(bits),
        ensures
            wf(*final(self)),
            extends(*old(self), *final(self)),
            final(self).eqs@ == old(self).eqs@,
            final(self).zeros@ == old(self).zeros@,
            s.kind == kind,
            s.bits == bits,
            s.in0 == old(self).signals@.len(),
            s.in1 == old(self).signals@.len() + 1,
            s.in2 == old(self).signals@.len() + 2,
            s.out0 == old(self).signals@.len() + 3,
            s.out1 == old(self).signals@.len() + 4,
            final(self).signals@.len() == old(self).signals@.len() + 5,
            forall|j: int| old(self).signals@.len() <= j < final(self).signals@.len()
                ==> final(self).signals@[j] is None,
            final(self).slots@ == old(self).slots@.push(s),
            forall|w: Seq<u64>| #[trigger] sat(*final(self), w) ==> slot_holds(s, w),
            slots_for(final(self).rows@, kind, bits) == slots_for(old(self).rows@, kind, bits) + 1,
            forall|k2: GateKind, b2: usize| !(k2 == kind && b2 == bits)
                ==> #[trigger] slots_for(final(self).rows@, k2, b2) == slots_for(old(self).rows@, k2, b2),
            forall|k2: GateKind, b2: usize| !(k2 == kind && b2 == bits)
                ==> #[trigger] rows_for(final(self).rows@, k2, b2) == rows_for(old(self).rows@, k2, b2),
    {
        let _ = self.find_gate_slot(kind, bits);
        let in0 = self.add_virtual_target();
        let in1 = self.add_virtual_target();
        let in2 = self.add_virtual_target();
        let out0 = self.add_virtual_target();
        let out1 = self.add_virtual_target();
        let s = SlotConstraint {
            kind,
            bits,
            in0: in0.index,
            in1: in1.index,
            in2: in2.index,
            out0: out0.index,
            out1: out1.index,
        };
        self.add_slot(s);
        s
    }

    /// Returns `x * y + z` as the limb pair `(low, high)`: in every
    /// satisfying witness with in-range operands,
    /// `x * y + z == low + high * 2^bits` with both limbs in range.
    /// Fully constant operands are folded without taking a gate slot;
    /// otherwise one slot of the binary-arithmetic pool is taken and its
    /// ports are equality-constrained to the operands.
    pub fn mul_add_binary(
        &mut self,
        x: BinaryTarget,
        y: BinaryTarget,
        z: BinaryTarget,
    ) -> (res: (BinaryTarget, BinaryTarget))
        requires
            wf(*old(self)),
            valid_binary(*old(self), x),
            valid_binary(*old(self), y),
            valid_binary(*old(self), z),
            y.bits == x.bits,
            z.bits == x.bits,
            const_in_range(*old(self), x),
            const_in_range(*old(self), y),
            const_in_range(*old(self), z),
        ensures
            wf(*final(self)),
            extends(*old(self), *final(self)),
            res.0.bits == x.bits,
            res.1.bits == x.bits,
            valid_binary(*final(self), res.0),
            valid_binary(*final(self), res.1),
            const_in_range(*final(self), res.0),
            const_in_range(*final(self), res.1),
            forall|w: Seq<u64>| #[trigger] sat(*final(self), w)
                ==> ((in_range(w, x) && in_range(w, y) && in_range(w, z))
                    ==> mul_add_rel(x.bits, value_of(w, x), value_of(w, y), value_of(w, z),
                        value_of(w, res.0), value_of(w, res.1))),
            all_const(*old(self), x, y, z) ==> {
                let cx = binary_const(*old(self), x)->0;
                let cy = binary_const(*old(self), y)->0;
                let cz = binary_const(*old(self), z)->0;
                &&& binary_const(*final(self), res.0) == Some(fold_low_u64(x.bits, cx, cy, cz))
                &&& binary_const(*final(self), res.1) == Some(fold_high_u64(x.bits, cx, cy, cz))
                &&& final(self).rows@ == old(self).rows@
                &&& final(self).slots@ == old(self).slots@
                &&& final(self).eqs@ == old(self).eqs@
                &&& final(self).zeros@ == old(self).zeros@
                &&& final(self).signals@ == old(self).signals@
                    .push(Some(fold_low_u64(x.bits, cx, cy, cz)))
                    .push(Some(fold_high_u64(x.bits, cx, cy, cz)))
            },
            !all_const(*old(self), x, y, z) ==> {
                &&& slots_for(final(self).rows@, GateKind::Arithmetic, x.bits)
                    == slots_for(old(self).rows@, GateKind::Arithmetic, x.bits) + 1
                &&& forall|k2: GateKind, b2: usize| !(k2 == GateKind::Arithmetic && b2 == x.bits)
                    ==> #[trigger] slots_for(final(self).rows@, k2, b2) == slots_for(old(self).rows@, k2, b2)
                &&& forall|k2: GateKind, b2: usize| !(k2 == GateKind::Arithmetic && b2 == x.bits)
                    ==> #[trigger] rows_for(final(self).rows@, k2, b2) == rows_for(old(self).rows@, k2, b2)
                &&& wires_one_slot(*old(self), *final(self), GateKind::Arithmetic, x.bits, x, y, z, res.0, res.1)
            },
    {
        let bits = x.bits;
        if let Some(result) = self.arithmetic_binary_special_cases(x, y, z) {
            proof {
                let cx = binary_const(*old(self), x)->0;
                let cy = binary_const(*old(self), y)->0;
                let cz = binary_const(*old(self), z)->0;
                lemma_limb_bound_range(bits);
                lemma_fold_exact(bits, cx, cy, cz);
                assert forall|w: Seq<u64>| #[trigger] sat(*self, w)
                    implies ((in_range(w, x) && in_range(w, y) && in_range(w, z))
                        ==> mul_add_rel(bits, value_of(w, x), value_of(w, y), value_of(w, z),
                            value_of(w, result.0), value_of(w, result.1))) by {
                    assert(self.signals@[x.target.index as int] == Some(cx));
                    assert(self.signals@[y.target.index as int] == Some(cy));
                    assert(self.signals@[z.target.index as int] == Some(cz));
                    assert(self.signals@[result.0.target.index as int] == Some(fold_low_u64(bits, cx, cy, cz)));
                    assert(self.signals@[result.1.target.index as int] == Some(fold_high_u64(bits, cx, cy, cz)));
                }
            }
            return result;
        }

        let s = self.wire_slot(GateKind::Arithmetic, bits);
        let ghost s2 = *self;
        self.connect(Target { index: s.in0 }, x.target);
        let ghost s3 = *self;
        self.connect(Target { index: s.in1 }, y.target);
        let ghost s4 = *self;
        self.connect(Target { index: s.in2 }, z.target);

        let low = BinaryTarget { target: Target { index: s.out0 }, bits };
        let high = BinaryTarget { target: Target { index: s.out1 }, bits };
        proof {
            assert forall|w: Seq<u64>| #[trigger] sat(*self, w)
                implies ((in_range(w, x) && in_range(w, y) && in_range(w, z))
                    ==> mul_add_rel(bits, value_of(w, x), value_of(w, y), value_of(w, z),
                        value_of(w, low), value_of(w, high))) by {
                if in_range(w, x) && in_range(w, y) && in_range(w, z) {
                    assert(sat(s4, w));
                    assert(sat(s3, w));
                    assert(sat(s2, w));
                    assert(slot_holds(s, w));
                    assert(w[s.in0 as int] == w[x.target.index as int]);
                    assert(w[s.in1 as int] == w[y.target.index as int]);
                    assert(w[s.in2 as int] == w[z.target.index as int]);
                }
            }
        }
        (low, high)
    }

    /// Returns `a + b` as `(sum_low, carry)`: in every satisfying witness
    /// with in-range operands, `a + b == sum_low + carry * 2^bits` and the
    /// carry is zero or one.  Purely compositional: `a * 1 + b`.
    pub fn add_binary(&mut self, a: BinaryTarget, b: BinaryTarget) -> (res: (BinaryTarget, BinaryTarget))
        requires
            wf(*old(self)),
            valid_binary(*old(self), a),
            valid_binary(*old(self), b),
            b.bits == a.bits,
            const_in_range(*old(self), a),
            const_in_range(*old(self), b),
        ensures
            wf(*final(self)),
            extends(*old(self), *final(self)),
            res.0.bits == a.bits,
            res.1.bits == a.bits,
            valid_binary(*final(self), res.0),
            valid_binary(*final(self), res.1),
            const_in_range(*final(self), res.0),
            const_in_range(*final(self), res.1),
            forall|w: Seq<u64>| #[trigger] sat(*final(self), w)
                ==> ((in_range(w, a) && in_range(w, b)) ==> {
                    &&& 0 <= value_of(w, res.0) < limb_bound(a.bits)
                    &&& 0 <= value_of(w, res.1) <= 1
                    &&& value_of(w, res.0) + value_of(w, res.1) * limb_bound(a.bits)
                        == value_of(w, a) + value_of(w, b)
                }),
            (binary_const(*old(self), a) is Some && binary_const(*old(self), b) is Some) ==> {
                let ca = binary_const(*old(self), a)->0;
                let cb = binary_const(*old(self), b)->0;
                &&& binary_const(*final(self), res.0) == Some(fold_low_u64(a.bits, ca, 1, cb))
                &&& binary_const(*final(self), res.1) == Some(fold_high_u64(a.bits, ca, 1, cb))
                &&& final(self).rows@ == old(self).rows@
                &&& final(self).slots@ == old(self).slots@
                &&& final(self).eqs@ == old(self).eqs@
                &&& final(self).zeros@ == old(self).zeros@
                &&& final(self).signals@ == old(self).signals@.push(Some(1))
                    .push(Some(fold_low_u64(a.bits, ca, 1, cb)))
                    .push(Some(fold_high_u64(a.bits, ca, 1, cb)))
            },
    {
        let one = self.one_binary(a.bits);
        let ghost s1 = *self;
        proof {
            lemma_limb_bound_range(a.bits);
        }
        let res = self.mul_add_binary(a, one, b);
        proof {
            if binary_const(*old(self), a) is Some && binary_const(*old(self), b) is Some {
                assert(binary_const(s1, a) == binary_const(*old(self), a));
                assert(binary_const(s1, b) == binary_const(*old(self), b));
                assert(binary_const(s1, one) == Some(1u64));
            }
        }
        proof {
            lemma_limb_bound_range(a.bits);
            assert forall|w: Seq<u64>| #[trigger] sat(*self, w)
                implies ((in_range(w, a) && in_range(w, b)) ==> {
                    &&& 0 <= value_of(w, res.0) < limb_bound(a.bits)
                    &&& 0 <= value_of(w, res.1) <= 1
                    &&& value_of(w, res.0) + value_of(w, res.1) * limb_bound(a.bits)
                        == value_of(w, a) + value_of(w, b)
                }) by {
                if in_range(w, a) && in_range(w, b) {
                    assert(self.signals@[one.target.index as int] == Some(1u64));
                    assert(value_of(w, one) == 1);
                    assert(in_range(w, one));
                    assert(mul_add_rel(a.bits, value_of(w, a), 1, value_of(w, b),
                        value_of(w, res.0), value_of(w, res.1)));
                    let bd = limb_bound(a.bits);
                    let carry = value_of(w, res.1);
                    assert(carry * bd <= value_of(w, a) + value_of(w, b));
                    assert(carry <= 1) by (nonlinear_arith)
                        requires
                            carry * bd <= 2 * bd - 2,
                            bd >= 2,
                            carry >= 0;
                }
            }
        }
        res
    }

    /// Folds an ordered sequence of `bits`-wide operands into
    /// `(total_low, total_carry)`: in every satisfying witness with
    /// in-range operands, the exact sum `S` of all operand values gives
    /// `total_low == S % 2^bits` and `total_carry == S / 2^bits`, both in
    /// range — the result is pinned by the operand values alone,
    /// independent of the internal reduction order.  The empty sequence
    /// yields `(0, 0)`; a single operand is passed through with a zero
    /// carry; longer sequences thread repeated two-operand additions and
    /// merge the running carry after each step.  The operand count may
    /// not exceed `2^bits`, so that the running carry stays in range and
    /// the discarded overflow of the carry merge is provably zero.
    pub fn add_many_binary(&mut self, bits: usize, to_add: &[BinaryTarget]) -> (res: (BinaryTarget, BinaryTarget))
        requires
            wf(*old(self)),
            valid_bits(bits),
            forall|j: int| 0 <= j < to_add@.len()
                ==> valid_binary(*old(self), #[trigger] to_add@[j]) && to_add@[j].bits == bits
                    && const_in_range(*old(self), to_add@[j]),
            to_add@.len() <= limb_bound(bits),
        ensures
            wf(*final(self)),
            extends(*old(self), *final(self)),
            res.0.bits == bits,
            res.1.bits == bits,
            valid_binary(*final(self), res.0),
            valid_binary(*final(self), res.1),
            forall|w: Seq<u64>| #[trigger] sat(*final(self), w)
                ==> (all_in_range(w, to_add@) ==> {
                    &&& value_of(w, res.0) == sum_values(w, to_add@) % limb_bound(bits)
                    &&& value_of(w, res.1) == sum_values(w, to_add@) / limb_bound(bits)
                    &&& in_range(w, res.0)
                    &&& in_range(w, res.1)
                }),
            to_add@.len() == 0 ==> binary_const(*final(self), res.0) == Some(0u64)
                && binary_const(*final(self), res.1) == Some(0u64),
            to_add@.len() == 1 ==> res.0 == to_add@[0]
                && binary_const(*final(self), res.1) == Some(0u64),
            to_add@.len() <= 1 ==> final(self).rows@ == old(self).rows@
                && final(self).slots@ == old(self).slots@
                && final(self).eqs@ == old(self).eqs@
                && final(self).zeros@ == old(self).zeros@,
    {
        proof {
            lemma_limb_bound_range(bits);
        }
        let n = to_add.len();
        if n == 0 {
            let z0 = self.zero_binary(bits);
            let z1 = self.zero_binary(bits);
            proof {
                lemma_small_mod(0nat, limb_bound(bits) as nat);
                lemma_basic_div(0, limb_bound(bits));
                assert forall|w: Seq<u64>| #[trigger] sat(*self, w)
                    implies (all_in_range(w, to_add@) ==> {
                        &&& value_of(w, z0) == sum_values(w, to_add@) % limb_bound(bits)
                        &&& value_of(w, z1) == sum_values(w, to_add@) / limb_bound(bits)
                        &&& in_range(w, z0)
                        &&& in_range(w, z1)
                    }) by {
                    assert(self.signals@[z0.target.index as int] == Some(0u64));
                    assert(self.signals@[z1.target.index as int] == Some(0u64));
                    assert(sum_values(w, to_add@) == 0);
                }
            }
            return (z0, z1);
        }
        if n == 1 {
            let first = to_add[0];
            let z = self.zero_binary(bits);
            proof {
                assert forall|w: Seq<u64>| #[trigger] sat(*self, w)
                    implies (all_in_range(w, to_add@) ==> {
                        &&& value_of(w, first) == sum_values(w, to_add@) % limb_bound(bits)
                        &&& value_of(w, z) == sum_values(w, to_add@) / limb_bound(bits)
                        &&& in_range(w, first)
                        &&& in_range(w, z)
                    }) by {
                    if all_in_range(w, to_add@) {
                        assert(in_range(w, to_add@[0]));
                        assert(sum_values(w, to_add@.drop_last()) == 0);
                        let s = sum_values(w, to_add@);
                        assert(s == value_of(w, first));
                        lemma_small_mod(s as nat, limb_bound(bits) as nat);
                        lemma_basic_div(s, limb_bound(bits));
                        assert(self.signals@[z.target.index as int] == Some(0u64));
                    }
                }
            }
            return (first, z);
        }

        let first_pair = self.add_binary(to_add[0], to_add[1]);
        let mut low = first_pair.0;
        let mut carry = first_pair.1;
        proof {
            assert forall|w: Seq<u64>| #[trigger] sat(*self, w)
                implies (all_in_range(w, to_add@) ==> {
                    &&& 0 <= value_of(w, low) < limb_bound(bits)
                    &&& 0 <= value_of(w, carry) <= 1
                    &&& value_of(w, low) + value_of(w, carry) * limb_bound(bits)
                        == sum_values(w, to_add@.take(2))
                }) by {
                if all_in_range(w, to_add@) {
                    assert(in_range(w, to_add@[0]));
                    assert(in_range(w, to_add@[1]));
                    assert(to_add@.take(0).len() == 0);
                    lemma_sum_take(w, to_add@, 0);
                    lemma_sum_take(w, to_add@, 1);
                }
            }
        }
        let mut i: usize = 2;
        while i < n
            invariant
                2 <= i <= n,
                n == to_add@.len(),
                n <= limb_bound(bits),
                valid_bits(bits),
                wf(*self),
                extends(*old(self), *self),
                forall|j: int| 0 <= j < n
                    ==> valid_binary(*self, #[trigger] to_add@[j]) && to_add@[j].bits == bits
                        && const_in_range(*self, to_add@[j]),
                low.bits == bits,
                carry.bits == bits,
                valid_binary(*self, low),
                valid_binary(*self, carry),
                const_in_range(*self, low),
                const_in_range(*self, carry),
                forall|w: Seq<u64>| #[trigger] sat(*self, w)
                    ==> (all_in_range(w, to_add@) ==> {
                        &&& 0 <= value_of(w, low) < limb_bound(bits)
                        &&& 0 <= value_of(w, carry) <= i - 1
                        &&& value_of(w, low) + value_of(w, carry) * limb_bound(bits)
                            == sum_values(w, to_add@.take(i as int))
                    }),
            decreases n - i,
        {
            let ghost pre = *self;
            let ghost low0 = low;
            let ghost carry0 = carry;
            let ghost i0 = i as int;
            let t = to_add[i];
            let r1 = self.add_binary(t, low);
            let ghost mid = *self;
            proof {
                assert(binary_const(*self, carry0) == binary_const(pre, carry0));
            }
            let r2 = self.add_binary(carry, r1.1);
            low = r1.0;
            carry = r2.0;
            i = i + 1;
            proof {
                lemma_limb_bound_range(bits);
                let bd = limb_bound(bits);
                assert forall|j: int| 0 <= j < n
                    implies valid_binary(*self, #[trigger] to_add@[j]) && to_add@[j].bits == bits
                        && const_in_range(*self, to_add@[j]) by {
                    assert(self.signals@[to_add@[j].target.index as int]
                        == pre.signals@[to_add@[j].target.index as int]);
                }
                assert(binary_const(*self, low) == binary_const(mid, low));
                assert forall|w: Seq<u64>| #[trigger] sat(*self, w)
                    implies (all_in_range(w, to_add@) ==> {
                        &&& 0 <= value_of(w, low) < bd
                        &&& 0 <= value_of(w, carry) <= i - 1
                        &&& value_of(w, low) + value_of(w, carry) * bd
                            == sum_values(w, to_add@.take(i as int))
                    }) by {
                    if all_in_range(w, to_add@) {
                        assert(sat(mid, w));
                        assert(sat(pre, w));
                        assert(in_range(w, to_add@[i0]));
                        assert(0 <= value_of(w, carry0) <= i0 - 1);
                        assert(value_of(w, low0) + value_of(w, carry0) * bd
                            == sum_values(w, to_add@.take(i0)));
                        assert(in_range(w, low0));
                        assert(value_of(w, r1.0) + value_of(w, r1.1) * bd
                            == value_of(w, t) + value_of(w, low0));
                        assert(0 <= value_of(w, r1.1) <= 1);
                        assert(in_range(w, carry0));
                        assert(in_range(w, r1.1));
                        assert(value_of(w, r2.0) + value_of(w, r2.1) * bd
                            == value_of(w, carry0) + value_of(w, r1.1));
                        assert(0 <= value_of(w, r2.1) <= 1);
                        let d = value_of(w, r2.1);
                        if d == 1 {
                            assert(value_of(w, r2.0) + 1 * bd
                                == value_of(w, carry0) + value_of(w, r1.1));
                            assert(false);
                        }
                        assert(value_of(w, r2.0) == value_of(w, carry0) + value_of(w, r1.1));
                        lemma_sum_take(w, to_add@, i0);
                        assert((value_of(w, carry0) + value_of(w, r1.1)) * bd
                            == value_of(w, carry0) * bd + value_of(w, r1.1) * bd) by (nonlinear_arith);
                    }
                }
            }
        }
        proof {
            assert(to_add@.take(n as int) =~= to_add@);
            assert forall|w: Seq<u64>| #[trigger] sat(*self, w)
                implies (all_in_range(w, to_add@) ==> {
                    &&& value_of(w, low) == sum_values(w, to_add@) % limb_bound(bits)
                    &&& value_of(w, carry) == sum_values(w, to_add@) / limb_bound(bits)
                    &&& in_range(w, low)
                    &&& in_range(w, carry)
                }) by {
                if all_in_range(w, to_add@) {
                    let bd = limb_bound(bits);
                    let s = sum_values(w, to_add@);
                    assert(value_of(w, low) + value_of(w, carry) * bd == s);
                    lemma_fundamental_div_mod_converse(s, bd, value_of(w, carry), value_of(w, low));
                }
            }
        }
        (low, carry)
    }

    /// Returns `a * b` as `(prod_low, prod_high)`: in every satisfying
    /// witness with in-range operands,
    /// `a * b == prod_low + prod_high * 2^bits`.  Purely compositional:
    /// `a * b + 0`.
    pub fn mul_binary(&mut self, a: BinaryTarget, b: BinaryTarget) -> (res: (BinaryTarget, BinaryTarget))
        requires
            wf(*old(self)),
            valid_binary(*old(self), a),
            valid_binary(*old(self), b),
            b.bits == a.bits,
            const_in_range(*old(self), a),
            const_in_range(*old(self), b),
        ensures
            wf(*final(self)),
            extends(*old(self), *final(self)),
            res.0.bits == a.bits,
            res.1.bits == a.bits,
            valid_binary(*final(self), res.0),
            valid_binary(*final(self), res.1),
            const_in_range(*final(self), res.0),
            const_in_range(*final(self), res.1),
            forall|w: Seq<u64>| #[trigger] sat(*final(self), w)
                ==> ((in_range(w, a) && in_range(w, b)) ==> {
                    &&& 0 <= value_of(w, res.0) < limb_bound(a.bits)
                    &&& 0 <= value_of(w, res.1) < limb_bound(a.bits)
                    &&& value_of(w, res.0) + value_of(w, res.1) * limb_bound(a.bits)
                        == value_of(w, a) * value_of(w, b)
                }),
            (binary_const(*old(self), a) is Some && binary_const(*old(self), b) is Some) ==> {
                let ca = binary_const(*old(self), a)->0;
                let cb = binary_const(*old(self), b)->0;
                &&& binary_const(*final(self), res.0) == Some(fold_low_u64(a.bits, ca, cb, 0))
                &&& binary_const(*final(self), res.1) == Some(fold_high_u64(a.bits, ca, cb, 0))
                &&& final(self).rows@ == old(self).rows@
                &&& final(self).slots@ == old(self).slots@
                &&& final(self).eqs@ == old(self).eqs@
                &&& final(self).zeros@ == old(self).zeros@
                &&& final(self).signals@ == old(self).signals@.push(Some(0))
                    .push(Some(fold_low_u64(a.bits, ca, cb, 0)))
                    .push(Some(fold_high_u64(a.bits, ca, cb, 0)))
            },
    {
        let zero = self.zero_binary(a.bits);
        let ghost s1 = *self;
        proof {
            lemma_limb_bound_range(a.bits);
        }
        let res = self.mul_add_binary(a, b, zero);
        proof {
            if binary_const(*old(self), a) is Some && binary_const(*old(self), b) is Some {
                assert(binary_const(s1, a) == binary_const(*old(self), a));
                assert(binary_const(s1, b) == binary_const(*old(self), b));
                assert(binary_const(s1, zero) == Some(0u64));
            }
        }
        proof {
            assert forall|w: Seq<u64>| #[trigger] sat(*self, w)
                implies ((in_range(w, a) && in_range(w, b)) ==> {
                    &&& 0 <= value_of(w, res.0) < limb_bound(a.bits)
                    &&& 0 <= value_of(w, res.1) < limb_bound(a.bits)
                    &&& value_of(w, res.0) + value_of(w, res.1) * limb_bound(a.bits)
                        == value_of(w, a) * value_of(w, b)
                }) by {
                if in_range(w, a) && in_range(w, b) {
                    lemma_pow2_pos(a.bits as nat);
                    assert(self.signals@[zero.target.index as int] == Some(0u64));
                    assert(value_of(w, zero) == 0);
                    assert(in_range(w, zero));
                    assert(mul_add_rel(a.bits, value_of(w, a), value_of(w, b), 0,
                        value_of(w, res.0), value_of(w, res.1)));
                }
            }
        }
        res
    }

    /// Returns `x - y - borrow` as the pair `(result, borrow_out)`: in
    /// every satisfying witness with in-range `x` and `y` and a flag
    /// borrow, `result == x - y - borrow + borrow_out * 2^bits` with
    /// `result` in range, so `borrow_out == 1` iff `y + borrow > x`.
    /// Unlike multiply-add, subtraction has no constant-folding fast
    /// path; every call takes a slot from the binary-subtraction pool.
    pub fn sub_binary(
        &mut self,
        x: BinaryTarget,
        y: BinaryTarget,
        borrow: BinaryTarget,
    ) -> (res: (BinaryTarget, BinaryTarget))
        requires
            wf(*old(self)),
            valid_binary(*old(self), x),
            valid_binary(*old(self), y),
            valid_binary(*old(self), borrow),
            y.bits == x.bits,
            borrow.bits == x.bits,
        ensures
            wf(*final(self)),
            extends(*old(self), *final(self)),
            res.0.bits == x.bits,
            res.1.bits == x.bits,
            valid_binary(*final(self), res.0),
            valid_binary(*final(self), res.1),
            const_in_range(*final(self), res.0),
            const_in_range(*final(self), res.1),
            forall|w: Seq<u64>| #[trigger] sat(*final(self), w)
                ==> ((in_range(w, x) && in_range(w, y) && 0 <= value_of(w, borrow) <= 1)
                    ==> sub_rel(x.bits, value_of(w, x), value_of(w, y), value_of(w, borrow),
                        value_of(w, res.0), value_of(w, res.1))),
            slots_for(final(self).rows@, GateKind::Subtraction, x.bits)
                == slots_for(old(self).rows@, GateKind::Subtraction, x.bits) + 1,
            forall|k2: GateKind, b2: usize| !(k2 == GateKind::Subtraction && b2 == x.bits)
                ==> #[trigger] slots_for(final(self).rows@, k2, b2) == slots_for(old(self).rows@, k2, b2),
            forall|k2: GateKind, b2: usize| !(k2 == GateKind::Subtraction && b2 == x.bits)
                ==> #[trigger] rows_for(final(self).rows@, k2, b2) == rows_for(old(self).rows@, k2, b2),
            wires_one_slot(*old(self), *final(self), GateKind::Subtraction, x.bits, x, y, borrow, res.0, res.1),
    {
        let bits = x.bits;
        let s = self.wire_slot(GateKind::Subtraction, bits);
        let ghost s2 = *self;
        self.connect(Target { index: s.in0 }, x.target);
        let ghost s3 = *self;
        self.connect(Target { index: s.in1 }, y.target);
        let ghost s4 = *self;
        self.connect(Target { index: s.in2 }, borrow.target);

        let result = BinaryTarget { target: Target { index: s.out0 }, bits };
        let borrow_out = BinaryTarget { target: Target { index: s.out1 }, bits };
        proof {
            assert forall|w: Seq<u64>| #[trigger] sat(*self, w)
                implies ((in_range(w, x) && in_range(w, y) && 0 <= value_of(w, borrow) <= 1)
                    ==> sub_rel(bits, value_of(w, x), value_of(w, y), value_of(w, borrow),
                        value_of(w, result), value_of(w, borrow_out))) by {
                if in_range(w, x) && in_range(w, y) && 0 <= value_of(w, borrow) <= 1 {
                    assert(sat(s4, w));
                    assert(sat(s3, w));
                    assert(sat(s2, w));
                    assert(slot_holds(s, w));
                    assert(w[s.in0 as int] == w[x.target.index as int]);
                    assert(w[s.in1 as int] == w[y.target.index as int]);
                    assert(w[s.in2 as int] == w[borrow.target.index as int]);
                }
            }
        }
        (result, borrow_out)
    }

    /// Constrain a binary value to be zero in every satisfying witness.
    pub fn assert_zero_binary(&mut self, x: BinaryTarget)
        requires
            wf(*old(self)),
            valid_binary(*old(self), x),
        ensures
            wf(*final(self)),
            extends(*old(self), *final(self)),
            final(self).signals@ == old(self).signals@,
            final(self).eqs@ == old(self).eqs@,
            final(self).zeros@ == old(self).zeros@.push(x.target.index),
            final(self).slots@ == old(self).slots@,
            final(self).rows@ == old(self).rows@,
            forall|w: Seq<u64>| #[trigger] sat(*final(self), w) ==> value_of(w, x) == 0,
    {
        self.assert_zero(x.target)
    }
}

} // verus!
