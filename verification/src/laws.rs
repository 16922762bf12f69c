//! Laws relating the gadget operations, stated over the same relations
//! that the operations' contracts use.

use vstd::prelude::*;
use vstd::arithmetic::div_mod::{lemma_basic_div, lemma_fundamental_div_mod_converse};
use crate::circuit::{
    CircuitBuilder, GateKind, wf, rows_for, slots_for, limb_bound, valid_bits,
    lemma_limb_bound_range,
};
use crate::allocator::lemma_counts_nonneg;
use crate::binary_arithmetic::{mul_add_rel, sub_rel};

verus! {

/// Two-operand addition produces a flag carry: whenever in-range `x` and
/// `y` satisfy the multiply-add identity with multiplicand one, the high
/// limb is zero or one and the identity reads `x + y == low + carry * 2^bits`.
pub proof fn lemma_add_carry_flag(bits: usize, x: int, y: int, low: int, carry: int)
    requires
        valid_bits(bits),
        0 <= x < limb_bound(bits),
        0 <= y < limb_bound(bits),
        mul_add_rel(bits, x, 1, y, low, carry),
    ensures
        low + carry * limb_bound(bits) == x + y,
        0 <= carry <= 1,
{
    let bd = limb_bound(bits);
    lemma_limb_bound_range(bits);
    if carry >= 2 {
        assert(carry * bd >= 2 * bd) by (nonlinear_arith)
            requires
                carry >= 2,
                bd >= 2;
        assert(false);
    }
}

/// Subtraction with no incoming borrow: when `x >= y` the result is the
/// plain difference with no outgoing borrow; when `x < y` the result
/// wraps by `2^bits` and the borrow is one.
pub proof fn lemma_sub_no_borrow_in(bits: usize, x: int, y: int, result: int, borrow_out: int)
    requires
        valid_bits(bits),
        0 <= x < limb_bound(bits),
        0 <= y < limb_bound(bits),
        sub_rel(bits, x, y, 0, result, borrow_out),
    ensures
        x >= y ==> result == x - y && borrow_out == 0,
        x < y ==> result == x - y + limb_bound(bits) && borrow_out == 1,
{
    let bd = limb_bound(bits);
    lemma_limb_bound_range(bits);
    if borrow_out == 1 {
        assert(result + y == x + 1 * bd);
    } else {
        assert(result + y == x + 0 * bd);
    }
}

/// Round trip: adding `y` and then subtracting it again, feeding the
/// carry back in as the borrow, recovers `x` with no outgoing borrow,
/// whenever the addition did not overflow.
pub proof fn lemma_add_sub_round_trip(
    bits: usize,
    x: int,
    y: int,
    low: int,
    carry: int,
    result: int,
    borrow_out: int,
)
    requires
        valid_bits(bits),
        0 <= x < limb_bound(bits),
        0 <= y < limb_bound(bits),
        x + y < limb_bound(bits),
        mul_add_rel(bits, x, 1, y, low, carry),
        sub_rel(bits, low, y, carry, result, borrow_out),
    ensures
        result == x,
        borrow_out == 0,
{
    let bd = limb_bound(bits);
    lemma_limb_bound_range(bits);
    if carry >= 1 {
        assert(carry * bd >= 1 * bd) by (nonlinear_arith)
            requires
                carry >= 1,
                bd >= 2;
        assert(false);
    }
    assert(low == x + y);
    if borrow_out == 1 {
        assert(result + y + 0 == low + 1 * bd);
        assert(false);
    }
    assert(result + y + 0 == low + 0 * bd);
}

/// Bump allocation never over-allocates: for every gate kind and width,
/// the number of allocated rows is exactly the number of taken slots
/// divided by `copies_per_row`, rounded up.
pub proof fn lemma_rows_allocated(c: CircuitBuilder, kind: GateKind, bits: usize)
    requires
        wf(c),
    ensures
        rows_for(c.rows@, kind, bits)
            == (slots_for(c.rows@, kind, bits) + c.copies_per_row - 1) / (c.copies_per_row as int),
{
    let cpr = c.copies_per_row as int;
    let r = rows_for(c.rows@, kind, bits);
    let s = slots_for(c.rows@, kind, bits);
    lemma_counts_nonneg(c.rows@, kind, bits);
    if r == 0 {
        assert(s == 0);
        lemma_basic_div(cpr - 1, cpr);
    } else {
        assert((r - 1) * cpr == r * cpr - cpr) by (nonlinear_arith);
        let rem = s + cpr - 1 - r * cpr;
        assert(0 <= rem < cpr);
        lemma_fundamental_div_mod_converse(s + cpr - 1, cpr, r, rem);
    }
}

} // verus!
