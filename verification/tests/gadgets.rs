use binary_arithmetic::circuit::{CircuitBuilder, GateKind, Target};

use rand::{thread_rng, Rng};

#[test]
pub fn test_add_many_binarys() {
    const BITS: usize = 30;

    let mut builder = CircuitBuilder::new(8);

    let mut rng = thread_rng();
    let mut to_add = Vec::new();
    let mut exact_sum: u64 = 0;
    for _ in 0..10 {
        let c = rng.gen::<u64>() % (1 << BITS);
        exact_sum += c;
        to_add.push(builder.constant_binary(BITS, c));
    }
    let (low, carry) = builder.add_many_binary(BITS, &to_add);

    // All operands are constants, so the whole reduction folds.
    assert_eq!(
        builder.target_as_constant(low.target),
        Some(exact_sum % (1 << BITS))
    );
    assert_eq!(
        builder.target_as_constant(carry.target),
        Some(exact_sum >> BITS)
    );

    // Every signal of the folded circuit is pinned, so the pinned values
    // themselves form a satisfying witness.
    let mut witness = Vec::new();
    for i in 0..builder.num_targets() {
        witness.push(builder.target_as_constant(Target { index: i }).unwrap());
    }
    assert!(builder.satisfies_witness(&witness));
}

#[test]
fn test() {}

#[test]
fn test_mul_add_constant_fold_exact() {
    // 7 * 9 + 5 == 68 == 4 + 4 * 16 at four bits.
    let mut builder = CircuitBuilder::new(4);
    let x = builder.constant_binary(4, 7);
    let y = builder.constant_binary(4, 9);
    let z = builder.constant_binary(4, 5);
    let (low, high) = builder.mul_add_binary(x, y, z);
    assert_eq!(builder.target_as_constant(low.target), Some(4));
    assert_eq!(builder.target_as_constant(high.target), Some(4));
    // Folding allocates no gate row.
    assert_eq!(builder.num_gate_rows(GateKind::Arithmetic, 4), 0);
    assert_eq!(builder.num_gate_rows(GateKind::Subtraction, 4), 0);
}

#[test]
fn test_add_constant_fold_carry() {
    // 200 + 100 == 300 == 44 + 1 * 256 at eight bits.
    let mut builder = CircuitBuilder::new(4);
    let a = builder.constant_binary(8, 200);
    let b = builder.constant_binary(8, 100);
    let (low, carry) = builder.add_binary(a, b);
    assert_eq!(builder.target_as_constant(low.target), Some(44));
    assert_eq!(builder.target_as_constant(carry.target), Some(1));
}

#[test]
fn test_mul_constant_fold() {
    // 20 * 30 == 600 == 88 + 2 * 256 at eight bits.
    let mut builder = CircuitBuilder::new(4);
    let a = builder.constant_binary(8, 20);
    let b = builder.constant_binary(8, 30);
    let (low, high) = builder.mul_binary(a, b);
    assert_eq!(builder.target_as_constant(low.target), Some(88));
    assert_eq!(builder.target_as_constant(high.target), Some(2));
}

#[test]
fn test_mul_add_witness_identity() {
    // Non-constant operands: the slot's ports are wired to the operands
    // and a witness must decompose x * y + z exactly.
    let mut builder = CircuitBuilder::new(4);
    let x = builder.add_virtual_binary_target(8);
    let y = builder.add_virtual_binary_target(8);
    let z = builder.add_virtual_binary_target(8);
    let (low, high) = builder.mul_add_binary(x, y, z);
    assert_eq!(builder.num_gate_rows(GateKind::Arithmetic, 8), 1);
    assert_eq!(builder.num_targets(), 8);
    assert_eq!(low.target.index, 6);
    assert_eq!(high.target.index, 7);

    // 3 * 5 + 7 == 22, no high limb.
    let good = vec![3, 5, 7, 3, 5, 7, 22, 0];
    assert!(builder.satisfies_witness(&good));
    // A wrong low limb violates the slot's identity.
    let bad = vec![3, 5, 7, 3, 5, 7, 23, 0];
    assert!(!builder.satisfies_witness(&bad));
    // A port disagreeing with its operand violates the wiring.
    let unwired = vec![3, 5, 7, 4, 5, 7, 22, 0];
    assert!(!builder.satisfies_witness(&unwired));
}

#[test]
fn test_add_witness_carry() {
    // add is mul_add with a constant one: 200 + 100 == 44 + 1 * 256.
    let mut builder = CircuitBuilder::new(4);
    let a = builder.add_virtual_binary_target(8);
    let b = builder.add_virtual_binary_target(8);
    let (low, carry) = builder.add_binary(a, b);
    assert_eq!(low.target.index, 6);
    assert_eq!(carry.target.index, 7);

    // Signals: a, b, the constant one, three input ports, two outputs.
    let good = vec![200, 100, 1, 200, 1, 100, 44, 1];
    assert!(builder.satisfies_witness(&good));
    let bad_low = vec![200, 100, 1, 200, 1, 100, 45, 1];
    assert!(!builder.satisfies_witness(&bad_low));
    let bad_carry = vec![200, 100, 1, 200, 1, 100, 44, 0];
    assert!(!builder.satisfies_witness(&bad_carry));
}

#[test]
fn test_sub_witness_borrow() {
    // 5 - 9 at eight bits: result wraps to 252 with an outgoing borrow.
    let mut builder = CircuitBuilder::new(4);
    let x = builder.add_virtual_binary_target(8);
    let y = builder.add_virtual_binary_target(8);
    let borrow = builder.zero_binary(8);
    let (result, borrow_out) = builder.sub_binary(x, y, borrow);
    assert_eq!(builder.num_gate_rows(GateKind::Subtraction, 8), 1);
    assert_eq!(builder.num_gate_rows(GateKind::Arithmetic, 8), 0);
    assert_eq!(result.target.index, 6);
    assert_eq!(borrow_out.target.index, 7);

    let wraps = vec![5, 9, 0, 5, 9, 0, 252, 1];
    assert!(builder.satisfies_witness(&wraps));
    let no_borrow = vec![5, 9, 0, 5, 9, 0, 252, 0];
    assert!(!builder.satisfies_witness(&no_borrow));

    // 9 - 5: plain difference, no borrow.
    let mut builder2 = CircuitBuilder::new(4);
    let _x2 = builder2.add_virtual_binary_target(8);
    let _y2 = builder2.add_virtual_binary_target(8);
    let borrow2 = builder2.zero_binary(8);
    let _ = builder2.sub_binary(_x2, _y2, borrow2);
    let plain = vec![9, 5, 0, 9, 5, 0, 4, 0];
    assert!(builder2.satisfies_witness(&plain));
    let wrong = vec![9, 5, 0, 9, 5, 0, 4, 1];
    assert!(!builder2.satisfies_witness(&wrong));
}

#[test]
fn test_add_sub_round_trip_witness() {
    // sub(add(x, y).0, y, add(x, y).1) recovers (x, 0) when x + y fits.
    let mut builder = CircuitBuilder::new(4);
    let x = builder.add_virtual_binary_target(8);
    let y = builder.add_virtual_binary_target(8);
    let (low, carry) = builder.add_binary(x, y);
    let (result, borrow_out) = builder.sub_binary(low, y, carry);
    assert_eq!(result.target.index, 11);
    assert_eq!(borrow_out.target.index, 12);

    // x == 30, y == 12: low == 42, carry == 0, result == 30, borrow == 0.
    let good = vec![30, 12, 1, 30, 1, 12, 42, 0, 42, 12, 0, 30, 0];
    assert!(builder.satisfies_witness(&good));
    let bad_result = vec![30, 12, 1, 30, 1, 12, 42, 0, 42, 12, 0, 29, 0];
    assert!(!builder.satisfies_witness(&bad_result));
}

#[test]
fn test_add_many_empty_and_single() {
    let mut builder = CircuitBuilder::new(4);
    let (low, carry) = builder.add_many_binary(8, &[]);
    assert_eq!(builder.target_as_constant(low.target), Some(0));
    assert_eq!(builder.target_as_constant(carry.target), Some(0));

    let v = builder.constant_binary(8, 77);
    let (low1, carry1) = builder.add_many_binary(8, &[v]);
    assert_eq!(low1, v);
    assert_eq!(builder.target_as_constant(low1.target), Some(77));
    assert_eq!(builder.target_as_constant(carry1.target), Some(0));
}

#[test]
fn test_add_many_constant_fold() {
    // 200 + 100 + 250 == 550 == 38 + 2 * 256 at eight bits.
    let mut builder = CircuitBuilder::new(4);
    let a = builder.constant_binary(8, 200);
    let b = builder.constant_binary(8, 100);
    let c = builder.constant_binary(8, 250);
    let (low, carry) = builder.add_many_binary(8, &[a, b, c]);
    assert_eq!(builder.target_as_constant(low.target), Some(38));
    assert_eq!(builder.target_as_constant(carry.target), Some(2));
    // Everything folded: no gate row was taken.
    assert_eq!(builder.num_gate_rows(GateKind::Arithmetic, 8), 0);
}

#[test]
fn test_allocator_row_packing() {
    // Rows host four copies: k slot requests take ceil(k / 4) rows.
    let mut builder = CircuitBuilder::new(4);
    for k in 1..=9usize {
        let x = builder.add_virtual_binary_target(16);
        let y = builder.add_virtual_binary_target(16);
        let z = builder.add_virtual_binary_target(16);
        let _ = builder.mul_add_binary(x, y, z);
        assert_eq!(builder.num_gate_rows(GateKind::Arithmetic, 16), (k + 3) / 4);
    }
    // The subtraction pool and other widths are untouched.
    assert_eq!(builder.num_gate_rows(GateKind::Subtraction, 16), 0);
    assert_eq!(builder.num_gate_rows(GateKind::Arithmetic, 8), 0);

    // A subtraction draws from its own pool.
    let x = builder.add_virtual_binary_target(16);
    let y = builder.add_virtual_binary_target(16);
    let borrow = builder.zero_binary(16);
    let _ = builder.sub_binary(x, y, borrow);
    assert_eq!(builder.num_gate_rows(GateKind::Subtraction, 16), 1);
    assert_eq!(builder.num_gate_rows(GateKind::Arithmetic, 16), 3);
}

#[test]
fn test_connect_and_assert_zero() {
    let mut builder = CircuitBuilder::new(4);
    let x = builder.add_virtual_binary_target(8);
    let y = builder.add_virtual_binary_target(8);
    builder.connect_binary(x, y);
    builder.assert_zero_binary(x);
    assert!(builder.satisfies_witness(&vec![0, 0]));
    assert!(!builder.satisfies_witness(&vec![0, 1]));
    assert!(!builder.satisfies_witness(&vec![2, 2]));
    // A witness must cover every signal.
    assert!(!builder.satisfies_witness(&vec![0]));
}

#[test]
fn test_widest_limb_fold() {
    // The widest supported limb is 31 bits; the fold is still exact.
    const B: u64 = 1 << 31;
    let mut builder = CircuitBuilder::new(4);
    let x = builder.constant_binary(31, B - 1);
    let y = builder.constant_binary(31, B - 1);
    let z = builder.constant_binary(31, B - 1);
    let (low, high) = builder.mul_add_binary(x, y, z);
    let exact = (B - 1) * (B - 1) + (B - 1);
    assert_eq!(builder.target_as_constant(low.target), Some(exact % B));
    assert_eq!(builder.target_as_constant(high.target), Some(exact / B));
}

#[test]
fn test_sub_equal_operands() {
    // x - x - 0 == 0 with no borrow.
    let mut builder = CircuitBuilder::new(4);
    let x = builder.add_virtual_binary_target(8);
    let y = builder.add_virtual_binary_target(8);
    let borrow = builder.zero_binary(8);
    let _ = builder.sub_binary(x, y, borrow);
    let zero_diff = vec![7, 7, 0, 7, 7, 0, 0, 0];
    assert!(builder.satisfies_witness(&zero_diff));
    let phantom_borrow = vec![7, 7, 0, 7, 7, 0, 0, 1];
    assert!(!builder.satisfies_witness(&phantom_borrow));
}

#[test]
fn test_virtual_targets_batch() {
    let mut builder = CircuitBuilder::new(4);
    let ts = builder.add_virtual_binary_targets(8, 5);
    assert_eq!(ts.len(), 5);
    for t in &ts {
        assert_eq!(t.bits, 8);
        assert_eq!(builder.target_as_constant(t.target), None);
    }
    assert_eq!(builder.num_targets(), 5);
}
