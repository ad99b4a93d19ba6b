use halo2curves::bn256::Fr;
use halo2curves::ff::{Field, PrimeField};
use zkvm_lowering::allocator::Allocator;
use zkvm_lowering::field::Felt;
use zkvm_lowering::constants::{build_operands, classify};
use zkvm_lowering::lowering::lower;
use zkvm_lowering::output::generate;
use zkvm_lowering::render::{image_from_lines, signed_text, value_text};
use zkvm_lowering::resolver::{rep_index, resolve};
use zkvm_lowering::types::{check_layout, Cell, Gate, LowerError, Operand, Tables};

fn fr(v: u64) -> Felt {
    Felt::from_fr(&Fr::from(v))
}

/// Tables of `n` rows where every cell is its own class, no constants are
/// bound, and no selector is active.
fn blank(n: usize) -> Tables {
    let permutation = (0..5)
        .map(|c| (0..n).map(|r| Cell::new(c, r)).collect())
        .collect();
    Tables {
        advice: (0..3).map(|c| (0..n).map(|r| Some(fr((10 * c + r) as u64 + 1))).collect()).collect(),
        fixed: vec![None; n],
        instance: vec![None; n],
        permutation,
        selectors: vec![vec![false; n]; 12],
    }
}

#[test]
fn binary_op_gets_fresh_addresses_in_order() {
    let mut t = blank(1);
    t.advice[0][0] = Some(fr(3));
    t.advice[1][0] = Some(fr(4));
    t.advice[2][0] = Some(fr(7));
    t.selectors[0][0] = true;
    let out = lower(&t).unwrap();
    assert_eq!(out.program.len(), 1);
    assert_eq!(out.program[0].gate, Gate::Add);
    assert_eq!(out.program[0].operands, vec![0, 1, 2]);
    assert_eq!(out.program[0].text(), "add 0, 1, 2;");
    assert_eq!(out.memory, vec![fr(3), fr(4), fr(7)]);
    let o = generate(&t).unwrap();
    assert_eq!(o.program, "add 0, 1, 2;");
    assert!(o.memory.starts_with("main.mem\n3\n4\n7\n0\n0\n"));
    assert_eq!(o.memory.lines().count(), 1 + 65536);
}

#[test]
fn instance_constant_is_never_allocated() {
    let mut t = blank(1);
    t.instance[0] = Some(fr(7));
    t.permutation[0][0] = Cell::new(4, 0);
    t.selectors[0][0] = true;
    assert_eq!(lower(&t).err(), Some(LowerError::UnsupportedOperand));
    assert!(generate(&t).is_err());

    let reps = resolve(&t.permutation);
    let consts = classify(&t, &reps).ok().unwrap();
    let k = rep_index(&reps, Cell::new(4, 0)).unwrap();
    assert_eq!(consts.instance[k], Some(fr(7)));
    let ops = build_operands(&t, &reps, &consts);
    assert!(matches!(ops[0][0], Operand::Constant(v) if v == fr(7)));
    let mut al = Allocator::new(reps.len(), 16);
    assert_eq!(al.allocate_or_get(&t, &reps, ops[0][0]), Err(LowerError::UnsupportedOperand));
    assert!(al.memory.is_empty());
    assert!(al.slots.iter().all(|s| s.is_none()));
}

#[test]
fn two_active_selectors_are_corruption() {
    let mut t = blank(2);
    t.selectors[0][1] = true;
    t.selectors[6][1] = true;
    assert_eq!(lower(&t).err(), Some(LowerError::ConflictingSelectors { row: 1 }));
    assert_eq!(generate(&t).err(), Some(LowerError::ConflictingSelectors { row: 1 }));
}

#[test]
fn resolution_is_sorted_deduplicated_and_repeatable() {
    let mut t = blank(2);
    // advice (1, 1) is copied from advice (0, 0)
    t.permutation[1][1] = Cell::new(0, 0);
    let a = resolve(&t.permutation);
    let b = resolve(&t.permutation);
    assert_eq!(a, b);
    assert_eq!(a.len(), 9);
    assert_eq!(a[0], Cell::new(0, 0));
    assert_eq!(a[1], Cell::new(1, 0));
    assert_eq!(a[4], Cell::new(4, 0));
    assert_eq!(a[5], Cell::new(0, 1));
    assert_eq!(rep_index(&a, Cell::new(1, 1)), None);
    assert_eq!(rep_index(&a, Cell::new(2, 1)), Some(6));
}

#[test]
fn empty_table_resolves_to_nothing() {
    assert!(resolve(&vec![]).is_empty());
    let t = blank(0);
    let out = lower(&t).unwrap();
    assert!(out.program.is_empty());
    assert!(out.memory.is_empty());
}

#[test]
fn instance_and_fixed_bindings_are_disjoint() {
    let mut t = blank(2);
    t.instance[0] = Some(fr(5));
    t.fixed[1] = Some(fr(9));
    let reps = resolve(&t.permutation);
    let c = classify(&t, &reps).ok().unwrap();
    let ki = rep_index(&reps, Cell::new(4, 0)).unwrap();
    let kf = rep_index(&reps, Cell::new(3, 1)).unwrap();
    assert_eq!(c.instance[ki], Some(fr(5)));
    assert_eq!(c.fixed[kf], Some(fr(9)));
    for k in 0..reps.len() {
        assert!(!(c.instance[k].is_some() && c.fixed[k].is_some()));
    }
}

#[test]
fn cell_bound_by_instance_and_fixed_is_ambiguous() {
    let mut t = blank(1);
    t.instance[0] = Some(fr(5));
    t.fixed[0] = Some(fr(5));
    t.permutation[3][0] = Cell::new(3, 0);
    t.permutation[4][0] = Cell::new(3, 0);
    assert_eq!(lower(&t).err(), Some(LowerError::AmbiguousConstant));
}

#[test]
fn two_instance_rows_binding_one_cell_are_ambiguous() {
    let mut t = blank(2);
    t.instance[0] = Some(fr(1));
    t.instance[1] = Some(fr(2));
    t.permutation[4][1] = Cell::new(4, 0);
    assert_eq!(lower(&t).err(), Some(LowerError::AmbiguousConstant));
}

#[test]
fn address_is_stable_across_calls() {
    let t = blank(2);
    let reps = resolve(&t.permutation);
    let c = classify(&t, &reps).ok().unwrap();
    let ops = build_operands(&t, &reps, &c);
    let mut al = Allocator::new(reps.len(), 8);
    assert_eq!(al.allocate_or_get(&t, &reps, ops[2][1]), Ok(0));
    assert_eq!(al.allocate_or_get(&t, &reps, ops[0][0]), Ok(1));
    assert_eq!(al.allocate_or_get(&t, &reps, ops[2][1]), Ok(0));
    assert_eq!(al.memory, vec![fr(22), fr(1)]);
}

#[test]
fn allocation_beyond_capacity_fails() {
    let t = blank(1);
    let reps = resolve(&t.permutation);
    let c = classify(&t, &reps).ok().unwrap();
    let ops = build_operands(&t, &reps, &c);
    let mut al = Allocator::new(reps.len(), 1);
    assert_eq!(al.allocate_or_get(&t, &reps, ops[0][0]), Ok(0));
    assert_eq!(al.allocate_or_get(&t, &reps, ops[1][0]), Err(LowerError::CapacityOverflow));
    assert_eq!(al.memory.len(), 1);
}

#[test]
fn unassigned_advice_is_reported() {
    let mut t = blank(1);
    t.advice[1][0] = None;
    t.selectors[6][0] = true;
    assert_eq!(lower(&t).err(), Some(LowerError::UnassignedAdvice));
}

#[test]
fn fixed_column_cell_in_memory_slot_is_layout_mismatch() {
    let mut t = blank(1);
    t.permutation[0][0] = Cell::new(3, 0);
    t.selectors[10][0] = true;
    assert_eq!(lower(&t).err(), Some(LowerError::LayoutMismatch));
}

#[test]
fn one_instruction_per_row_with_an_active_gate() {
    let mut t = blank(4);
    t.selectors[6][0] = true;
    t.selectors[11][2] = true;
    t.selectors[10][3] = true;
    let out = lower(&t).unwrap();
    assert_eq!(out.program.len(), 3);
    assert_eq!(out.program[0].text(), "mult 0, 1, 2;");
    assert_eq!(out.program[1].text(), "relu 3, 4;");
    assert_eq!(out.program[2].text(), "div_128 5, 6;");
    assert_eq!(out.memory.len(), 7);
    for ins in &out.program {
        assert!(ins.operands.iter().all(|a| *a < out.memory.len()));
    }
    assert_eq!(out.memory[3], fr(3));
    assert_eq!(out.memory[4], fr(13));
    assert_eq!(out.owners[4], Cell::new(1, 2));
}

#[test]
fn dot_reads_the_accumulator_of_the_previous_row() {
    let mut t = blank(2);
    t.selectors[0][0] = true;
    t.selectors[2][1] = true;
    let out = lower(&t).unwrap();
    assert_eq!(out.program[1].text(), "dot 3, 4, 2, 5;");
    let o = generate(&t).unwrap();
    assert_eq!(o.program, "add 0, 1, 2;\ndot 3, 4, 2, 5;");
}

#[test]
fn dot_on_the_first_row_is_layout_mismatch() {
    let mut t = blank(1);
    t.selectors[2][0] = true;
    assert_eq!(lower(&t).err(), Some(LowerError::LayoutMismatch));
}

#[test]
fn gates_without_lowering_are_unimplemented() {
    for (sel, g) in [(1, Gate::Sub), (3, Gate::Cumprod), (4, Gate::Sum), (5, Gate::Neg),
        (7, Gate::IsZero), (8, Gate::Identity), (9, Gate::IsBool)] {
        let mut t = blank(1);
        t.selectors[sel][0] = true;
        assert_eq!(lower(&t).err(), Some(LowerError::Unimplemented(g)));
        assert_eq!(Gate::from_selector(sel), g);
    }
}

#[test]
fn wrong_column_count_is_layout_mismatch() {
    let mut t = blank(2);
    t.selectors.pop();
    assert_eq!(check_layout(&t), Err(LowerError::LayoutMismatch));
    assert_eq!(lower(&t).err(), Some(LowerError::LayoutMismatch));
    let mut t = blank(2);
    t.fixed.push(None);
    assert_eq!(lower(&t).err(), Some(LowerError::LayoutMismatch));
    assert_eq!(check_layout(&blank(2)), Ok(()));
}

#[test]
fn values_are_written_as_signed_decimals() {
    assert_eq!(value_text(fr(0)), "0");
    assert_eq!(value_text(fr(5)), "5");
    assert_eq!(value_text(Felt::from_fr(&(-Fr::from(5)))), "-5");
    assert_eq!(value_text(Felt::from_fr(&(-Fr::from(1)))), "-1");
    assert_eq!(value_text(fr(1234567890)), "1234567890");
    let max = (1u128 << 127) - 1;
    let big = Felt::from_fr(&Fr::from_u128(max));
    assert_eq!(big, Felt { lo: max, hi: 0 });
    assert_eq!(value_text(big), "170141183460469231731687303715884105727");
    let next = Felt::from_fr(&(Fr::from_u128(max) + Fr::from(1)));
    assert_eq!(value_text(next), "170141183460469231731687303715884105728");
    let below = Felt::from_fr(&(-Fr::from_u128(max) - Fr::from(1)));
    assert_eq!(value_text(below), "-170141183460469231731687303715884105728");
    let two128 = Felt { lo: 0, hi: 1 };
    assert_eq!(value_text(two128), "340282366920938463463374607431768211456");
    let half = Felt::from_fr(&Fr::from(2).invert().unwrap());
    assert_eq!(value_text(half), "-10944121435919637611123202872628637544274182200208017171849102093287904247808");
    let below_half = Felt::from_fr(&(Fr::from(2).invert().unwrap() - Fr::from(1)));
    assert_eq!(value_text(below_half), "10944121435919637611123202872628637544274182200208017171849102093287904247808");
    assert_eq!(value_text(Felt { lo: 0, hi: u128::MAX }), "115792089237316195423570985008687907852929702298719625575994209400481361428480");
    assert_eq!(signed_text(true, 0, 42), "-42");
    assert_eq!(signed_text(false, 0, 1000), "1000");
    assert_eq!(signed_text(false, 1, 10), "340282366920938463463374607431768211466");
}

#[test]
fn wide_values_are_written_in_full() {
    let mut t = blank(1);
    t.advice[0][0] = Some(Felt { lo: 0, hi: 1 });
    t.selectors[0][0] = true;
    let o = generate(&t).unwrap();
    assert_eq!(o.program, "add 0, 1, 2;");
    assert!(o.memory.starts_with("main.mem\n340282366920938463463374607431768211456\n11\n21\n0\n"));
}

#[test]
fn field_values_split_into_halves() {
    let x = Fr::from_u128(u128::MAX) + Fr::from(1);
    assert_eq!(Felt::from_fr(&x), Felt { lo: 0, hi: 1 });
    let m = Felt::from_fr(&(-Fr::from(1)));
    assert_eq!(m.hi, 0x30644e72e131a029b85045b68181585d);
    assert_eq!(m.lo, 0x2833e84879b9709143e1f593f0000000);
}

#[test]
fn negative_memory_values_in_the_snapshot() {
    let mut t = blank(1);
    t.advice[0][0] = Some(Felt::from_fr(&(-Fr::from(3))));
    t.selectors[11][0] = true;
    let o = generate(&t).unwrap();
    assert_eq!(o.program, "relu 0, 1;");
    assert!(o.memory.starts_with("main.mem\n-3\n11\n0\n"));
}

#[test]
fn first_failing_row_decides_the_error() {
    let mut t = blank(2);
    t.selectors[1][0] = true;
    t.selectors[0][1] = true;
    t.selectors[6][1] = true;
    assert_eq!(lower(&t).err(), Some(LowerError::Unimplemented(Gate::Sub)));
    let mut t = blank(2);
    t.instance[0] = Some(fr(7));
    t.permutation[1][0] = Cell::new(4, 0);
    t.selectors[0][0] = true;
    t.selectors[0][1] = true;
    t.selectors[6][1] = true;
    assert_eq!(lower(&t).err(), Some(LowerError::UnsupportedOperand));
}

#[test]
fn constant_cell_with_an_advice_value_gets_no_address() {
    let mut t = blank(1);
    t.fixed[0] = Some(fr(9));
    t.permutation[3][0] = Cell::new(0, 0);
    t.selectors[0][0] = true;
    assert_eq!(lower(&t).err(), Some(LowerError::UnsupportedOperand));
}

#[test]
fn image_is_padded_with_zero_lines() {
    let s = image_from_lines(&vec!["-3".to_string(), "12".to_string()]);
    assert!(s.starts_with("main.mem\n-3\n12\n0\n"));
    assert!(s.ends_with("\n0\n"));
    assert_eq!(s.lines().count(), 1 + 65536);
}

#[test]
fn mnemonics_match_the_gates() {
    assert_eq!(Gate::Div128.mnemonic(), "div_128");
    assert_eq!(Gate::IsZero.mnemonic(), "iszero");
    assert_eq!(Gate::Relu.mnemonic(), "relu");
}
