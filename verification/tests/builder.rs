//! Tests of the allocator, the opcode stream, the reducer and the
//! algebraic gadgets.

use acir_builder::acir::GeneratedAcir;
use acir_builder::expr::{Expression, Witness};
use acir_builder::field::{FieldElement, fe_neg};
use acir_builder::opcode::{
    BlackBoxFuncCall, BrilligInputs, BrilligOutputs, CallStack, Directive, GeneratedBrillig,
    Opcode, OpcodeLocation, RuntimeError, SourceSpan, directive_invert_byte_code,
};


fn fe(v: u128) -> FieldElement {
    let mut be_bytes = vec![0u8; 16];
    be_bytes.extend_from_slice(&v.to_be_bytes());
    FieldElement { be_bytes }
}

fn const_expr(v: u128) -> Expression {
    Expression {
        mul_terms: vec![],
        linear_combinations: vec![],
        q_c: fe(v),
    }
}

fn witness_plus_const(w: Witness, v: u128) -> Expression {
    Expression {
        mul_terms: vec![],
        linear_combinations: vec![(FieldElement::one(), w)],
        q_c: fe(v),
    }
}

#[test]
fn witness_indices_increase_from_zero() {
    let mut acir = GeneratedAcir::new();
    assert_eq!(acir.current_witness_index(), Witness(0));
    let w0 = acir.next_witness_index();
    let w1 = acir.next_witness_index();
    let w2 = acir.next_witness_index();
    assert_eq!(w0, Witness(0));
    assert_eq!(w1, Witness(1));
    assert_eq!(w2, Witness(2));
    assert!(w0.0 < w1.0 && w1.0 < w2.0);
    assert_eq!(acir.current_witness_index(), Witness(2));
}

#[test]
fn current_witness_index_before_and_after_first_allocation() {
    let mut acir = GeneratedAcir::new();
    // Before any allocation the reported index is zero...
    assert_eq!(acir.current_witness_index(), Witness(0));
    // ...and the first allocated witness is also zero.
    assert_eq!(acir.next_witness_index(), Witness(0));
    assert_eq!(acir.current_witness_index(), Witness(0));
}

#[test]
fn get_or_create_witness_reuses_a_plain_witness() {
    let mut acir = GeneratedAcir::new();
    let w0 = acir.next_witness_index();
    let expr = Expression::from_witness(w0);
    let got = acir.get_or_create_witness(&expr);
    assert_eq!(got, w0);
    assert_eq!(acir.current_witness_index(), w0);
    assert!(acir.take_opcodes().is_empty());
}

#[test]
fn get_or_create_witness_reduces_anything_else() {
    let mut acir = GeneratedAcir::new();
    let w0 = acir.next_witness_index();
    // 1*w0 + 3 is not a plain witness, so a fresh one is constrained to it.
    let expr = witness_plus_const(w0, 3);
    let got = acir.get_or_create_witness(&expr);
    assert_eq!(got, Witness(1));
    let ops = acir.take_opcodes();
    assert_eq!(ops.len(), 1);
    match &ops[0] {
        Opcode::AssertZero(c) => {
            assert_eq!(c.mul_terms.len(), 0);
            assert_eq!(
                c.linear_combinations,
                vec![
                    (FieldElement::one(), w0),
                    (fe_neg(&FieldElement::one()), Witness(1)),
                ]
            );
            assert_eq!(c.q_c, fe(3));
        }
        _ => panic!("expected an AssertZero opcode"),
    }
}

#[test]
fn push_return_witness_keeps_duplicates() {
    let mut acir = GeneratedAcir::new();
    let w = acir.next_witness_index();
    acir.push_return_witness(w);
    acir.push_return_witness(w);
    assert_eq!(acir.return_witnesses, vec![w, w]);
}

#[test]
fn equality_gadget_emits_the_two_constraint_protocol() {
    let mut acir = GeneratedAcir::new();
    let w0 = acir.next_witness_index();
    let w1 = acir.next_witness_index();
    let e_a = witness_plus_const(w0, 3);
    let e_b = Expression::from_witness(w1);

    let y = acir.is_equal(&e_a, &e_b);

    // The difference is reduced (negated) to w2, the inverse hint is w3 and
    // the boolean result is w4.
    assert_eq!(y, Witness(4));
    assert_eq!(acir.current_witness_index(), Witness(4));

    let ops = acir.take_opcodes();
    assert_eq!(ops.len(), 4);

    let neg_one = fe_neg(&FieldElement::one());
    match &ops[0] {
        Opcode::AssertZero(c) => {
            // -(w0 + 3 - w1) - w2 == 0
            assert_eq!(c.mul_terms.len(), 0);
            assert_eq!(
                c.linear_combinations,
                vec![
                    (neg_one.clone(), w0),
                    (FieldElement::one(), w1),
                    (neg_one.clone(), Witness(2)),
                ]
            );
            assert_eq!(c.q_c, fe_neg(&fe(3)));
        }
        _ => panic!("expected the reduction assertion first"),
    }
    match &ops[1] {
        Opcode::Brillig(b) => {
            assert_eq!(b.inputs.len(), 1);
            assert_eq!(
                b.inputs[0],
                BrilligInputs::Single(Expression::from_witness(Witness(2)))
            );
            assert_eq!(b.outputs, vec![BrilligOutputs::Simple(Witness(3))]);
            assert_eq!(b.predicate, Some(Expression::one()));
            assert_eq!(b.bytecode.len(), 5);
        }
        _ => panic!("expected the embedded inversion program"),
    }
    match &ops[2] {
        Opcode::AssertZero(c) => {
            // w2*w3 + w4 - 1 == 0
            assert_eq!(
                c.mul_terms,
                vec![(FieldElement::one(), Witness(2), Witness(3))]
            );
            assert_eq!(c.linear_combinations, vec![(FieldElement::one(), Witness(4))]);
            assert_eq!(c.q_c, neg_one);
        }
        _ => panic!("expected the boolean constraint"),
    }
    match &ops[3] {
        Opcode::AssertZero(c) => {
            // w2*w4 == 0
            assert_eq!(
                c.mul_terms,
                vec![(FieldElement::one(), Witness(2), Witness(4))]
            );
            assert_eq!(c.linear_combinations, vec![]);
            assert_eq!(c.q_c, FieldElement::zero());
        }
        _ => panic!("expected the pinning constraint"),
    }
}

#[test]
fn is_zero_reuses_an_existing_witness_handle() {
    let mut acir = GeneratedAcir::new();
    let w0 = acir.next_witness_index();
    let y = acir.is_zero(&Expression::from_witness(w0));
    // Only the hint z and the result y are allocated.
    assert_eq!(y, Witness(2));
    let ops = acir.take_opcodes();
    assert_eq!(ops.len(), 3);
    assert!(matches!(ops[0], Opcode::Brillig(_)));
    assert!(matches!(ops[1], Opcode::AssertZero(_)));
    assert!(matches!(ops[2], Opcode::AssertZero(_)));
}

#[test]
fn binary_decomposition_of_a_witness() {
    let mut acir = GeneratedAcir::new();
    let w0 = acir.next_witness_index();
    let limbs = acir
        .radix_le_decompose(&Expression::from_witness(w0), 2, 8, 1)
        .unwrap();
    assert_eq!(
        limbs,
        (1u32..=8).map(Witness).collect::<Vec<_>>()
    );

    let ops = acir.take_opcodes();
    assert_eq!(ops.len(), 10);
    match &ops[0] {
        Opcode::Directive(Directive::ToLeRadix { a, b, radix }) => {
            assert_eq!(*a, Expression::from_witness(w0));
            assert_eq!(*b, limbs);
            assert_eq!(*radix, 2);
        }
        _ => panic!("expected the decomposition directive first"),
    }
    for (i, limb) in limbs.iter().enumerate() {
        match &ops[1 + i] {
            Opcode::BlackBoxFuncCall(BlackBoxFuncCall::RANGE { input }) => {
                assert_eq!(input.witness, *limb);
                assert_eq!(input.num_bits, 1);
            }
            _ => panic!("expected a range check for each limb"),
        }
    }
    match &ops[9] {
        Opcode::AssertZero(c) => {
            // w0 - (l0*1 + l1*2 + ... + l7*128) == 0
            assert_eq!(c.mul_terms.len(), 0);
            let mut expected = vec![(FieldElement::one(), w0)];
            for (i, limb) in limbs.iter().enumerate() {
                expected.push((fe_neg(&fe(1u128 << i)), *limb));
            }
            assert_eq!(c.linear_combinations, expected);
            assert_eq!(c.q_c, FieldElement::zero());
        }
        _ => panic!("expected the recomposition assertion last"),
    }
}

#[test]
fn radix_decompose_rejects_a_non_power_of_two() {
    let mut acir = GeneratedAcir::new();
    let w0 = acir.next_witness_index();
    let r = acir.radix_le_decompose(&Expression::from_witness(w0), 3, 2, 1);
    match r {
        Err(RuntimeError::Internal(
            acir_builder::opcode::InternalError::InvalidRadix { radix, bit_size, .. },
        )) => {
            assert_eq!(radix, 3);
            assert_eq!(bit_size, 1);
        }
        _ => panic!("expected the invalid-radix error"),
    }
    assert!(acir.take_opcodes().is_empty());
}

#[test]
fn range_constraint_of_field_width_is_rejected() {
    let mut acir = GeneratedAcir::new();
    let w = acir.next_witness_index();
    match acir.range_constraint(w, 254) {
        Err(RuntimeError::InvalidRangeConstraint { num_bits, .. }) => {
            assert_eq!(num_bits, 254);
        }
        _ => panic!("expected the invalid-range error"),
    }
    assert!(acir.take_opcodes().is_empty());
}

#[test]
fn range_constraint_below_field_width_is_emitted() {
    let mut acir = GeneratedAcir::new();
    let w = acir.next_witness_index();
    acir.range_constraint(w, 253).unwrap();
    let ops = acir.take_opcodes();
    assert_eq!(ops.len(), 1);
    match &ops[0] {
        Opcode::BlackBoxFuncCall(BlackBoxFuncCall::RANGE { input }) => {
            assert_eq!(input.witness, w);
            assert_eq!(input.num_bits, 253);
        }
        _ => panic!("expected a range opcode"),
    }
}

#[test]
fn squaring_a_shared_operand_reduces_it_once() {
    let mut acir = GeneratedAcir::new();
    let w0 = acir.next_witness_index();
    // A degree-two expression: w0 * w0.
    let sq = Expression {
        mul_terms: vec![(FieldElement::one(), w0, w0)],
        linear_combinations: vec![],
        q_c: FieldElement::zero(),
    };
    let product = acir.mul_with_witness(&sq, &sq);

    // Exactly one fresh witness: the shared reduction of the operand.
    assert_eq!(acir.current_witness_index(), Witness(1));
    let ops = acir.take_opcodes();
    assert_eq!(ops.len(), 1);
    assert!(matches!(ops[0], Opcode::AssertZero(_)));
    // The result is that witness squared.
    assert_eq!(
        product.mul_terms,
        vec![(FieldElement::one(), Witness(1), Witness(1))]
    );
    assert_eq!(product.q_c, FieldElement::zero());
    for (coeff, _) in &product.linear_combinations {
        assert_eq!(*coeff, FieldElement::zero());
    }
}

#[test]
fn multiplying_linear_expressions_emits_nothing() {
    let mut acir = GeneratedAcir::new();
    let w0 = acir.next_witness_index();
    let w1 = acir.next_witness_index();
    let a = Expression::from_witness(w0);
    let b = Expression::from_witness(w1);
    let product = acir.mul_with_witness(&a, &b);
    assert!(acir.take_opcodes().is_empty());
    assert_eq!(acir.current_witness_index(), w1);
    assert_eq!(
        product.mul_terms,
        vec![(FieldElement::one(), w0, w1)]
    );
}

#[test]
fn multiplying_by_a_constant_scales_directly() {
    let mut acir = GeneratedAcir::new();
    let w0 = acir.next_witness_index();
    let a = Expression::from_witness(w0);
    let product = acir.mul_with_witness(&a, &const_expr(5));
    assert!(acir.take_opcodes().is_empty());
    assert_eq!(
        product.linear_combinations,
        vec![(fe(5), w0)]
    );
}

#[test]
fn call_stack_is_stamped_onto_pushed_opcodes() {
    let mut acir = GeneratedAcir::new();
    let stack = CallStack {
        frames: vec![SourceSpan { file: 1, start: 10, end: 20 }],
    };
    acir.call_stack = stack.duplicate();
    acir.assert_is_zero(const_expr(0));
    let loc = OpcodeLocation::Acir(0);
    let recorded = acir.locations.get(&loc).expect("the location must be stamped");
    assert_eq!(recorded.frames, stack.frames);
}

#[test]
fn empty_call_stack_stamps_nothing() {
    let mut acir = GeneratedAcir::new();
    acir.assert_is_zero(const_expr(0));
    assert!(acir.locations.get(&OpcodeLocation::Acir(0)).is_none());
    assert_eq!(acir.locations.entries.len(), 0);
}

#[test]
fn brillig_merges_inner_locations_and_messages() {
    let mut acir = GeneratedAcir::new();
    let inner_stack = CallStack {
        frames: vec![SourceSpan { file: 7, start: 1, end: 2 }],
    };
    let artifact = GeneratedBrillig {
        byte_code: directive_invert_byte_code(),
        locations: vec![(0, inner_stack.duplicate()), (2, inner_stack.duplicate())],
        assert_messages: vec![(1, String::from("division by zero"))],
    };
    acir.brillig(None, artifact, vec![], vec![]);

    let ops = acir.take_opcodes();
    assert_eq!(ops.len(), 1);
    let k0 = OpcodeLocation::Brillig { acir_index: 0, brillig_index: 0 };
    let k2 = OpcodeLocation::Brillig { acir_index: 0, brillig_index: 2 };
    assert_eq!(acir.locations.get(&k0).unwrap().frames, inner_stack.frames);
    assert_eq!(acir.locations.get(&k2).unwrap().frames, inner_stack.frames);
    let mk = OpcodeLocation::Brillig { acir_index: 0, brillig_index: 1 };
    assert_eq!(acir.assert_messages.get(&mk).unwrap().as_str(), "division by zero");
}

#[test]
fn location_map_lists_plain_locations_before_embedded_ones() {
    let mut acir = GeneratedAcir::new();
    let artifact = GeneratedBrillig {
        byte_code: directive_invert_byte_code(),
        locations: vec![(
            0,
            CallStack { frames: vec![SourceSpan { file: 1, start: 0, end: 1 }] },
        )],
        assert_messages: vec![],
    };
    acir.brillig(None, artifact, vec![], vec![]);
    acir.call_stack = CallStack {
        frames: vec![SourceSpan { file: 2, start: 0, end: 1 }],
    };
    acir.assert_is_zero(const_expr(0));

    // The plain location of the second opcode sorts before the embedded
    // location inside the first opcode.
    assert_eq!(acir.locations.entries.len(), 2);
    assert_eq!(acir.locations.entries[0].0, OpcodeLocation::Acir(1));
    assert_eq!(
        acir.locations.entries[1].0,
        OpcodeLocation::Brillig { acir_index: 0, brillig_index: 0 }
    );
}

#[test]
fn permutation_emits_directive_network_and_bindings() {
    let mut acir = GeneratedAcir::new();
    let w0 = acir.next_witness_index();
    let w1 = acir.next_witness_index();
    let w2 = acir.next_witness_index();
    let w3 = acir.next_witness_index();
    let input = vec![Expression::from_witness(w0), Expression::from_witness(w1)];
    let output = vec![Expression::from_witness(w2), Expression::from_witness(w3)];
    acir.permutation(&input, &output).unwrap();

    let ops = acir.take_opcodes();
    match &ops[0] {
        Opcode::Directive(Directive::PermutationSort { inputs, tuple, bits, sort_by }) => {
            // One control bit for a two-input network: clog2(1) + clog2(2).
            assert_eq!(bits, &vec![Witness(4)]);
            assert_eq!(*tuple, 1);
            assert_eq!(sort_by, &vec![0]);
            assert_eq!(inputs.len(), 2);
            assert_eq!(inputs[0], vec![Expression::from_witness(w0)]);
            assert_eq!(inputs[1], vec![Expression::from_witness(w1)]);
        }
        _ => panic!("expected the sorting directive first"),
    }
    // Boolean constraint for the control bit, then the two output bindings.
    assert_eq!(ops.len(), 4);
    match &ops[1] {
        Opcode::AssertZero(c) => {
            assert_eq!(
                c.mul_terms,
                vec![(FieldElement::one(), Witness(4), Witness(4))]
            );
            assert_eq!(
                c.linear_combinations,
                vec![(fe_neg(&FieldElement::one()), Witness(4))]
            );
        }
        _ => panic!("expected the boolean constraint for the control bit"),
    }
    assert!(matches!(ops[2], Opcode::AssertZero(_)));
    assert!(matches!(ops[3], Opcode::AssertZero(_)));
}

#[test]
fn permutation_control_bits_follow_the_ceiling_log_sum() {
    // For five inputs the count is 0 + 1 + 2 + 2 + 3 = 8.
    let mut acir = GeneratedAcir::new();
    let mut input = Vec::new();
    let mut output = Vec::new();
    for _ in 0..5 {
        let w = acir.next_witness_index();
        input.push(Expression::from_witness(w));
    }
    for _ in 0..5 {
        let w = acir.next_witness_index();
        output.push(Expression::from_witness(w));
    }
    acir.permutation(&input, &output).unwrap();
    let ops = acir.take_opcodes();
    match &ops[0] {
        Opcode::Directive(Directive::PermutationSort { bits, .. }) => {
            assert_eq!(bits.len(), 8);
            assert_eq!(bits[0], Witness(10));
            assert_eq!(bits[7], Witness(17));
        }
        _ => panic!("expected the sorting directive first"),
    }
}

#[test]
fn take_opcodes_drains_the_stream() {
    let mut acir = GeneratedAcir::new();
    acir.assert_is_zero(const_expr(0));
    acir.assert_is_zero(const_expr(0));
    let ops = acir.take_opcodes();
    assert_eq!(ops.len(), 2);
    assert!(acir.take_opcodes().is_empty());
}

#[test]
fn is_zero_reuses_the_negation_of_a_witness() {
    let mut acir = GeneratedAcir::new();
    let w0 = acir.next_witness_index();
    // -w0 is not a plain witness, but its negation is, so no reduction
    // witness is allocated.
    let neg_w0 = Expression::from_witness(w0).scaled(&fe_neg(&FieldElement::one()));
    let y = acir.is_zero(&neg_w0);
    assert_eq!(y, Witness(2));
    let ops = acir.take_opcodes();
    assert_eq!(ops.len(), 3);
    match &ops[0] {
        Opcode::Brillig(b) => {
            assert_eq!(
                b.inputs[0],
                BrilligInputs::Single(Expression::from_witness(w0))
            );
        }
        _ => panic!("expected the inversion program first"),
    }
}

#[test]
fn single_input_permutation_binds_directly() {
    let mut acir = GeneratedAcir::new();
    let w0 = acir.next_witness_index();
    let w1 = acir.next_witness_index();
    let input = vec![Expression::from_witness(w0)];
    let output = vec![Expression::from_witness(w1)];
    acir.permutation(&input, &output).unwrap();
    let ops = acir.take_opcodes();
    // No control bits: just the directive and the single binding.
    assert_eq!(ops.len(), 2);
    match &ops[0] {
        Opcode::Directive(Directive::PermutationSort { bits, .. }) => {
            assert!(bits.is_empty());
        }
        _ => panic!("expected the sorting directive first"),
    }
    match &ops[1] {
        Opcode::AssertZero(c) => {
            assert_eq!(
                c.linear_combinations,
                vec![
                    (FieldElement::one(), w0),
                    (fe_neg(&FieldElement::one()), w1),
                ]
            );
        }
        _ => panic!("expected the binding assertion"),
    }
}

#[test]
fn decomposition_with_no_limbs_binds_to_zero() {
    let mut acir = GeneratedAcir::new();
    let w0 = acir.next_witness_index();
    let limbs = acir
        .radix_le_decompose(&Expression::from_witness(w0), 2, 0, 1)
        .unwrap();
    assert!(limbs.is_empty());
    let ops = acir.take_opcodes();
    // Just the directive and the binding of the expression to the empty sum.
    assert_eq!(ops.len(), 2);
    assert!(matches!(ops[0], Opcode::Directive(Directive::ToLeRadix { .. })));
    match &ops[1] {
        Opcode::AssertZero(c) => {
            assert_eq!(c.linear_combinations, vec![(FieldElement::one(), w0)]);
            assert_eq!(c.q_c, FieldElement::zero());
        }
        _ => panic!("expected the binding assertion"),
    }
}

#[test]
fn every_permutation_control_bit_is_boolean_constrained() {
    // Four inputs need 0 + 1 + 2 + 2 = 5 control bits; each must receive
    // exactly one boolean constraint c*c - c == 0.
    let mut acir = GeneratedAcir::new();
    let mut input = Vec::new();
    let mut output = Vec::new();
    for _ in 0..4 {
        let w = acir.next_witness_index();
        input.push(Expression::from_witness(w));
    }
    for _ in 0..4 {
        let w = acir.next_witness_index();
        output.push(Expression::from_witness(w));
    }
    acir.permutation(&input, &output).unwrap();
    let ops = acir.take_opcodes();

    let bits = match &ops[0] {
        Opcode::Directive(Directive::PermutationSort { bits, .. }) => bits.clone(),
        _ => panic!("expected the sorting directive first"),
    };
    assert_eq!(bits.len(), 5);

    let neg_one = fe_neg(&FieldElement::one());
    let mut constrained = Vec::new();
    for op in &ops {
        if let Opcode::AssertZero(c) = op {
            if let (
                [(m_coeff, wl, wr)],
                [(l_coeff, wlin)],
            ) = (&c.mul_terms[..], &c.linear_combinations[..])
            {
                if wl == wr
                    && wl == wlin
                    && *m_coeff == FieldElement::one()
                    && *l_coeff == neg_one
                    && c.q_c == FieldElement::zero()
                {
                    constrained.push(*wl);
                }
            }
        }
    }
    // The network constrains the sub-network bits before the output
    // switches, so compare as sets of indices.
    let mut constrained_ids: Vec<u32> = constrained.iter().map(|w| w.0).collect();
    constrained_ids.sort_unstable();
    let bit_ids: Vec<u32> = bits.iter().map(|w| w.0).collect();
    assert_eq!(constrained_ids, bit_ids);
}

#[test]
fn empty_permutation_emits_only_the_directive() {
    let mut acir = GeneratedAcir::new();
    acir.permutation(&vec![], &vec![]).unwrap();
    let ops = acir.take_opcodes();
    assert_eq!(ops.len(), 1);
    match &ops[0] {
        Opcode::Directive(Directive::PermutationSort { inputs, bits, .. }) => {
            assert!(inputs.is_empty());
            assert!(bits.is_empty());
        }
        _ => panic!("expected the sorting directive"),
    }
    assert_eq!(acir.current_witness_index(), Witness(0));
}
