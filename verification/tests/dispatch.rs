//! Tests of the black-box dispatcher, its arity tables, and the field and
//! expression primitives underneath the builder.

use acir_builder::acir::GeneratedAcir;
use acir_builder::blackbox::{
    black_box_expected_output_size, black_box_func_expected_input_size,
};
use acir_builder::expr::{Expression, Witness};
use acir_builder::field::{
    FieldElement, big_mul_u32, fe_add, fe_from_be_bytes_reduce, fe_mul, fe_neg, fe_to_u128,
};
use acir_builder::opcode::{
    BlackBoxFunc, BlackBoxFuncCall, FunctionInput, InternalError, Opcode,
};


fn fe(v: u128) -> FieldElement {
    let mut be_bytes = vec![0u8; 16];
    be_bytes.extend_from_slice(&v.to_be_bytes());
    FieldElement { be_bytes }
}

fn input(w: u32, bits: u32) -> FunctionInput {
    FunctionInput { witness: Witness(w), num_bits: bits }
}

#[test]
fn keccak_dispatch_wires_message_and_size() {
    let mut acir = GeneratedAcir::new();
    let in0 = input(0, 8);
    let in1 = input(1, 8);
    let in2 = input(2, 8);
    let sz = input(3, 32);
    let groups = vec![vec![in0, in1, in2], vec![sz]];
    let outputs = acir
        .call_black_box(BlackBoxFunc::Keccak256, &groups, vec![], vec![], 32)
        .unwrap();
    assert_eq!(outputs.len(), 32);
    assert_eq!(outputs[0], Witness(0));
    assert_eq!(outputs[31], Witness(31));

    let ops = acir.take_opcodes();
    assert_eq!(ops.len(), 1);
    match &ops[0] {
        Opcode::BlackBoxFuncCall(BlackBoxFuncCall::Keccak256VariableLength {
            inputs,
            var_message_size,
            outputs: outs,
        }) => {
            assert_eq!(*inputs, vec![in0, in1, in2]);
            assert_eq!(*var_message_size, sz);
            assert_eq!(*outs, outputs);
        }
        _ => panic!("expected a variable-length keccak opcode"),
    }
}

#[test]
fn keccak_without_any_group_is_a_missing_argument() {
    let mut acir = GeneratedAcir::new();
    let r = acir.call_black_box(BlackBoxFunc::Keccak256, &vec![], vec![], vec![], 32);
    match r {
        Err(InternalError::MissingArg { arg, .. }) => assert_eq!(arg, "message_size"),
        _ => panic!("expected the missing-argument error"),
    }
    assert!(acir.take_opcodes().is_empty());
    assert_eq!(acir.current_witness_index(), Witness(0));
}

#[test]
fn and_gate_dispatch() {
    let mut acir = GeneratedAcir::new();
    let groups = vec![vec![input(0, 8)], vec![input(1, 8)]];
    let outputs = acir
        .call_black_box(BlackBoxFunc::AND, &groups, vec![], vec![], 1)
        .unwrap();
    assert_eq!(outputs, vec![Witness(0)]);
    let ops = acir.take_opcodes();
    match &ops[0] {
        Opcode::BlackBoxFuncCall(BlackBoxFuncCall::AND { lhs, rhs, output }) => {
            assert_eq!(*lhs, input(0, 8));
            assert_eq!(*rhs, input(1, 8));
            assert_eq!(*output, Witness(0));
        }
        _ => panic!("expected an AND opcode"),
    }
}

#[test]
fn bigint_dispatch_decodes_constant_handles() {
    let mut acir = GeneratedAcir::new();
    let outputs = acir
        .call_black_box(
            BlackBoxFunc::BigIntAdd,
            &vec![],
            vec![fe(5), fe(6)],
            vec![fe(7)],
            0,
        )
        .unwrap();
    assert!(outputs.is_empty());
    let ops = acir.take_opcodes();
    match &ops[0] {
        Opcode::BlackBoxFuncCall(BlackBoxFuncCall::BigIntAdd { lhs, rhs, output }) => {
            assert_eq!((*lhs, *rhs, *output), (5, 6, 7));
        }
        _ => panic!("expected a bigint addition opcode"),
    }
}

#[test]
fn bigint_from_le_bytes_decodes_modulus() {
    let mut acir = GeneratedAcir::new();
    let groups = vec![vec![input(0, 8), input(1, 8)]];
    acir.call_black_box(
        BlackBoxFunc::BigIntFromLeBytes,
        &groups,
        vec![fe(0xfd), fe(0xff)],
        vec![fe(9)],
        0,
    )
    .unwrap();
    let ops = acir.take_opcodes();
    match &ops[0] {
        Opcode::BlackBoxFuncCall(BlackBoxFuncCall::BigIntFromLeBytes {
            inputs,
            modulus,
            output,
        }) => {
            assert_eq!(inputs.len(), 2);
            assert_eq!(*modulus, vec![0xfd, 0xff]);
            assert_eq!(*output, 9);
        }
        _ => panic!("expected a bigint-from-bytes opcode"),
    }
}

#[test]
fn every_fixed_input_arity_is_enforced() {
    let fixed_input_names = [
        (BlackBoxFunc::AND, 2),
        (BlackBoxFunc::XOR, 2),
        (BlackBoxFunc::RANGE, 1),
        (BlackBoxFunc::Keccakf1600, 25),
        (BlackBoxFunc::Sha256Compression, 24),
        (BlackBoxFunc::FixedBaseScalarMul, 2),
        (BlackBoxFunc::EmbeddedCurveAdd, 4),
        (BlackBoxFunc::BigIntAdd, 0),
        (BlackBoxFunc::BigIntSub, 0),
        (BlackBoxFunc::BigIntMul, 0),
        (BlackBoxFunc::BigIntDiv, 0),
        (BlackBoxFunc::BigIntToLeBytes, 0),
    ];
    for (name, expected) in fixed_input_names {
        assert_eq!(black_box_func_expected_input_size(name), Some(expected));
        let mut acir = GeneratedAcir::new();
        // One more input than the table allows.
        let groups = vec![vec![input(0, 8); expected + 1]];
        let r = acir.call_black_box(name, &groups, vec![], vec![], 0);
        match r {
            Err(InternalError::UnexpectedInputCount { name: n, expected: e, found, .. }) => {
                assert_eq!(n, name);
                assert_eq!(e, expected);
                assert_eq!(found, expected + 1);
            }
            _ => panic!("expected the input-arity error"),
        }
        assert!(acir.take_opcodes().is_empty());
        assert_eq!(acir.current_witness_index(), Witness(0));
    }
}

#[test]
fn every_fixed_output_arity_is_enforced() {
    let fixed_output_names = [
        (BlackBoxFunc::AND, 1),
        (BlackBoxFunc::XOR, 1),
        (BlackBoxFunc::RANGE, 0),
        (BlackBoxFunc::SHA256, 32),
        (BlackBoxFunc::Blake2s, 32),
        (BlackBoxFunc::Blake3, 32),
        (BlackBoxFunc::Keccak256, 32),
        (BlackBoxFunc::Keccakf1600, 25),
        (BlackBoxFunc::Sha256Compression, 8),
        (BlackBoxFunc::PedersenCommitment, 2),
        (BlackBoxFunc::PedersenHash, 1),
        (BlackBoxFunc::SchnorrVerify, 1),
        (BlackBoxFunc::EcdsaSecp256k1, 1),
        (BlackBoxFunc::EcdsaSecp256r1, 1),
        (BlackBoxFunc::FixedBaseScalarMul, 2),
        (BlackBoxFunc::EmbeddedCurveAdd, 2),
        (BlackBoxFunc::BigIntAdd, 0),
        (BlackBoxFunc::BigIntSub, 0),
        (BlackBoxFunc::BigIntMul, 0),
        (BlackBoxFunc::BigIntDiv, 0),
        (BlackBoxFunc::BigIntFromLeBytes, 0),
    ];
    for (name, expected) in fixed_output_names {
        assert_eq!(black_box_expected_output_size(name), Some(expected));
        let mut acir = GeneratedAcir::new();
        let input_count = match black_box_func_expected_input_size(name) {
            Some(c) => c,
            None => 1,
        };
        let groups = vec![vec![input(0, 8); input_count]];
        let r = acir.call_black_box(name, &groups, vec![], vec![], expected + 1);
        match r {
            Err(InternalError::UnexpectedOutputCount { name: n, expected: e, found, .. }) => {
                assert_eq!(n, name);
                assert_eq!(e, expected);
                assert_eq!(found, expected + 1);
            }
            _ => panic!("expected the output-arity error"),
        }
        assert!(acir.take_opcodes().is_empty());
    }
}

#[test]
fn variable_arity_names_pass_unchecked() {
    assert_eq!(black_box_func_expected_input_size(BlackBoxFunc::SHA256), None);
    assert_eq!(black_box_func_expected_input_size(BlackBoxFunc::SchnorrVerify), None);
    assert_eq!(black_box_expected_output_size(BlackBoxFunc::Poseidon2Permutation), None);
    assert_eq!(black_box_expected_output_size(BlackBoxFunc::BigIntToLeBytes), None);
    assert_eq!(black_box_expected_output_size(BlackBoxFunc::RecursiveAggregation), None);
}

#[test]
fn field_arithmetic_wrappers_compute() {
    let three = fe(3);
    let four = fe(4);
    assert_eq!(fe_add(&three, &four), fe(7));
    assert_eq!(fe_mul(&three, &four), fe(12));
    // -1 + 1 == 0 wraps around the modulus.
    assert_eq!(fe_add(&fe_neg(&FieldElement::one()), &FieldElement::one()), FieldElement::zero());
    assert_ne!(fe_neg(&three), three);
    assert_eq!(fe_to_u128(&fe(123456789)), 123456789);
    assert_eq!(FieldElement::one(), fe(1));
    assert_eq!(FieldElement::zero(), fe(0));
}

#[test]
fn byte_reduction_and_big_multiplication() {
    // An empty byte string is zero; [1, 0] is 256.
    assert_eq!(fe_from_be_bytes_reduce(&vec![]), FieldElement::zero());
    assert_eq!(fe_from_be_bytes_reduce(&vec![1, 0]), fe(256));
    // 1 * 300 = 300 = 0x012c big-endian.
    assert_eq!(big_mul_u32(&vec![1], 300), vec![0x01, 0x2c]);
    // Walking powers: 300 * 300 = 90000 = 0x015f90.
    assert_eq!(big_mul_u32(&vec![0x01, 0x2c], 300), vec![0x01, 0x5f, 0x90]);
}

#[test]
fn expression_predicates_and_narrowing() {
    let w = Witness(5);
    let e = Expression::from_witness(w);
    assert!(e.is_linear());
    assert!(!e.is_const());
    assert_eq!(e.to_witness(), Some(w));

    // 2*w is linear but not a plain witness.
    let scaled = e.scaled(&fe(2));
    assert_eq!(scaled.to_witness(), None);

    let c = Expression::one();
    assert!(c.is_const());
    assert!(c.is_linear());
    assert_eq!(c.to_witness(), None);

    // Structural equality sees coefficient values, order and witnesses.
    assert!(e.same_shape(&Expression::from_witness(w)));
    assert!(!e.same_shape(&scaled));
    assert!(!e.same_shape(&Expression::from_witness(Witness(6))));
}

#[test]
fn expression_sum_and_difference() {
    let w0 = Witness(0);
    let w1 = Witness(1);
    let a = Expression {
        mul_terms: vec![],
        linear_combinations: vec![(fe(2), w0)],
        q_c: fe(10),
    };
    let b = Expression {
        mul_terms: vec![],
        linear_combinations: vec![(fe(3), w1)],
        q_c: fe(4),
    };
    let sum = a.add(&b);
    assert_eq!(
        sum.linear_combinations,
        vec![(fe(2), w0), (fe(3), w1)]
    );
    assert_eq!(sum.q_c, fe(14));

    let diff = a.sub(&b);
    assert_eq!(
        diff.linear_combinations,
        vec![(fe(2), w0), (fe_neg(&fe(3)), w1)]
    );
    assert_eq!(diff.q_c, fe(6));
}

#[test]
fn expression_products_respect_the_degree_budget() {
    let w0 = Witness(0);
    let w1 = Witness(1);
    let a = Expression::from_witness(w0);
    let b = Expression::from_witness(w1);
    let ab = a.mul(&b).unwrap();
    assert_eq!(ab.mul_terms, vec![(FieldElement::one(), w0, w1)]);

    // A degree-two product with another non-constant is refused.
    assert!(ab.mul(&a).is_none());
    // But a constant still scales it.
    let scaled = ab.mul(&Expression {
        mul_terms: vec![],
        linear_combinations: vec![],
        q_c: fe(2),
    });
    assert_eq!(
        scaled.unwrap().mul_terms,
        vec![(fe(2), w0, w1)]
    );
}
