//! The black-box dispatcher: arity tables for the enumerated foreign
//! functions, and the typed gateway that allocates output witnesses and
//! emits one black-box opcode.

use vstd::prelude::*;
use crate::acir::GeneratedAcir;
use crate::expr::{Witness, copy_witnesses};
use crate::field::{FieldElement, fe_to_u128};
use crate::opcode::{BlackBoxFunc, BlackBoxFuncCall, CallStack, FunctionInput, InternalError, Opcode};

verus! {

/// The number of inputs a black-box function expects, when fixed.
pub open spec fn spec_input_size(name: BlackBoxFunc) -> Option<usize> {
    match name {
        BlackBoxFunc::AND | BlackBoxFunc::XOR => Some(2),
        BlackBoxFunc::Keccak256 | BlackBoxFunc::SHA256 | BlackBoxFunc::Blake2s
            | BlackBoxFunc::Blake3 | BlackBoxFunc::PedersenCommitment
            | BlackBoxFunc::PedersenHash => None,
        BlackBoxFunc::Keccakf1600 => Some(25),
        BlackBoxFunc::Poseidon2Permutation => None,
        BlackBoxFunc::Sha256Compression => Some(24),
        BlackBoxFunc::RANGE => Some(1),
        BlackBoxFunc::SchnorrVerify | BlackBoxFunc::EcdsaSecp256k1
            | BlackBoxFunc::EcdsaSecp256r1 => None,
        BlackBoxFunc::FixedBaseScalarMul => Some(2),
        BlackBoxFunc::RecursiveAggregation => None,
        BlackBoxFunc::EmbeddedCurveAdd => Some(4),
        BlackBoxFunc::BigIntAdd | BlackBoxFunc::BigIntSub | BlackBoxFunc::BigIntMul
            | BlackBoxFunc::BigIntDiv | BlackBoxFunc::BigIntToLeBytes => Some(0),
        BlackBoxFunc::BigIntFromLeBytes => None,
    }
}

/// The number of outputs a black-box function expects, when fixed.
pub open spec fn spec_output_size(name: BlackBoxFunc) -> Option<usize> {
    match name {
        BlackBoxFunc::AND | BlackBoxFunc::XOR => Some(1),
        BlackBoxFunc::Keccak256 | BlackBoxFunc::SHA256 | BlackBoxFunc::Blake2s
            | BlackBoxFunc::Blake3 => Some(32),
        BlackBoxFunc::Keccakf1600 => Some(25),
        BlackBoxFunc::Poseidon2Permutation => None,
        BlackBoxFunc::Sha256Compression => Some(8),
        BlackBoxFunc::PedersenCommitment => Some(2),
        BlackBoxFunc::PedersenHash => Some(1),
        BlackBoxFunc::RANGE => Some(0),
        BlackBoxFunc::SchnorrVerify | BlackBoxFunc::EcdsaSecp256k1
            | BlackBoxFunc::EcdsaSecp256r1 => Some(1),
        BlackBoxFunc::FixedBaseScalarMul | BlackBoxFunc::EmbeddedCurveAdd => Some(2),
        BlackBoxFunc::BigIntAdd | BlackBoxFunc::BigIntSub | BlackBoxFunc::BigIntMul
            | BlackBoxFunc::BigIntDiv | BlackBoxFunc::BigIntFromLeBytes => Some(0),
        BlackBoxFunc::BigIntToLeBytes => None,
        BlackBoxFunc::RecursiveAggregation => None,
    }
}

/// The number of inputs a black-box function expects. `None` means the
/// function takes a variable number of inputs.
pub fn black_box_func_expected_input_size(name: BlackBoxFunc) -> (r: Option<usize>)
    ensures
        r == spec_input_size(name),
{
    match name {
        BlackBoxFunc::AND | BlackBoxFunc::XOR => Some(2),
        BlackBoxFunc::Keccak256 | BlackBoxFunc::SHA256 | BlackBoxFunc::Blake2s
            | BlackBoxFunc::Blake3 | BlackBoxFunc::PedersenCommitment
            | BlackBoxFunc::PedersenHash => None,
        BlackBoxFunc::Keccakf1600 => Some(25),
        BlackBoxFunc::Poseidon2Permutation => None,
        BlackBoxFunc::Sha256Compression => Some(24),
        BlackBoxFunc::RANGE => Some(1),
        BlackBoxFunc::SchnorrVerify | BlackBoxFunc::EcdsaSecp256k1
            | BlackBoxFunc::EcdsaSecp256r1 => None,
        BlackBoxFunc::FixedBaseScalarMul => Some(2),
        BlackBoxFunc::RecursiveAggregation => None,
        BlackBoxFunc::EmbeddedCurveAdd => Some(4),
        BlackBoxFunc::BigIntAdd | BlackBoxFunc::BigIntSub | BlackBoxFunc::BigIntMul
            | BlackBoxFunc::BigIntDiv | BlackBoxFunc::BigIntToLeBytes => Some(0),
        BlackBoxFunc::BigIntFromLeBytes => None,
    }
}

/// The number of outputs a black-box function expects. `None` means the
/// function returns a variable number of outputs.
pub fn black_box_expected_output_size(name: BlackBoxFunc) -> (r: Option<usize>)
    ensures
        r == spec_output_size(name),
{
    match name {
        BlackBoxFunc::AND | BlackBoxFunc::XOR => Some(1),
        BlackBoxFunc::Keccak256 | BlackBoxFunc::SHA256 | BlackBoxFunc::Blake2s
            | BlackBoxFunc::Blake3 => Some(32),
        BlackBoxFunc::Keccakf1600 => Some(25),
        BlackBoxFunc::Poseidon2Permutation => None,
        BlackBoxFunc::Sha256Compression => Some(8),
        BlackBoxFunc::PedersenCommitment => Some(2),
        BlackBoxFunc::PedersenHash => Some(1),
        BlackBoxFunc::RANGE => Some(0),
        BlackBoxFunc::SchnorrVerify | BlackBoxFunc::EcdsaSecp256k1
            | BlackBoxFunc::EcdsaSecp256r1 => Some(1),
        BlackBoxFunc::FixedBaseScalarMul | BlackBoxFunc::EmbeddedCurveAdd => Some(2),
        BlackBoxFunc::BigIntAdd | BlackBoxFunc::BigIntSub | BlackBoxFunc::BigIntMul
            | BlackBoxFunc::BigIntDiv | BlackBoxFunc::BigIntFromLeBytes => Some(0),
        BlackBoxFunc::BigIntToLeBytes => None,
        BlackBoxFunc::RecursiveAggregation => None,
    }
}

/// The total number of inputs across positional groups.
pub open spec fn total_inputs(s: Seq<Vec<FunctionInput>>) -> nat
    decreases s.len(),
{
    if s.len() == 0 {
        0
    } else {
        total_inputs(s.drop_last()) + s.last()@.len()
    }
}

/// A prefix never holds more inputs than the whole.
proof fn lemma_total_inputs_prefix(s: Seq<Vec<FunctionInput>>, i: int)
    requires
        0 <= i <= s.len(),
    ensures
        total_inputs(s.take(i)) <= total_inputs(s),
    decreases s.len(),
{
    if i < s.len() {
        assert(s.drop_last().take(i) =~= s.take(i));
        lemma_total_inputs_prefix(s.drop_last(), i);
    } else {
        assert(s.take(i) =~= s);
    }
}

/// Checks the total input count against the arity table; functions with a
/// variable arity pass unchecked.
pub fn intrinsics_check_inputs(
    name: BlackBoxFunc,
    input_count: usize,
    call_stack: &CallStack,
) -> (r: Result<(), InternalError>)
    ensures
        r matches Ok(_) <==> (spec_input_size(name) matches Some(e) ==> e == input_count),
        r matches Err(e) ==> e matches InternalError::UnexpectedInputCount {
            name: n,
            expected,
            found,
            call_stack: cs,
        } && n == name && Some(expected) == spec_input_size(name) && found == input_count && cs@
            == call_stack@,
{
    match black_box_func_expected_input_size(name) {
        None => Ok(()),
        Some(expected) => if expected == input_count {
            Ok(())
        } else {
            Err(
                InternalError::UnexpectedInputCount {
                    name,
                    expected,
                    found: input_count,
                    call_stack: call_stack.duplicate(),
                },
            )
        },
    }
}

/// Checks the output count against the arity table; functions with a
/// variable arity pass unchecked.
pub fn intrinsics_check_outputs(
    name: BlackBoxFunc,
    output_count: usize,
    call_stack: &CallStack,
) -> (r: Result<(), InternalError>)
    ensures
        r matches Ok(_) <==> (spec_output_size(name) matches Some(e) ==> e == output_count),
        r matches Err(e) ==> e matches InternalError::UnexpectedOutputCount {
            name: n,
            expected,
            found,
            call_stack: cs,
        } && n == name && Some(expected) == spec_output_size(name) && found == output_count && cs@
            == call_stack@,
{
    match black_box_expected_output_size(name) {
        None => Ok(()),
        Some(expected) => if expected == output_count {
            Ok(())
        } else {
            Err(
                InternalError::UnexpectedOutputCount {
                    name,
                    expected,
                    found: output_count,
                    call_stack: call_stack.duplicate(),
                },
            )
        },
    }
}

/// Whether both arity checks and the variable-size-argument check pass.
pub open spec fn checks_pass(
    name: BlackBoxFunc,
    inputs: Seq<Vec<FunctionInput>>,
    output_count: usize,
) -> bool {
    &&& (spec_input_size(name) matches Some(e) ==> e == total_inputs(inputs))
    &&& (spec_output_size(name) matches Some(e) ==> e == output_count)
    &&& (name == BlackBoxFunc::Keccak256 ==> inputs.len() > 0)
}

/// The positional slots that the dispatcher reads for `name` are present.
pub open spec fn slots_ok(name: BlackBoxFunc, inputs: Seq<Vec<FunctionInput>>) -> bool {
    match name {
        BlackBoxFunc::AND | BlackBoxFunc::XOR => inputs.len() >= 2 && inputs[0]@.len() >= 1
            && inputs[1]@.len() >= 1,
        BlackBoxFunc::RANGE => inputs.len() >= 1 && inputs[0]@.len() >= 1,
        BlackBoxFunc::SHA256 | BlackBoxFunc::Blake2s | BlackBoxFunc::Blake3
            | BlackBoxFunc::Keccakf1600 | BlackBoxFunc::Poseidon2Permutation
            | BlackBoxFunc::PedersenCommitment | BlackBoxFunc::PedersenHash => inputs.len() >= 1,
        BlackBoxFunc::SchnorrVerify => inputs.len() >= 4 && inputs[0]@.len() >= 1 && inputs[1]@
            .len() >= 1,
        BlackBoxFunc::EcdsaSecp256k1 | BlackBoxFunc::EcdsaSecp256r1 => inputs.len() >= 4,
        BlackBoxFunc::FixedBaseScalarMul => inputs.len() >= 2 && inputs[0]@.len() >= 1
            && inputs[1]@.len() >= 1,
        BlackBoxFunc::EmbeddedCurveAdd => inputs.len() >= 4 && inputs[0]@.len() >= 1 && inputs[1]@
            .len() >= 1 && inputs[2]@.len() >= 1 && inputs[3]@.len() >= 1,
        BlackBoxFunc::Keccak256 => inputs.len() >= 1 ==> inputs.last()@.len() >= 1,
        BlackBoxFunc::RecursiveAggregation => inputs.len() >= 4 && inputs[3]@.len() >= 1,
        BlackBoxFunc::Sha256Compression => inputs.len() >= 2,
        BlackBoxFunc::BigIntAdd | BlackBoxFunc::BigIntSub | BlackBoxFunc::BigIntMul
            | BlackBoxFunc::BigIntDiv | BlackBoxFunc::BigIntToLeBytes => true,
        BlackBoxFunc::BigIntFromLeBytes => inputs.len() >= 1,
    }
}

/// The constants that the dispatcher decodes for `name` are present and
/// within the widths it decodes them into, which the caller guarantees.
pub open spec fn consts_ok(
    name: BlackBoxFunc,
    cin: Seq<FieldElement>,
    cout: Seq<FieldElement>,
) -> bool {
    match name {
        BlackBoxFunc::PedersenCommitment | BlackBoxFunc::PedersenHash => cin.len() >= 1 && cin[0]
            .value() < 0x100000000,
        BlackBoxFunc::Poseidon2Permutation => cin.len() >= 1 && cin[0].value() < 0x100000000,
        BlackBoxFunc::BigIntAdd | BlackBoxFunc::BigIntSub | BlackBoxFunc::BigIntMul
            | BlackBoxFunc::BigIntDiv => cin.len() >= 2 && cout.len() >= 1 && cin[0].value()
            < 0x100000000 && cin[1].value() < 0x100000000 && cout[0].value() < 0x100000000,
        BlackBoxFunc::BigIntFromLeBytes => cout.len() >= 1 && cout[0].value() < 0x100000000 && (
        forall|i: int| 0 <= i < cin.len() ==> (#[trigger] cin[i]).value() < 256),
        BlackBoxFunc::BigIntToLeBytes => cin.len() >= 1 && cin[0].value() < 0x100000000,
        _ => true,
    }
}

/// The opcode the dispatcher builds for `name` from its positional slots,
/// constants and freshly allocated outputs.
pub open spec fn black_box_call_matches(
    name: BlackBoxFunc,
    inputs: Seq<Vec<FunctionInput>>,
    cin: Seq<FieldElement>,
    cout: Seq<FieldElement>,
    outs: Seq<Witness>,
    call: BlackBoxFuncCall,
) -> bool {
    match name {
        BlackBoxFunc::AND => call matches BlackBoxFuncCall::AND { lhs, rhs, output } && lhs
            == inputs[0]@[0] && rhs == inputs[1]@[0] && output == outs[0],
        BlackBoxFunc::XOR => call matches BlackBoxFuncCall::XOR { lhs, rhs, output } && lhs
            == inputs[0]@[0] && rhs == inputs[1]@[0] && output == outs[0],
        BlackBoxFunc::RANGE => call matches BlackBoxFuncCall::RANGE { input } && input
            == inputs[0]@[0],
        BlackBoxFunc::SHA256 => call matches BlackBoxFuncCall::SHA256 { inputs: ins, outputs }
            && ins@ == inputs[0]@ && outputs@ == outs,
        BlackBoxFunc::Blake2s => call matches BlackBoxFuncCall::Blake2s { inputs: ins, outputs }
            && ins@ == inputs[0]@ && outputs@ == outs,
        BlackBoxFunc::Blake3 => call matches BlackBoxFuncCall::Blake3 { inputs: ins, outputs }
            && ins@ == inputs[0]@ && outputs@ == outs,
        BlackBoxFunc::SchnorrVerify => call matches BlackBoxFuncCall::SchnorrVerify {
            public_key_x,
            public_key_y,
            signature,
            message,
            output,
        } && public_key_x == inputs[0]@[0] && public_key_y == inputs[1]@[0] && signature@
            == inputs[2]@ && message@ == inputs[3]@ && output == outs[0],
        BlackBoxFunc::PedersenCommitment => call matches BlackBoxFuncCall::PedersenCommitment {
            inputs: ins,
            domain_separator,
            outputs,
        } && ins@ == inputs[0]@ && domain_separator as nat == cin[0].value() && outputs == (
        outs[0], outs[1]),
        BlackBoxFunc::PedersenHash => call matches BlackBoxFuncCall::PedersenHash {
            inputs: ins,
            domain_separator,
            output,
        } && ins@ == inputs[0]@ && domain_separator as nat == cin[0].value() && output == outs[0],
        BlackBoxFunc::EcdsaSecp256k1 => call matches BlackBoxFuncCall::EcdsaSecp256k1 {
            public_key_x,
            public_key_y,
            signature,
            hashed_message,
            output,
        } && public_key_x@ == inputs[0]@ && public_key_y@ == inputs[1]@ && signature@
            == inputs[2]@ && hashed_message@ == inputs[3]@ && output == outs[0],
        BlackBoxFunc::EcdsaSecp256r1 => call matches BlackBoxFuncCall::EcdsaSecp256r1 {
            public_key_x,
            public_key_y,
            signature,
            hashed_message,
            output,
        } && public_key_x@ == inputs[0]@ && public_key_y@ == inputs[1]@ && signature@
            == inputs[2]@ && hashed_message@ == inputs[3]@ && output == outs[0],
        BlackBoxFunc::FixedBaseScalarMul => call matches BlackBoxFuncCall::FixedBaseScalarMul {
            low,
            high,
            outputs,
        } && low == inputs[0]@[0] && high == inputs[1]@[0] && outputs == (outs[0], outs[1]),
        BlackBoxFunc::EmbeddedCurveAdd => call matches BlackBoxFuncCall::EmbeddedCurveAdd {
            input1_x,
            input1_y,
            input2_x,
            input2_y,
            outputs,
        } && input1_x == inputs[0]@[0] && input1_y == inputs[1]@[0] && input2_x == inputs[2]@[0]
            && input2_y == inputs[3]@[0] && outputs == (outs[0], outs[1]),
        BlackBoxFunc::Keccak256 => call matches BlackBoxFuncCall::Keccak256VariableLength {
            inputs: ins,
            var_message_size,
            outputs,
        } && ins@ == inputs[0]@ && var_message_size == inputs.last()@[0] && outputs@ == outs,
        BlackBoxFunc::Keccakf1600 => call matches BlackBoxFuncCall::Keccakf1600 {
            inputs: ins,
            outputs,
        } && ins@ == inputs[0]@ && outputs@ == outs,
        BlackBoxFunc::RecursiveAggregation => call matches BlackBoxFuncCall::RecursiveAggregation {
            verification_key,
            proof,
            public_inputs,
            key_hash,
        } && verification_key@ == inputs[0]@ && proof@ == inputs[1]@ && public_inputs@
            == inputs[2]@ && key_hash == inputs[3]@[0],
        BlackBoxFunc::BigIntAdd => call matches BlackBoxFuncCall::BigIntAdd { lhs, rhs, output }
            && lhs as nat == cin[0].value() && rhs as nat == cin[1].value() && output as nat
            == cout[0].value(),
        BlackBoxFunc::BigIntSub => call matches BlackBoxFuncCall::BigIntSub { lhs, rhs, output }
            && lhs as nat == cin[0].value() && rhs as nat == cin[1].value() && output as nat
            == cout[0].value(),
        BlackBoxFunc::BigIntMul => call matches BlackBoxFuncCall::BigIntMul { lhs, rhs, output }
            && lhs as nat == cin[0].value() && rhs as nat == cin[1].value() && output as nat
            == cout[0].value(),
        BlackBoxFunc::BigIntDiv => call matches BlackBoxFuncCall::BigIntDiv { lhs, rhs, output }
            && lhs as nat == cin[0].value() && rhs as nat == cin[1].value() && output as nat
            == cout[0].value(),
        BlackBoxFunc::BigIntFromLeBytes => call matches BlackBoxFuncCall::BigIntFromLeBytes {
            inputs: ins,
            modulus,
            output,
        } && ins@ == inputs[0]@ && modulus@.len() == cin.len() && (forall|i: int|
            0 <= i < cin.len() ==> (#[trigger] modulus@[i]) as nat == cin[i].value()) && output
            as nat == cout[0].value(),
        BlackBoxFunc::BigIntToLeBytes => call matches BlackBoxFuncCall::BigIntToLeBytes {
            input,
            outputs,
        } && input as nat == cin[0].value() && outputs@ == outs,
        BlackBoxFunc::Poseidon2Permutation => call
            matches BlackBoxFuncCall::Poseidon2Permutation { inputs: ins, outputs, len } && ins@
            == inputs[0]@ && outputs@ == outs && len as nat == cin[0].value(),
        BlackBoxFunc::Sha256Compression => call matches BlackBoxFuncCall::Sha256Compression {
            inputs: ins,
            hash_values,
            outputs,
        } && ins@ == inputs[0]@ && hash_values@ == inputs[1]@ && outputs@ == outs,
    }
}

/// A fresh vector with the same function inputs.
fn copy_function_inputs(v: &Vec<FunctionInput>) -> (r: Vec<FunctionInput>)
    ensures
        r@ == v@,
{
    let mut r: Vec<FunctionInput> = Vec::new();
    let mut i: usize = 0;
    while i < v.len()
        invariant
            i <= v@.len(),
            r@ =~= v@.take(i as int),
        decreases v@.len() - i,
    {
        r.push(v[i]);
        proof {
            assert(r@ =~= v@.take(i + 1));
        }
        i += 1;
    }
    proof {
        assert(v@.take(v@.len() as int) =~= v@);
    }
    r
}

/// The value of a constant that the caller guarantees to fit 32 bits.
fn fe_to_u32(c: &FieldElement) -> (r: u32)
    requires
        c.value() < 0x100000000,
    ensures
        r as nat == c.value(),
{
    proof {
        vstd::arithmetic::div_mod::lemma_small_mod(c.value(), crate::field::field_modulus());
        vstd::arithmetic::div_mod::lemma_small_mod(
            c.value(),
            0x100000000000000000000000000000000nat,
        );
    }
    fe_to_u128(c) as u32
}

impl GeneratedAcir {
    /// Dispatches one black-box call: validates the input and output counts
    /// against the arity tables, allocates the output witnesses, builds the
    /// variant for `func_name` from its positional slots and constants, and
    /// pushes one opcode. Arity mismatches and a missing variable-size
    /// argument are surfaced as internal errors with nothing emitted.
    pub fn call_black_box(
        &mut self,
        func_name: BlackBoxFunc,
        inputs: &Vec<Vec<FunctionInput>>,
        constant_inputs: Vec<FieldElement>,
        constant_outputs: Vec<FieldElement>,
        output_count: usize,
    ) -> (r: Result<Vec<Witness>, InternalError>)
        requires
            old(self).wf(),
            old(self).witness_count() + output_count <= u32::MAX as nat,
            total_inputs(inputs@) <= usize::MAX,
            checks_pass(func_name, inputs@, output_count) ==> slots_ok(func_name, inputs@)
                && consts_ok(func_name, constant_inputs@, constant_outputs@),
        ensures
            final(self).wf(),
            match r {
                Ok(outs) => {
                    &&& checks_pass(func_name, inputs@, output_count)
                    &&& outs@.len() == output_count
                    &&& forall|i: int|
                        0 <= i < output_count ==> (#[trigger] outs@[i]).0 as nat == old(
                            self,
                        ).witness_count() + i
                    &&& final(self).witness_count() == old(self).witness_count() + output_count
                    &&& final(self).opcodes_seq().len() == old(self).opcodes_seq().len() + 1
                    &&& Self::stream_extended(*old(self), *final(self))
                    &&& final(self).opcodes_seq().last() matches Opcode::BlackBoxFuncCall(c)
                        && black_box_call_matches(
                        func_name,
                        inputs@,
                        constant_inputs@,
                        constant_outputs@,
                        outs@,
                        c,
                    )
                },
                Err(e) => {
                    &&& !checks_pass(func_name, inputs@, output_count)
                    &&& Self::unchanged(*old(self), *final(self))
                    &&& (e matches InternalError::UnexpectedInputCount {
                        name,
                        expected,
                        found,
                        call_stack,
                    } ==> name == func_name && Some(expected) == spec_input_size(func_name)
                        && found == total_inputs(inputs@) && expected != found && call_stack@
                        == old(self).call_stack@)
                    &&& (e matches InternalError::UnexpectedOutputCount {
                        name,
                        expected,
                        found,
                        call_stack,
                    } ==> name == func_name && Some(expected) == spec_output_size(func_name)
                        && found == output_count && expected != found && call_stack@ == old(
                        self,
                    ).call_stack@)
                    &&& (e matches InternalError::MissingArg { name, arg, call_stack } ==>
                        func_name == BlackBoxFunc::Keccak256 && inputs@.len() == 0 && arg@
                            == "message_size"@ && call_stack@ == old(self).call_stack@)
                    &&& (e matches InternalError::InvalidRadix { .. } ==> false)
                },
            },
    {
        let ghost s0 = *self;
        let mut input_count: usize = 0;
        let mut gi: usize = 0;
        while gi < inputs.len()
            invariant
                gi <= inputs@.len(),
                input_count == total_inputs(inputs@.take(gi as int)),
                total_inputs(inputs@) <= usize::MAX,
            decreases inputs@.len() - gi,
        {
            proof {
                assert(inputs@.take(gi + 1).drop_last() =~= inputs@.take(gi as int));
                lemma_total_inputs_prefix(inputs@, gi + 1);
            }
            input_count = input_count + inputs[gi].len();
            gi += 1;
        }
        proof {
            assert(inputs@.take(inputs@.len() as int) =~= inputs@);
        }

        match intrinsics_check_inputs(func_name, input_count, &self.call_stack) {
            Ok(_) => (),
            Err(e) => {
                return Err(e);
            },
        }
        match intrinsics_check_outputs(func_name, output_count, &self.call_stack) {
            Ok(_) => (),
            Err(e) => {
                return Err(e);
            },
        }
        if matches!(func_name, BlackBoxFunc::Keccak256) && inputs.len() == 0 {
            return Err(
                InternalError::MissingArg {
                    name: String::new(),
                    arg: "message_size".to_string(),
                    call_stack: self.call_stack.duplicate(),
                },
            );
        }

        let mut outputs: Vec<Witness> = Vec::new();
        let mut oi: usize = 0;
        while oi < output_count
            invariant
                oi <= output_count,
                self.wf(),
                outputs@.len() == oi,
                forall|i: int|
                    0 <= i < oi ==> (#[trigger] outputs@[i]).0 as nat == s0.witness_count() + i,
                self.witness_count() == s0.witness_count() + oi,
                s0.witness_count() + output_count <= u32::MAX as nat,
                Self::bookkeeping_unchanged(s0, *self),
            decreases output_count - oi,
        {
            let w = self.next_witness_index();
            outputs.push(w);
            oi += 1;
        }
        let outputs_clone = copy_witnesses(&outputs);

        let black_box_func_call = match func_name {
            BlackBoxFunc::AND => BlackBoxFuncCall::AND {
                lhs: inputs[0][0],
                rhs: inputs[1][0],
                output: outputs[0],
            },
            BlackBoxFunc::XOR => BlackBoxFuncCall::XOR {
                lhs: inputs[0][0],
                rhs: inputs[1][0],
                output: outputs[0],
            },
            BlackBoxFunc::RANGE => BlackBoxFuncCall::RANGE { input: inputs[0][0] },
            BlackBoxFunc::SHA256 => BlackBoxFuncCall::SHA256 {
                inputs: copy_function_inputs(&inputs[0]),
                outputs,
            },
            BlackBoxFunc::Blake2s => BlackBoxFuncCall::Blake2s {
                inputs: copy_function_inputs(&inputs[0]),
                outputs,
            },
            BlackBoxFunc::Blake3 => BlackBoxFuncCall::Blake3 {
                inputs: copy_function_inputs(&inputs[0]),
                outputs,
            },
            BlackBoxFunc::SchnorrVerify => BlackBoxFuncCall::SchnorrVerify {
                public_key_x: inputs[0][0],
                public_key_y: inputs[1][0],
                signature: copy_function_inputs(&inputs[2]),
                message: copy_function_inputs(&inputs[3]),
                output: outputs[0],
            },
            BlackBoxFunc::PedersenCommitment => BlackBoxFuncCall::PedersenCommitment {
                inputs: copy_function_inputs(&inputs[0]),
                domain_separator: fe_to_u32(&constant_inputs[0]),
                outputs: (outputs[0], outputs[1]),
            },
            BlackBoxFunc::PedersenHash => BlackBoxFuncCall::PedersenHash {
                inputs: copy_function_inputs(&inputs[0]),
                domain_separator: fe_to_u32(&constant_inputs[0]),
                output: outputs[0],
            },
            BlackBoxFunc::EcdsaSecp256k1 => BlackBoxFuncCall::EcdsaSecp256k1 {
                public_key_x: copy_function_inputs(&inputs[0]),
                public_key_y: copy_function_inputs(&inputs[1]),
                signature: copy_function_inputs(&inputs[2]),
                hashed_message: copy_function_inputs(&inputs[3]),
                output: outputs[0],
            },
            BlackBoxFunc::EcdsaSecp256r1 => BlackBoxFuncCall::EcdsaSecp256r1 {
                public_key_x: copy_function_inputs(&inputs[0]),
                public_key_y: copy_function_inputs(&inputs[1]),
                signature: copy_function_inputs(&inputs[2]),
                hashed_message: copy_function_inputs(&inputs[3]),
                output: outputs[0],
            },
            BlackBoxFunc::FixedBaseScalarMul => BlackBoxFuncCall::FixedBaseScalarMul {
                low: inputs[0][0],
                high: inputs[1][0],
                outputs: (outputs[0], outputs[1]),
            },
            BlackBoxFunc::EmbeddedCurveAdd => BlackBoxFuncCall::EmbeddedCurveAdd {
                input1_x: inputs[0][0],
                input1_y: inputs[1][0],
                input2_x: inputs[2][0],
                input2_y: inputs[3][0],
                outputs: (outputs[0], outputs[1]),
            },
            BlackBoxFunc::Keccak256 => {
                let var_message_size = inputs[inputs.len() - 1][0];
                BlackBoxFuncCall::Keccak256VariableLength {
                    inputs: copy_function_inputs(&inputs[0]),
                    var_message_size,
                    outputs,
                }
            },
            BlackBoxFunc::Keccakf1600 => BlackBoxFuncCall::Keccakf1600 {
                inputs: copy_function_inputs(&inputs[0]),
                outputs,
            },
            BlackBoxFunc::RecursiveAggregation => BlackBoxFuncCall::RecursiveAggregation {
                verification_key: copy_function_inputs(&inputs[0]),
                proof: copy_function_inputs(&inputs[1]),
                public_inputs: copy_function_inputs(&inputs[2]),
                key_hash: inputs[3][0],
            },
            BlackBoxFunc::BigIntAdd => BlackBoxFuncCall::BigIntAdd {
                lhs: fe_to_u32(&constant_inputs[0]),
                rhs: fe_to_u32(&constant_inputs[1]),
                output: fe_to_u32(&constant_outputs[0]),
            },
            BlackBoxFunc::BigIntSub => BlackBoxFuncCall::BigIntSub {
                lhs: fe_to_u32(&constant_inputs[0]),
                rhs: fe_to_u32(&constant_inputs[1]),
                output: fe_to_u32(&constant_outputs[0]),
            },
            BlackBoxFunc::BigIntMul => BlackBoxFuncCall::BigIntMul {
                lhs: fe_to_u32(&constant_inputs[0]),
                rhs: fe_to_u32(&constant_inputs[1]),
                output: fe_to_u32(&constant_outputs[0]),
            },
            BlackBoxFunc::BigIntDiv => BlackBoxFuncCall::BigIntDiv {
                lhs: fe_to_u32(&constant_inputs[0]),
                rhs: fe_to_u32(&constant_inputs[1]),
                output: fe_to_u32(&constant_outputs[0]),
            },
            BlackBoxFunc::BigIntFromLeBytes => {
                let mut modulus: Vec<u8> = Vec::new();
                let mut mi: usize = 0;
                while mi < constant_inputs.len()
                    invariant
                        mi <= constant_inputs@.len(),
                        modulus@.len() == mi,
                        forall|i: int|
                            0 <= i < constant_inputs@.len() ==> (#[trigger] constant_inputs@[i])
                                .value() < 256,
                        forall|i: int|
                            0 <= i < mi ==> (#[trigger] modulus@[i]) as nat
                                == constant_inputs@[i].value(),
                    decreases constant_inputs@.len() - mi,
                {
                    let b = fe_to_u32(&constant_inputs[mi]) as u8;
                    modulus.push(b);
                    mi += 1;
                }
                BlackBoxFuncCall::BigIntFromLeBytes {
                    inputs: copy_function_inputs(&inputs[0]),
                    modulus,
                    output: fe_to_u32(&constant_outputs[0]),
                }
            },
            BlackBoxFunc::BigIntToLeBytes => BlackBoxFuncCall::BigIntToLeBytes {
                input: fe_to_u32(&constant_inputs[0]),
                outputs,
            },
            BlackBoxFunc::Poseidon2Permutation => BlackBoxFuncCall::Poseidon2Permutation {
                inputs: copy_function_inputs(&inputs[0]),
                outputs,
                len: fe_to_u32(&constant_inputs[0]),
            },
            BlackBoxFunc::Sha256Compression => BlackBoxFuncCall::Sha256Compression {
                inputs: copy_function_inputs(&inputs[0]),
                hash_values: copy_function_inputs(&inputs[1]),
                outputs,
            },
        };

        self.push_opcode(Opcode::BlackBoxFuncCall(black_box_func_call));

        Ok(outputs_clone)
    }
}

} // verus!
