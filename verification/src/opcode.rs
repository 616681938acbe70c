//! The opcode stream's data model: opcodes, black-box calls, directives,
//! embedded prover programs, source locations and errors.

use vstd::prelude::*;
use crate::expr::{Expression, Witness};
use acvm::brillig_vm::brillig::{BinaryFieldOp, MemoryAddress, Opcode as BrilligInstruction};

verus! {

/// One frame of a source call stack: a file and a span within it.
#[derive(Debug, Clone, Copy, PartialEq, Eq, Structural)]
pub struct SourceSpan {
    pub file: u32,
    pub start: u32,
    pub end: u32,
}

/// The stack of source spans stamped onto emitted opcodes. Innermost frame
/// last; an empty stack means the source position is unknown.
#[derive(Debug, Clone, PartialEq, Eq)]
pub struct CallStack {
    pub frames: Vec<SourceSpan>,
}

impl View for CallStack {
    type V = Seq<SourceSpan>;

    open spec fn view(&self) -> Seq<SourceSpan> {
        self.frames@
    }
}

impl CallStack {
    /// The empty call stack.
    pub fn new() -> (r: CallStack)
        ensures
            r@ =~= Seq::<SourceSpan>::empty(),
    {
        CallStack { frames: Vec::new() }
    }

    /// Whether no source position is recorded.
    pub fn is_empty(&self) -> (r: bool)
        ensures
            r == (self@.len() == 0),
    {
        self.frames.len() == 0
    }

    /// A copy of this call stack.
    pub fn duplicate(&self) -> (r: CallStack)
        ensures
            r@ == self@,
    {
        let mut frames: Vec<SourceSpan> = Vec::new();
        let mut i: usize = 0;
        while i < self.frames.len()
            invariant
                i <= self.frames@.len(),
                frames@ =~= self.frames@.take(i as int),
            decreases self.frames@.len() - i,
        {
            frames.push(self.frames[i]);
            proof {
                assert(frames@ =~= self.frames@.take(i + 1));
            }
            i += 1;
        }
        proof {
            assert(self.frames@.take(self.frames@.len() as int) =~= self.frames@);
        }
        CallStack { frames }
    }
}

/// A non-fatal diagnostic accumulated during lowering.
#[derive(Debug, Clone)]
pub struct SsaReport {
    pub message: String,
    pub call_stack: CallStack,
}

/// A witness together with the bit width the backend may assume for it.
#[derive(Debug, Clone, Copy, PartialEq, Eq, Structural)]
pub struct FunctionInput {
    pub witness: Witness,
    pub num_bits: u32,
}

/// The enumerated set of foreign functions the backend implements natively.
#[derive(Debug, Clone, Copy, PartialEq, Eq, Structural)]
pub enum BlackBoxFunc {
    AND,
    XOR,
    RANGE,
    SHA256,
    Blake2s,
    Blake3,
    SchnorrVerify,
    PedersenCommitment,
    PedersenHash,
    EcdsaSecp256k1,
    EcdsaSecp256r1,
    FixedBaseScalarMul,
    EmbeddedCurveAdd,
    Keccak256,
    Keccakf1600,
    RecursiveAggregation,
    BigIntAdd,
    BigIntSub,
    BigIntMul,
    BigIntDiv,
    BigIntFromLeBytes,
    BigIntToLeBytes,
    Poseidon2Permutation,
    Sha256Compression,
}

/// One black-box call, with its wiring pulled from the caller's positional
/// input groups and constants.
pub enum BlackBoxFuncCall {
    AND { lhs: FunctionInput, rhs: FunctionInput, output: Witness },
    XOR { lhs: FunctionInput, rhs: FunctionInput, output: Witness },
    RANGE { input: FunctionInput },
    SHA256 { inputs: Vec<FunctionInput>, outputs: Vec<Witness> },
    Blake2s { inputs: Vec<FunctionInput>, outputs: Vec<Witness> },
    Blake3 { inputs: Vec<FunctionInput>, outputs: Vec<Witness> },
    SchnorrVerify {
        public_key_x: FunctionInput,
        public_key_y: FunctionInput,
        signature: Vec<FunctionInput>,
        message: Vec<FunctionInput>,
        output: Witness,
    },
    PedersenCommitment {
        inputs: Vec<FunctionInput>,
        domain_separator: u32,
        outputs: (Witness, Witness),
    },
    PedersenHash { inputs: Vec<FunctionInput>, domain_separator: u32, output: Witness },
    EcdsaSecp256k1 {
        public_key_x: Vec<FunctionInput>,
        public_key_y: Vec<FunctionInput>,
        signature: Vec<FunctionInput>,
        hashed_message: Vec<FunctionInput>,
        output: Witness,
    },
    EcdsaSecp256r1 {
        public_key_x: Vec<FunctionInput>,
        public_key_y: Vec<FunctionInput>,
        signature: Vec<FunctionInput>,
        hashed_message: Vec<FunctionInput>,
        output: Witness,
    },
    FixedBaseScalarMul { low: FunctionInput, high: FunctionInput, outputs: (Witness, Witness) },
    EmbeddedCurveAdd {
        input1_x: FunctionInput,
        input1_y: FunctionInput,
        input2_x: FunctionInput,
        input2_y: FunctionInput,
        outputs: (Witness, Witness),
    },
    Keccak256VariableLength {
        inputs: Vec<FunctionInput>,
        var_message_size: FunctionInput,
        outputs: Vec<Witness>,
    },
    Keccakf1600 { inputs: Vec<FunctionInput>, outputs: Vec<Witness> },
    RecursiveAggregation {
        verification_key: Vec<FunctionInput>,
        proof: Vec<FunctionInput>,
        public_inputs: Vec<FunctionInput>,
        key_hash: FunctionInput,
    },
    BigIntAdd { lhs: u32, rhs: u32, output: u32 },
    BigIntSub { lhs: u32, rhs: u32, output: u32 },
    BigIntMul { lhs: u32, rhs: u32, output: u32 },
    BigIntDiv { lhs: u32, rhs: u32, output: u32 },
    BigIntFromLeBytes { inputs: Vec<FunctionInput>, modulus: Vec<u8>, output: u32 },
    BigIntToLeBytes { input: u32, outputs: Vec<Witness> },
    Poseidon2Permutation { inputs: Vec<FunctionInput>, outputs: Vec<Witness>, len: u32 },
    Sha256Compression {
        inputs: Vec<FunctionInput>,
        hash_values: Vec<FunctionInput>,
        outputs: Vec<Witness>,
    },
}

/// A prover-side hint: it assigns values to its output witnesses but adds no
/// constraint of its own.
#[derive(Debug, Clone, PartialEq, Eq)]
pub enum Directive {
    ToLeRadix { a: Expression, b: Vec<Witness>, radix: u32 },
    PermutationSort {
        inputs: Vec<Vec<Expression>>,
        tuple: u32,
        bits: Vec<Witness>,
        sort_by: Vec<u32>,
    },
}

/// How a value flows into an embedded prover program.
#[derive(Debug, Clone, PartialEq, Eq)]
pub enum BrilligInputs {
    Single(Expression),
    Array(Vec<Expression>),
}

/// How an embedded prover program writes its results back.
#[derive(Debug, Clone, Copy, PartialEq, Eq, Structural)]
pub enum BrilligOutputs {
    Simple(Witness),
}

/// An embedded prover-side program as carried by one opcode: its wiring, its
/// compiled bytecode and an optional predicate gating execution.
pub struct Brillig {
    pub inputs: Vec<BrilligInputs>,
    pub outputs: Vec<BrilligOutputs>,
    pub bytecode: Vec<BrilligInstruction>,
    pub predicate: Option<Expression>,
}

/// One statement of the flat circuit.
pub enum Opcode {
    AssertZero(Expression),
    BlackBoxFuncCall(BlackBoxFuncCall),
    Directive(Directive),
    Brillig(Brillig),
}

impl Opcode {
    /// Every expression the opcode carries has canonical coefficients.
    pub open spec fn wf(self) -> bool {
        match self {
            Opcode::AssertZero(e) => e.wf(),
            Opcode::BlackBoxFuncCall(_) => true,
            Opcode::Directive(d) => match d {
                Directive::ToLeRadix { a, .. } => a.wf(),
                Directive::PermutationSort { inputs, .. } => forall|i: int, j: int|
                    0 <= i < inputs@.len() && 0 <= j < inputs@[i]@.len() ==> (
                    #[trigger] inputs@[i]@[j]).wf(),
            },
            Opcode::Brillig(b) => {
                &&& forall|i: int|
                    0 <= i < b.inputs@.len() ==> match #[trigger] b.inputs@[i] {
                        BrilligInputs::Single(e) => e.wf(),
                        BrilligInputs::Array(es) => forall|j: int|
                            0 <= j < es@.len() ==> (#[trigger] es@[j]).wf(),
                    }
                &&& match b.predicate {
                    Some(e) => e.wf(),
                    None => true,
                }
            },
        }
    }
}

/// Where an opcode, or an instruction inside an embedded program, sits in
/// the final stream.
#[derive(Debug, Clone, Copy, PartialEq, Eq, Structural)]
pub enum OpcodeLocation {
    Acir(usize),
    Brillig { acir_index: usize, brillig_index: usize },
}

/// The deterministic order on locations that keys the side-channel maps:
/// plain opcode positions first, then embedded positions by pair.
pub open spec fn loc_lt(a: OpcodeLocation, b: OpcodeLocation) -> bool {
    match (a, b) {
        (OpcodeLocation::Acir(i), OpcodeLocation::Acir(j)) => i < j,
        (OpcodeLocation::Acir(_), OpcodeLocation::Brillig { .. }) => true,
        (OpcodeLocation::Brillig { .. }, OpcodeLocation::Acir(_)) => false,
        (
            OpcodeLocation::Brillig { acir_index: a1, brillig_index: b1 },
            OpcodeLocation::Brillig { acir_index: a2, brillig_index: b2 },
        ) => a1 < a2 || (a1 == a2 && b1 < b2),
    }
}

/// The order is a strict total order.
pub proof fn lemma_loc_lt_order(a: OpcodeLocation, b: OpcodeLocation, c: OpcodeLocation)
    ensures
        !loc_lt(a, a),
        a != b ==> (loc_lt(a, b) || loc_lt(b, a)),
        loc_lt(a, b) && loc_lt(b, c) ==> loc_lt(a, c),
{
}

/// Exec comparison mirroring [`loc_lt`].
pub fn loc_lt_exec(a: &OpcodeLocation, b: &OpcodeLocation) -> (r: bool)
    ensures
        r == loc_lt(*a, *b),
{
    match (a, b) {
        (OpcodeLocation::Acir(i), OpcodeLocation::Acir(j)) => i < j,
        (OpcodeLocation::Acir(_), OpcodeLocation::Brillig { .. }) => true,
        (OpcodeLocation::Brillig { .. }, OpcodeLocation::Acir(_)) => false,
        (
            OpcodeLocation::Brillig { acir_index: a1, brillig_index: b1 },
            OpcodeLocation::Brillig { acir_index: a2, brillig_index: b2 },
        ) => a1 < a2 || (a1 == a2 && b1 < b2),
    }
}

/// A fatal error that signals a broken invariant in the caller.
#[derive(Debug, Clone)]
pub enum InternalError {
    /// A required positional argument group was absent.
    MissingArg { name: String, arg: String, call_stack: CallStack },
    /// A fixed-arity black-box was called with the wrong total input count.
    UnexpectedInputCount {
        name: BlackBoxFunc,
        expected: usize,
        found: usize,
        call_stack: CallStack,
    },
    /// A fixed-arity black-box was called with the wrong output count.
    UnexpectedOutputCount {
        name: BlackBoxFunc,
        expected: usize,
        found: usize,
        call_stack: CallStack,
    },
    /// A radix decomposition was requested for a radix that is not the
    /// claimed power of two.
    InvalidRadix { radix: u32, bit_size: u32, call_stack: CallStack },
}

/// A user-facing failure of lowering.
#[derive(Debug, Clone)]
pub enum RuntimeError {
    /// A range constraint asked for at least as many bits as the field has.
    InvalidRangeConstraint { num_bits: u32, call_stack: CallStack },
    /// A broken caller invariant, promoted to a bug report by the driver.
    Internal(InternalError),
}

/// Declares the backend's brillig instruction type so that compiled
/// prover-side bytecode can be carried through opcodes. Its contents are
/// opaque here: the builder never reads an instruction.
#[verifier::external_type_specification]
#[verifier::external_body]
pub struct ExternalBrilligInstruction(BrilligInstruction);

/// A compiled prover-side program together with its internal source
/// locations and assertion messages, both keyed by instruction index in
/// strictly increasing order.
pub struct GeneratedBrillig {
    pub byte_code: Vec<BrilligInstruction>,
    pub locations: Vec<(usize, CallStack)>,
    pub assert_messages: Vec<(usize, String)>,
}

impl GeneratedBrillig {
    /// Location and message keys are strictly increasing instruction
    /// indices within the bytecode.
    pub open spec fn wf(self) -> bool {
        &&& forall|i: int, j: int|
            0 <= i < j < self.locations@.len() ==> (#[trigger] self.locations@[i]).0 < (
            #[trigger] self.locations@[j]).0
        &&& forall|i: int|
            0 <= i < self.locations@.len() ==> (#[trigger] self.locations@[i]).0
                < self.byte_code@.len()
        &&& forall|i: int, j: int|
            0 <= i < j < self.assert_messages@.len() ==> (#[trigger] self.assert_messages@[i]).0
                < (#[trigger] self.assert_messages@[j]).0
        &&& forall|i: int|
            0 <= i < self.assert_messages@.len() ==> (#[trigger] self.assert_messages@[i]).0
                < self.byte_code@.len()
    }
}

/// Relies on the backend's brillig instruction set: builds the standard
/// prover-side routine that reads one field input and writes back its
/// multiplicative inverse, or zero when the input is zero.
#[verifier::external_body]
pub fn directive_invert_byte_code() -> (r: Vec<BrilligInstruction>)
    ensures
        r@.len() == 5,
{
    let (x, one) = (MemoryAddress(0), MemoryAddress(1));
    vec![
        BrilligInstruction::CalldataCopy { destination_address: x, size: 1, offset: 0 },
        BrilligInstruction::JumpIfNot { condition: x, location: 4 },
        BrilligInstruction::Const { destination: one, bit_size: 254, value: acvm::FieldElement::one() },
        BrilligInstruction::BinaryFieldOp { op: BinaryFieldOp::Div, lhs: one, rhs: x, destination: x },
        BrilligInstruction::Stop { return_data_offset: 0, return_data_size: 1 },
    ]
}

/// The standard inversion program, with no internal locations or messages.
pub fn directive_invert() -> (r: GeneratedBrillig)
    ensures
        r.wf(),
        r.byte_code@.len() == 5,
        r.locations@.len() == 0,
        r.assert_messages@.len() == 0,
{
    GeneratedBrillig {
        byte_code: directive_invert_byte_code(),
        locations: Vec::new(),
        assert_messages: Vec::new(),
    }
}

} // verus!
