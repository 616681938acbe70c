//! The builder itself: witness allocation, the opcode stream with its
//! side-channel maps, and the expression reducer.

use vstd::prelude::*;
use crate::expr::{
    Expression, ExprModel, Witness, model_bilinear, model_mul, model_scaled, model_sub,
};
use crate::field::{
    FieldElement, be_val, big_mul_u32, fe_from_be_bytes_reduce, fe_max_num_bits, fe_neg,
    field_max_num_bits, field_modulus,
};
use crate::locmap::LocationMap;
use crate::opcode::{
    BlackBoxFuncCall, Brillig, BrilligInputs, BrilligOutputs, CallStack, Directive,
    FunctionInput, GeneratedBrillig, InternalError, Opcode, OpcodeLocation, RuntimeError,
    SourceSpan, SsaReport, directive_invert,
};
use vstd::arithmetic::power::pow;

verus! {

/// The model of the expression `1 * w + 0`.
pub open spec fn witness_expr_model(w: Witness) -> ExprModel {
    ExprModel { mul: Seq::empty(), lin: seq![(1nat, w.0)], q: 0 }
}

/// Whether `k` is the plain location of an opcode appended between index
/// `lo` (inclusive) and `hi` (exclusive).
pub open spec fn is_appended_acir(k: OpcodeLocation, lo: int, hi: int) -> bool {
    k matches OpcodeLocation::Acir(i) && lo <= i < hi
}

/// The accumulating builder for one circuit. Callers mutate it only
/// through its primitives; the fields are exposed so that contracts and the
/// downstream packager can read them.
pub struct GeneratedAcir {
    /// The index of the most recently allocated witness; absent while no
    /// witness has ever been allocated. Read it through
    /// `current_witness_index` and advance it through `next_witness_index`.
    pub current_witness_index: Option<u32>,
    /// The opcodes of which the finished circuit will consist; drained by
    /// `take_opcodes`.
    pub opcodes: Vec<Opcode>,
    /// The witnesses that make up the program's return value. Repeated
    /// indices are meaningful and must be kept.
    pub return_witnesses: Vec<Witness>,
    /// The witnesses that are inputs of the program.
    pub input_witnesses: Vec<Witness>,
    /// The source call stack that produced each opcode.
    pub locations: LocationMap<CallStack>,
    /// The call stack stamped onto the next opcode pushed; empty when the
    /// source position is unknown.
    pub call_stack: CallStack,
    /// The assertion message attached to an opcode, if any.
    pub assert_messages: LocationMap<String>,
    /// Non-fatal diagnostics accumulated during lowering.
    pub warnings: Vec<SsaReport>,
}

impl GeneratedAcir {
    /// How many witnesses have been allocated so far.
    pub open spec fn witness_count(self) -> nat {
        match self.current_witness_index {
            None => 0,
            Some(c) => c as nat + 1,
        }
    }

    /// The opcodes accumulated so far.
    pub open spec fn opcodes_seq(self) -> Seq<Opcode> {
        self.opcodes@
    }

    /// Whether `k` addresses an opcode of the stream — an in-range plain
    /// index, or an in-range instruction of an embedded program.
    pub open spec fn loc_in_range(self, k: OpcodeLocation) -> bool {
        match k {
            OpcodeLocation::Acir(i) => i < self.opcodes_seq().len(),
            OpcodeLocation::Brillig { acir_index, brillig_index } => acir_index
                < self.opcodes_seq().len() && (self.opcodes_seq()[acir_index as int] matches Opcode::Brillig(
                b,
            ) && brillig_index < b.bytecode@.len()),
        }
    }

    /// The builder's invariant: side-channel maps are well formed and refer
    /// only to opcodes of the stream, and every opcode carries canonical
    /// coefficients.
    pub open spec fn wf(self) -> bool {
        &&& self.locations.wf()
        &&& self.assert_messages.wf()
        &&& forall|i: int| 0 <= i < self.opcodes_seq().len() ==> (#[trigger] self.opcodes_seq()[i]).wf()
        &&& forall|k: OpcodeLocation|
            self.locations@.dom().contains(k) ==> #[trigger] self.loc_in_range(k)
        &&& forall|k: OpcodeLocation|
            self.assert_messages@.dom().contains(k) ==> #[trigger] self.loc_in_range(k)
    }

    /// Everything except the witness counter is unchanged between `pre` and
    /// `post`.
    pub open spec fn bookkeeping_unchanged(pre: GeneratedAcir, post: GeneratedAcir) -> bool {
        &&& post.opcodes_seq() == pre.opcodes_seq()
        &&& post.locations.entries@ == pre.locations.entries@
        &&& post.assert_messages.entries@ == pre.assert_messages.entries@
        &&& post.return_witnesses@ == pre.return_witnesses@
        &&& post.input_witnesses@ == pre.input_witnesses@
        &&& post.call_stack@ == pre.call_stack@
        &&& post.warnings@ == pre.warnings@
    }

    /// Nothing observable changed between `pre` and `post`.
    pub open spec fn unchanged(pre: GeneratedAcir, post: GeneratedAcir) -> bool {
        &&& Self::bookkeeping_unchanged(pre, post)
        &&& post.witness_count() == pre.witness_count()
    }

    /// The stream of `post` extends the stream of `pre`: old opcodes are
    /// kept in place, every opcode appended under a non-empty call stack was
    /// stamped with it, and nothing else moved.
    pub open spec fn stream_extended(pre: GeneratedAcir, post: GeneratedAcir) -> bool {
        &&& post.opcodes_seq().len() >= pre.opcodes_seq().len()
        &&& post.opcodes_seq().subrange(0, pre.opcodes_seq().len() as int) == pre.opcodes_seq()
        &&& post.witness_count() >= pre.witness_count()
        &&& post.return_witnesses@ == pre.return_witnesses@
        &&& post.input_witnesses@ == pre.input_witnesses@
        &&& post.call_stack@ == pre.call_stack@
        &&& post.warnings@ == pre.warnings@
        &&& post.assert_messages.entries@ == pre.assert_messages.entries@
        &&& if pre.call_stack@.len() == 0 {
            post.locations.entries@ == pre.locations.entries@
        } else {
            &&& forall|k: OpcodeLocation|
                #[trigger] post.locations@.contains_key(k) <==> (pre.locations@.contains_key(k)
                    || is_appended_acir(
                    k,
                    pre.opcodes_seq().len() as int,
                    post.opcodes_seq().len() as int,
                ))
            &&& forall|k: OpcodeLocation|
                #[trigger] post.locations@.contains_key(k) ==> post.locations@[k] == (
                if is_appended_acir(
                    k,
                    pre.opcodes_seq().len() as int,
                    post.opcodes_seq().len() as int,
                ) {
                    pre.call_stack@
                } else {
                    pre.locations@[k]
                })
        }
    }

    /// Extension composes: two extensions in a row are one extension.
    pub proof fn lemma_stream_extended_trans(
        a: GeneratedAcir,
        b: GeneratedAcir,
        c: GeneratedAcir,
    )
        requires
            Self::stream_extended(a, b),
            Self::stream_extended(b, c),
        ensures
            Self::stream_extended(a, c),
    {
        assert(c.opcodes_seq().subrange(0, a.opcodes_seq().len() as int) =~= c.opcodes_seq()
            .subrange(0, b.opcodes_seq().len() as int).subrange(0, a.opcodes_seq().len() as int));
        if a.call_stack@.len() > 0 {
            assert forall|k: OpcodeLocation| #[trigger]
                c.locations@.contains_key(k) implies c.locations@[k] == (
            if is_appended_acir(
                k,
                a.opcodes_seq().len() as int,
                c.opcodes_seq().len() as int,
            ) {
                a.call_stack@
            } else {
                a.locations@[k]
            }) by {
                assert(b.locations@.contains_key(k) || is_appended_acir(
                    k,
                    b.opcodes_seq().len() as int,
                    c.opcodes_seq().len() as int,
                ));
            }
        }
    }

    /// A fresh witness `r` was allocated and constrained equal to the
    /// expression `e`: exactly one `AssertZero(e - r)` was appended.
    pub open spec fn reduced_to_fresh(
        pre: GeneratedAcir,
        post: GeneratedAcir,
        e: ExprModel,
        r: Witness,
    ) -> bool {
        &&& r.0 as nat == pre.witness_count()
        &&& post.witness_count() == pre.witness_count() + 1
        &&& post.opcodes_seq().len() == pre.opcodes_seq().len() + 1
        &&& Self::stream_extended(pre, post)
        &&& post.opcodes_seq().last() matches Opcode::AssertZero(c) && c.wf() && c@ == model_sub(
            e,
            witness_expr_model(r),
        )
    }

    /// A step that changes nothing but the witness counter, and never
    /// lowers it, is an extension of the stream.
    pub proof fn lemma_unchanged_extends(pre: GeneratedAcir, post: GeneratedAcir)
        requires
            Self::bookkeeping_unchanged(pre, post),
            post.witness_count() >= pre.witness_count(),
        ensures
            Self::stream_extended(pre, post),
    {
        assert(post.opcodes_seq().subrange(0, pre.opcodes_seq().len() as int) =~= pre
            .opcodes_seq());
    }

    /// Keeping the stream and both side-channel maps fixed keeps the
    /// invariant, whatever happened to the other fields.
    pub proof fn lemma_wf_preserved(pre: GeneratedAcir, post: GeneratedAcir)
        requires
            pre.wf(),
            post.opcodes_seq() == pre.opcodes_seq(),
            post.locations.entries@ == pre.locations.entries@,
            post.assert_messages.entries@ == pre.assert_messages.entries@,
        ensures
            post.wf(),
    {
        assert forall|k: OpcodeLocation|
            post.locations@.dom().contains(k) implies #[trigger] post.loc_in_range(k) by {
            assert(pre.locations@.dom().contains(k));
            assert(pre.loc_in_range(k));
        }
        assert forall|k: OpcodeLocation|
            post.assert_messages@.dom().contains(k) implies #[trigger] post.loc_in_range(k) by {
            assert(pre.assert_messages@.dom().contains(k));
            assert(pre.loc_in_range(k));
        }
    }

    /// A builder with no witnesses, no opcodes, and empty side channels.
    pub fn new() -> (r: GeneratedAcir)
        ensures
            r.wf(),
            r.witness_count() == 0,
            r.opcodes_seq().len() == 0,
            r.locations.entries@.len() == 0,
            r.assert_messages.entries@.len() == 0,
            r.return_witnesses@.len() == 0,
            r.input_witnesses@.len() == 0,
            r.call_stack@.len() == 0,
            r.warnings@.len() == 0,
    {
        GeneratedAcir {
            current_witness_index: None,
            opcodes: Vec::new(),
            return_witnesses: Vec::new(),
            input_witnesses: Vec::new(),
            locations: LocationMap::new(),
            call_stack: CallStack::new(),
            assert_messages: LocationMap::new(),
            warnings: Vec::new(),
        }
    }

    /// The most recently allocated witness, or the zero witness when none
    /// has ever been allocated.
    pub fn current_witness_index(&self) -> (r: Witness)
        ensures
            r.0 as nat == if self.witness_count() == 0 {
                0nat
            } else {
                (self.witness_count() - 1) as nat
            },
    {
        match self.current_witness_index {
            Some(c) => Witness(c),
            None => Witness(0),
        }
    }

    /// Advances the counter and returns the freshly allocated witness.
    /// Indices are handed out consecutively from zero.
    pub fn next_witness_index(&mut self) -> (r: Witness)
        requires
            old(self).witness_count() < u32::MAX as nat,
        ensures
            final(self).witness_count() == old(self).witness_count() + 1,
            r.0 as nat == old(self).witness_count(),
            Self::bookkeeping_unchanged(*old(self), *final(self)),
            old(self).wf() ==> final(self).wf(),
    {
        let r = match self.current_witness_index {
            Some(c) => {
                self.current_witness_index = Some(c + 1);
                Witness(c + 1)
            },
            None => {
                self.current_witness_index = Some(0);
                Witness(0)
            },
        };
        proof {
            if old(self).wf() {
                Self::lemma_wf_preserved(*old(self), *self);
            }
        }
        r
    }

    /// Appends an opcode and, when the current call stack is non-empty,
    /// records that stack against the opcode's location.
    pub fn push_opcode(&mut self, opcode: Opcode)
        requires
            old(self).wf(),
            opcode.wf(),
        ensures
            final(self).wf(),
            final(self).opcodes_seq() == old(self).opcodes_seq().push(opcode),
            final(self).witness_count() == old(self).witness_count(),
            Self::stream_extended(*old(self), *final(self)),
    {
        let ghost pre = *self;
        self.opcodes.push(opcode);
        proof {
            assert(self.opcodes@.subrange(0, pre.opcodes@.len() as int) =~= pre.opcodes@);
        }
        if !self.call_stack.is_empty() {
            let loc = self.last_acir_opcode_location();
            let cs = self.call_stack.duplicate();
            self.locations.insert(loc, cs);
            proof {
                assert(self.locations@ == pre.locations@.insert(loc, pre.call_stack@));
                assert(is_appended_acir(
                    loc,
                    pre.opcodes_seq().len() as int,
                    self.opcodes_seq().len() as int,
                ));
                assert forall|k: OpcodeLocation|
                    is_appended_acir(
                        k,
                        pre.opcodes_seq().len() as int,
                        self.opcodes_seq().len() as int,
                    ) implies k == loc by {}
                assert forall|k: OpcodeLocation| #[trigger]
                    self.locations@.contains_key(k) implies (pre.locations@.contains_key(k)
                    || is_appended_acir(
                    k,
                    pre.opcodes_seq().len() as int,
                    self.opcodes_seq().len() as int,
                )) by {
                    if k != loc {
                        assert(pre.locations@.contains_key(k));
                    }
                }
                assert forall|k: OpcodeLocation| #[trigger]
                    self.locations@.contains_key(k) implies self.locations@[k] == (
                if is_appended_acir(
                    k,
                    pre.opcodes_seq().len() as int,
                    self.opcodes_seq().len() as int,
                ) {
                    pre.call_stack@
                } else {
                    pre.locations@[k]
                }) by {
                    if k == loc {
                        assert(self.locations@[k] == pre.call_stack@);
                    } else {
                        assert(self.locations@[k] == pre.locations@[k]);
                    }
                }
            }
        }
        proof {
            assert forall|k: OpcodeLocation|
                self.locations@.dom().contains(k) implies #[trigger] self.loc_in_range(k) by {
                if pre.locations@.dom().contains(k) {
                    assert(pre.loc_in_range(k));
                }
            }
            assert forall|k: OpcodeLocation|
                self.assert_messages@.dom().contains(k) implies #[trigger] self.loc_in_range(
                k,
            ) by {
                assert(pre.loc_in_range(k));
            }
        }
    }

    /// The accumulated opcodes, leaving the stream empty. The builder's
    /// other fields are untouched, so its location maps now describe the
    /// drained stream.
    pub fn take_opcodes(&mut self) -> (r: Vec<Opcode>)
        ensures
            r@ == old(self).opcodes_seq(),
            final(self).opcodes_seq().len() == 0,
            final(self).witness_count() == old(self).witness_count(),
            final(self).locations.entries@ == old(self).locations.entries@,
            final(self).assert_messages.entries@ == old(self).assert_messages.entries@,
            final(self).return_witnesses@ == old(self).return_witnesses@,
            final(self).input_witnesses@ == old(self).input_witnesses@,
            final(self).call_stack@ == old(self).call_stack@,
            final(self).warnings@ == old(self).warnings@,
    {
        let mut taken: Vec<Opcode> = Vec::new();
        core::mem::swap(&mut taken, &mut self.opcodes);
        taken
    }

    /// The location of the most recently pushed opcode.
    pub fn last_acir_opcode_location(&self) -> (r: OpcodeLocation)
        requires
            self.opcodes_seq().len() > 0,
        ensures
            r matches OpcodeLocation::Acir(i) && i + 1 == self.opcodes_seq().len(),
    {
        OpcodeLocation::Acir(self.opcodes.len() - 1)
    }

    /// Appends `AssertZero(expr)`: the circuit fails unless `expr` is zero.
    pub fn assert_is_zero(&mut self, expr: Expression)
        requires
            old(self).wf(),
            expr.wf(),
        ensures
            final(self).wf(),
            final(self).opcodes_seq() == old(self).opcodes_seq().push(Opcode::AssertZero(expr)),
            final(self).witness_count() == old(self).witness_count(),
            Self::stream_extended(*old(self), *final(self)),
    {
        self.push_opcode(Opcode::AssertZero(expr));
    }

    /// Allocates a fresh witness and constrains it to equal `expression`,
    /// so that the result can stand for the expression wherever a degree-one
    /// handle is needed.
    pub fn create_witness_for_expression(&mut self, expression: &Expression) -> (r: Witness)
        requires
            old(self).wf(),
            expression.wf(),
            old(self).witness_count() < u32::MAX as nat,
        ensures
            final(self).wf(),
            Self::reduced_to_fresh(*old(self), *final(self), expression@, r),
    {
        let fresh_witness = self.next_witness_index();
        let w_expr = Expression::from_witness(fresh_witness);
        let constraint = expression.sub(&w_expr);
        proof {
            assert(w_expr@ =~= witness_expr_model(fresh_witness));
        }
        self.assert_is_zero(constraint);
        fresh_witness
    }

    /// The witness an expression already narrows to, or a fresh witness
    /// constrained equal to it. An expression of the form `1 * w` is
    /// returned as `w` with nothing emitted.
    pub fn get_or_create_witness(&mut self, expr: &Expression) -> (r: Witness)
        requires
            old(self).wf(),
            expr.wf(),
            old(self).witness_count() < u32::MAX as nat,
        ensures
            final(self).wf(),
            match expr@.as_witness() {
                Some(w) => r == w && Self::unchanged(*old(self), *final(self)),
                None => Self::reduced_to_fresh(*old(self), *final(self), expr@, r),
            },
    {
        match expr.to_witness() {
            Some(witness) => witness,
            None => self.create_witness_for_expression(expr),
        }
    }

    /// Appends a witness to the program's return witnesses. Duplicates are
    /// legal and kept.
    pub fn push_return_witness(&mut self, witness: Witness)
        ensures
            final(self).return_witnesses@ == old(self).return_witnesses@.push(witness),
            final(self).opcodes_seq() == old(self).opcodes_seq(),
            final(self).witness_count() == old(self).witness_count(),
            final(self).locations.entries@ == old(self).locations.entries@,
            final(self).assert_messages.entries@ == old(self).assert_messages.entries@,
            final(self).input_witnesses@ == old(self).input_witnesses@,
            final(self).call_stack@ == old(self).call_stack@,
            final(self).warnings@ == old(self).warnings@,
            old(self).wf() ==> final(self).wf(),
    {
        self.return_witnesses.push(witness);
        proof {
            if old(self).wf() {
                Self::lemma_wf_preserved(*old(self), *self);
            }
        }
    }

    /// Emits a range check for `witness` against `num_bits`: the backend
    /// enforces `0 <= witness < 2^num_bits`. A width that reaches the
    /// field's bit length is rejected with `InvalidRangeConstraint` and
    /// nothing is emitted.
    pub fn range_constraint(&mut self, witness: Witness, num_bits: u32) -> (r: Result<
        (),
        RuntimeError,
    >)
        requires
            old(self).wf(),
        ensures
            final(self).wf(),
            final(self).witness_count() == old(self).witness_count(),
            match r {
                Ok(_) => {
                    &&& num_bits < field_max_num_bits()
                    &&& Self::stream_extended(*old(self), *final(self))
                    &&& final(self).opcodes_seq().len() == old(self).opcodes_seq().len() + 1
                    &&& final(self).opcodes_seq().last() matches Opcode::BlackBoxFuncCall(
                        BlackBoxFuncCall::RANGE { input },
                    ) && input == (FunctionInput { witness, num_bits })
                },
                Err(e) => {
                    &&& num_bits >= field_max_num_bits()
                    &&& Self::unchanged(*old(self), *final(self))
                    &&& e matches RuntimeError::InvalidRangeConstraint {
                        num_bits: nb,
                        call_stack,
                    } && nb == field_max_num_bits() && call_stack@ == old(self).call_stack@
                },
            },
    {
        let max_bits = fe_max_num_bits();
        if num_bits >= max_bits {
            return Err(
                RuntimeError::InvalidRangeConstraint {
                    num_bits: max_bits,
                    call_stack: self.call_stack.duplicate(),
                },
            );
        }
        let constraint = Opcode::BlackBoxFuncCall(
            BlackBoxFuncCall::RANGE { input: FunctionInput { witness, num_bits } },
        );
        self.push_opcode(constraint);
        Ok(())
    }
}

/// The locations of `pre` after one opcode was appended: unchanged under an
/// empty call stack, else with the new opcode's location bound to it.
pub open spec fn stamped_base(pre: GeneratedAcir) -> Map<OpcodeLocation, Seq<SourceSpan>> {
    if pre.call_stack@.len() == 0 {
        pre.locations@
    } else {
        pre.locations@.insert(
            OpcodeLocation::Acir(pre.opcodes_seq().len() as usize),
            pre.call_stack@,
        )
    }
}

/// `base` with the first `i` location entries of an embedded program at
/// opcode index `n` merged in.
pub open spec fn merged_locs(
    base: Map<OpcodeLocation, Seq<SourceSpan>>,
    n: usize,
    entries: Seq<(usize, CallStack)>,
    i: int,
) -> Map<OpcodeLocation, Seq<SourceSpan>>
    decreases i,
{
    if i <= 0 {
        base
    } else {
        merged_locs(base, n, entries, i - 1).insert(
            OpcodeLocation::Brillig { acir_index: n, brillig_index: entries[i - 1].0 },
            entries[i - 1].1@,
        )
    }
}

/// `base` with the first `i` assertion messages of an embedded program at
/// opcode index `n` merged in.
pub open spec fn merged_msgs(
    base: Map<OpcodeLocation, Seq<char>>,
    n: usize,
    entries: Seq<(usize, String)>,
    i: int,
) -> Map<OpcodeLocation, Seq<char>>
    decreases i,
{
    if i <= 0 {
        base
    } else {
        merged_msgs(base, n, entries, i - 1).insert(
            OpcodeLocation::Brillig { acir_index: n, brillig_index: entries[i - 1].0 },
            entries[i - 1].1@,
        )
    }
}

/// The model of the constraint `t * z + y - 1 == 0` that makes the
/// is-zero output boolean.
pub open spec fn y_constraint_model(t: u32, z: u32, y: u32) -> ExprModel {
    ExprModel {
        mul: seq![(1nat, t, z)],
        lin: seq![(1nat, y)],
        q: (field_modulus() - 1) as nat,
    }
}

/// The model of the constraint `t * y == 0` that pins the is-zero output.
pub open spec fn ty_constraint_model(t: u32, y: u32) -> ExprModel {
    ExprModel { mul: seq![(1nat, t, y)], lin: Seq::empty(), q: 0 }
}

/// The witness the is-zero gadget can use directly as its handle for `e`:
/// the expression itself when it is exactly a witness, or the negation's
/// witness, since `e == 0` and `-e == 0` agree.
pub open spec fn is_zero_handle(e: ExprModel) -> Option<u32> {
    if e.as_witness() is Some {
        Some(e.as_witness()->Some_0.0)
    } else if model_scaled((field_modulus() - 1) as nat, e).as_witness() is Some {
        Some(model_scaled((field_modulus() - 1) as nat, e).as_witness()->Some_0.0)
    } else {
        None
    }
}

impl GeneratedAcir {
    /// The inverse hint and the two pinning constraints emitted by the
    /// is-zero gadget, starting at opcode index `base`: the embedded
    /// inversion program from handle `t` into `z`, then
    /// `AssertZero(t*z + y - 1)` and `AssertZero(t*y)`.
    pub open spec fn inverse_and_pin(
        post: GeneratedAcir,
        base: int,
        t: u32,
        z: u32,
        y: u32,
    ) -> bool {
        &&& 0 <= base && base + 3 <= post.opcodes_seq().len()
        &&& post.opcodes_seq()[base] matches Opcode::Brillig(b) && b.inputs@.len() == 1 && (
        b.inputs@[0] matches BrilligInputs::Single(e) && e@ == witness_expr_model(Witness(t)))
            && b.outputs@ == seq![BrilligOutputs::Simple(Witness(z))] && (
        b.predicate matches Some(p) && p@.is_const() && p@.q == 1)
        &&& post.opcodes_seq()[base + 1] matches Opcode::AssertZero(c) && c@
            == y_constraint_model(t, z, y)
        &&& post.opcodes_seq()[base + 2] matches Opcode::AssertZero(c) && c@
            == ty_constraint_model(t, y)
    }

    /// What the is-zero gadget emits for the expression `t`, and which
    /// witness it returns. When `t` or its negation is already a witness it
    /// is reused; otherwise the negation is reduced to a fresh witness
    /// first.
    pub open spec fn is_zero_emitted(
        pre: GeneratedAcir,
        post: GeneratedAcir,
        t: ExprModel,
        r: Witness,
    ) -> bool {
        match is_zero_handle(t) {
            Some(tw) => {
                &&& post.witness_count() == pre.witness_count() + 2
                &&& post.opcodes_seq().len() == pre.opcodes_seq().len() + 3
                &&& Self::inverse_and_pin(
                    post,
                    pre.opcodes_seq().len() as int,
                    tw,
                    pre.witness_count() as u32,
                    r.0,
                )
                &&& r.0 as nat == pre.witness_count() + 1
            },
            None => {
                &&& post.witness_count() == pre.witness_count() + 3
                &&& post.opcodes_seq().len() == pre.opcodes_seq().len() + 4
                &&& post.opcodes_seq()[pre.opcodes_seq().len() as int] matches Opcode::AssertZero(
                    c,
                ) && c@ == model_sub(
                    model_scaled((field_modulus() - 1) as nat, t),
                    witness_expr_model(Witness(pre.witness_count() as u32)),
                )
                &&& Self::inverse_and_pin(
                    post,
                    pre.opcodes_seq().len() as int + 1,
                    pre.witness_count() as u32,
                    (pre.witness_count() + 1) as u32,
                    r.0,
                )
                &&& r.0 as nat == pre.witness_count() + 2
            },
        }
    }

    /// Embeds a prover-side program as one opcode and merges the program's
    /// internal source locations and assertion messages into the builder's
    /// maps, keyed by the new opcode's index and the instruction index.
    pub fn brillig(
        &mut self,
        predicate: Option<Expression>,
        generated_brillig: GeneratedBrillig,
        inputs: Vec<BrilligInputs>,
        outputs: Vec<BrilligOutputs>,
    )
        requires
            old(self).wf(),
            generated_brillig.wf(),
            predicate matches Some(e) ==> e.wf(),
            forall|i: int|
                0 <= i < inputs@.len() ==> match #[trigger] inputs@[i] {
                    BrilligInputs::Single(e) => e.wf(),
                    BrilligInputs::Array(es) => forall|j: int|
                        0 <= j < es@.len() ==> (#[trigger] es@[j]).wf(),
                },
        ensures
            final(self).wf(),
            final(self).witness_count() == old(self).witness_count(),
            final(self).opcodes_seq().len() == old(self).opcodes_seq().len() + 1,
            final(self).opcodes_seq().subrange(0, old(self).opcodes_seq().len() as int) == old(
                self,
            ).opcodes_seq(),
            final(self).opcodes_seq().last() matches Opcode::Brillig(b) && b.inputs@ == inputs@
                && b.outputs@ == outputs@ && b.bytecode@ == generated_brillig.byte_code@
                && b.predicate == predicate,
            final(self).return_witnesses@ == old(self).return_witnesses@,
            final(self).input_witnesses@ == old(self).input_witnesses@,
            final(self).call_stack@ == old(self).call_stack@,
            final(self).warnings@ == old(self).warnings@,
            final(self).locations@ == merged_locs(
                stamped_base(*old(self)),
                old(self).opcodes_seq().len() as usize,
                generated_brillig.locations@,
                generated_brillig.locations@.len() as int,
            ),
            final(self).assert_messages@ == merged_msgs(
                old(self).assert_messages@,
                old(self).opcodes_seq().len() as usize,
                generated_brillig.assert_messages@,
                generated_brillig.assert_messages@.len() as int,
            ),
            generated_brillig.locations@.len() == 0 && generated_brillig.assert_messages@.len()
                == 0 ==> Self::stream_extended(*old(self), *final(self)),
    {
        let ghost pre = *self;
        let acir_index = self.opcodes.len();
        let GeneratedBrillig { byte_code, locations: inner_locs, assert_messages: inner_msgs } =
            generated_brillig;
        let opcode = Opcode::Brillig(
            Brillig { inputs, outputs, bytecode: byte_code, predicate },
        );
        self.push_opcode(opcode);
        let ghost mid = *self;
        proof {
            assert(mid.locations@ == stamped_base(pre));
        }
        let mut i: usize = 0;
        while i < inner_locs.len()
            invariant
                i <= inner_locs@.len(),
                self.wf(),
                pre.wf(),
                generated_brillig.wf(),
                inner_locs@ == generated_brillig.locations@,
                acir_index as int == pre.opcodes_seq().len(),
                self.opcodes_seq() == mid.opcodes_seq(),
                mid.opcodes_seq().len() == pre.opcodes_seq().len() + 1,
                mid.opcodes_seq().last() matches Opcode::Brillig(b) && b.bytecode@
                    == generated_brillig.byte_code@,
                self.witness_count() == mid.witness_count(),
                self.locations.wf(),
                self.locations@ == merged_locs(
                    stamped_base(pre),
                    acir_index,
                    inner_locs@,
                    i as int,
                ),
                inner_locs@.len() == 0 ==> self.locations.entries@ == mid.locations.entries@,
                self.assert_messages.entries@ == mid.assert_messages.entries@,
                self.return_witnesses@ == mid.return_witnesses@,
                self.input_witnesses@ == mid.input_witnesses@,
                self.call_stack@ == mid.call_stack@,
                self.warnings@ == mid.warnings@,
                self.current_witness_index == mid.current_witness_index,
            decreases inner_locs@.len() - i,
        {
            let ghost before = *self;
            let key = OpcodeLocation::Brillig {
                acir_index,
                brillig_index: inner_locs[i].0,
            };
            let cs = inner_locs[i].1.duplicate();
            self.locations.insert(key, cs);
            proof {
                assert(self.loc_in_range(key));
                assert forall|k: OpcodeLocation|
                    self.locations@.dom().contains(k) implies #[trigger] self.loc_in_range(
                    k,
                ) by {
                    if k != key {
                        assert(before.locations@.dom().contains(k));
                        assert(before.loc_in_range(k));
                    }
                }
                assert forall|k: OpcodeLocation|
                    self.assert_messages@.dom().contains(k) implies #[trigger] self.loc_in_range(
                    k,
                ) by {
                    assert(before.loc_in_range(k));
                }
            }
            i += 1;
        }
        let ghost mid2 = *self;
        let mut i: usize = 0;
        while i < inner_msgs.len()
            invariant
                i <= inner_msgs@.len(),
                self.wf(),
                pre.wf(),
                generated_brillig.wf(),
                inner_msgs@ == generated_brillig.assert_messages@,
                acir_index as int == pre.opcodes_seq().len(),
                self.opcodes_seq() == mid.opcodes_seq(),
                mid.opcodes_seq().len() == pre.opcodes_seq().len() + 1,
                mid.opcodes_seq().last() matches Opcode::Brillig(b) && b.bytecode@
                    == generated_brillig.byte_code@,
                self.witness_count() == mid.witness_count(),
                self.assert_messages.wf(),
                self.assert_messages@ == merged_msgs(
                    mid.assert_messages@,
                    acir_index,
                    inner_msgs@,
                    i as int,
                ),
                inner_msgs@.len() == 0 ==> self.assert_messages.entries@
                    == mid.assert_messages.entries@,
                self.locations.entries@ == mid2.locations.entries@,
                inner_locs@.len() == 0 ==> self.locations.entries@ == mid.locations.entries@,
                inner_locs@ == generated_brillig.locations@,
                self.return_witnesses@ == mid.return_witnesses@,
                self.input_witnesses@ == mid.input_witnesses@,
                self.call_stack@ == mid.call_stack@,
                self.warnings@ == mid.warnings@,
                self.current_witness_index == mid.current_witness_index,
            decreases inner_msgs@.len() - i,
        {
            let ghost before = *self;
            let key = OpcodeLocation::Brillig {
                acir_index,
                brillig_index: inner_msgs[i].0,
            };
            let msg = inner_msgs[i].1.clone();
            self.assert_messages.insert(key, msg);
            proof {
                assert(self.loc_in_range(key));
                assert forall|k: OpcodeLocation|
                    self.assert_messages@.dom().contains(k) implies #[trigger] self.loc_in_range(
                    k,
                ) by {
                    if k != key {
                        assert(before.assert_messages@.dom().contains(k));
                        assert(before.loc_in_range(k));
                    }
                }
                assert forall|k: OpcodeLocation|
                    self.locations@.dom().contains(k) implies #[trigger] self.loc_in_range(
                    k,
                ) by {
                    assert(before.loc_in_range(k));
                }
            }
            i += 1;
        }
        proof {
            if generated_brillig.locations@.len() == 0 && generated_brillig.assert_messages@.len()
                == 0 {
                assert(Self::stream_extended(pre, *self));
            }
        }
    }

    /// Allocates a fresh witness and embeds the standard inversion program
    /// with `expr` as input and that witness as output, gated by the
    /// constant-one predicate. The result is a prover hint only: nothing
    /// constrains it to be the inverse, which is the caller's duty.
    pub fn brillig_inverse(&mut self, expr: Expression) -> (r: Witness)
        requires
            old(self).wf(),
            expr.wf(),
            old(self).witness_count() < u32::MAX as nat,
        ensures
            final(self).wf(),
            r.0 as nat == old(self).witness_count(),
            final(self).witness_count() == old(self).witness_count() + 1,
            final(self).opcodes_seq().len() == old(self).opcodes_seq().len() + 1,
            Self::stream_extended(*old(self), *final(self)),
            final(self).opcodes_seq().last() matches Opcode::Brillig(b) && b.inputs@.len() == 1
                && (b.inputs@[0] matches BrilligInputs::Single(e) && e@ == expr@) && b.outputs@
                == seq![BrilligOutputs::Simple(r)] && (b.predicate matches Some(p)
                && p@.is_const() && p@.q == 1) && b.bytecode@.len() == 5,
    {
        let inverted_witness = self.next_witness_index();
        let inverse_code = directive_invert();
        let mut inputs: Vec<BrilligInputs> = Vec::new();
        inputs.push(BrilligInputs::Single(expr));
        let mut outputs: Vec<BrilligOutputs> = Vec::new();
        outputs.push(BrilligOutputs::Simple(inverted_witness));
        let ghost mid = *self;
        self.brillig(Some(Expression::one()), inverse_code, inputs, outputs);
        proof {
            assert(final(self).opcodes_seq().last() matches Opcode::Brillig(b) && b.outputs@
                =~= seq![BrilligOutputs::Simple(inverted_witness)]);
            assert(Self::stream_extended(mid, *self));
        }
        inverted_witness
    }

    /// Returns a witness constrained to be 1 when `t_expr` is zero and 0
    /// otherwise, by the two-constraint protocol: an unconstrained inverse
    /// hint `z`, then `AssertZero(t*z + y - 1)` and `AssertZero(t*y)`.
    pub fn is_zero(&mut self, t_expr: &Expression) -> (r: Witness)
        requires
            old(self).wf(),
            t_expr.wf(),
            old(self).witness_count() + 3 <= u32::MAX as nat,
        ensures
            final(self).wf(),
            Self::stream_extended(*old(self), *final(self)),
            Self::is_zero_emitted(*old(self), *final(self), t_expr@, r),
    {
        let ghost s0 = *self;
        let t_witness = match t_expr.to_witness() {
            Some(witness) => witness,
            None => {
                let neg_one = fe_neg(&FieldElement::one());
                let negated_expr = t_expr.scaled(&neg_one);
                self.get_or_create_witness(&negated_expr)
            },
        };
        let ghost s1 = *self;
        proof {
            if Self::unchanged(s0, s1) {
                Self::lemma_unchanged_extends(s0, s1);
            }
        }
        let z = self.brillig_inverse(Expression::from_witness(t_witness));
        let ghost s2 = *self;
        proof {
            Self::lemma_stream_extended_trans(s0, s1, s2);
        }
        let y = self.next_witness_index();
        let ghost s3 = *self;
        proof {
            Self::lemma_unchanged_extends(s2, s3);
            Self::lemma_stream_extended_trans(s0, s2, s3);
        }

        let mut y_mul: Vec<(FieldElement, Witness, Witness)> = Vec::new();
        y_mul.push((FieldElement::one(), t_witness, z));
        let mut y_lin: Vec<(FieldElement, Witness)> = Vec::new();
        y_lin.push((FieldElement::one(), y));
        let y_is_boolean_constraint = Expression {
            mul_terms: y_mul,
            linear_combinations: y_lin,
            q_c: fe_neg(&FieldElement::one()),
        };
        proof {
            assert(y_is_boolean_constraint@ =~= y_constraint_model(t_witness.0, z.0, y.0));
        }
        self.assert_is_zero(y_is_boolean_constraint);
        let ghost s4 = *self;
        proof {
            Self::lemma_stream_extended_trans(s0, s3, s4);
        }

        let mut ty_mul: Vec<(FieldElement, Witness, Witness)> = Vec::new();
        ty_mul.push((FieldElement::one(), t_witness, y));
        let ty_zero_constraint = Expression {
            mul_terms: ty_mul,
            linear_combinations: Vec::new(),
            q_c: FieldElement::zero(),
        };
        proof {
            assert(ty_zero_constraint@ =~= ty_constraint_model(t_witness.0, y.0));
        }
        self.assert_is_zero(ty_zero_constraint);

        proof {
            Self::lemma_stream_extended_trans(s0, s4, *self);
        }
        y
    }

    /// Returns a witness constrained to be 1 when `lhs == rhs` and 0
    /// otherwise.
    pub fn is_equal(&mut self, lhs: &Expression, rhs: &Expression) -> (r: Witness)
        requires
            old(self).wf(),
            lhs.wf(),
            rhs.wf(),
            old(self).witness_count() + 3 <= u32::MAX as nat,
        ensures
            final(self).wf(),
            Self::stream_extended(*old(self), *final(self)),
            Self::is_zero_emitted(*old(self), *final(self), model_sub(lhs@, rhs@), r),
    {
        let t = lhs.sub(rhs);
        self.is_zero(&t)
    }

    /// What multiplying `a` and `b` under the degree budget emits and
    /// returns: the direct product when it stays within degree two,
    /// otherwise the product of reduced degree-one handles, reducing a
    /// shared operand only once.
    pub open spec fn mul_emitted(
        pre: GeneratedAcir,
        post: GeneratedAcir,
        a: ExprModel,
        b: ExprModel,
        r: ExprModel,
    ) -> bool {
        let w1 = Witness(pre.witness_count() as u32);
        let w2 = Witness((pre.witness_count() + 1) as u32);
        if (a.is_linear() && b.is_linear()) || a.is_const() || b.is_const() {
            &&& Self::unchanged(pre, post)
            &&& model_mul(a, b) == Some(r)
        } else if a == b {
            &&& Self::reduced_to_fresh(pre, post, a, w1)
            &&& r == model_bilinear(witness_expr_model(w1), witness_expr_model(w1))
        } else if a.is_linear() {
            &&& Self::reduced_to_fresh(pre, post, b, w1)
            &&& r == model_bilinear(a, witness_expr_model(w1))
        } else if b.is_linear() {
            &&& Self::reduced_to_fresh(pre, post, a, w1)
            &&& r == model_bilinear(witness_expr_model(w1), b)
        } else {
            &&& post.witness_count() == pre.witness_count() + 2
            &&& post.opcodes_seq().len() == pre.opcodes_seq().len() + 2
            &&& Self::stream_extended(pre, post)
            &&& post.opcodes_seq()[pre.opcodes_seq().len() as int] matches Opcode::AssertZero(c)
                && c@ == model_sub(a, witness_expr_model(w1))
            &&& post.opcodes_seq()[pre.opcodes_seq().len() as int + 1] matches Opcode::AssertZero(
                c,
            ) && c@ == model_sub(b, witness_expr_model(w2))
            &&& r == model_bilinear(witness_expr_model(w1), witness_expr_model(w2))
        }
    }

    /// The model of the recomposition sum `limb_0 * radix^0 + limb_1 *
    /// radix^1 + ...` bound against the decomposed expression.
    pub open spec fn radix_decomp_model(limbs: Seq<Witness>, radix: u32) -> ExprModel {
        ExprModel {
            mul: Seq::empty(),
            lin: Seq::new(
                limbs.len(),
                |i: int| ((pow(radix as int, i as nat) % field_modulus() as int) as nat, limbs[i].0),
            ),
            q: 0,
        }
    }

    /// Decomposes `input_expr` into `limb_count` little-endian limbs of
    /// `bit_size` bits each, for `radix = 2^bit_size`: allocates the limb
    /// witnesses, emits the prover-side decomposition directive, range
    /// checks every limb, and binds the recomposition with one assertion.
    pub fn radix_le_decompose(
        &mut self,
        input_expr: &Expression,
        radix: u32,
        limb_count: u32,
        bit_size: u32,
    ) -> (r: Result<Vec<Witness>, RuntimeError>)
        requires
            old(self).wf(),
            input_expr.wf(),
            old(self).witness_count() + limb_count <= u32::MAX as nat,
        ensures
            final(self).wf(),
            r is Ok <==> (bit_size < 32 && radix == 1u32 << bit_size && (limb_count == 0
                || bit_size < field_max_num_bits())),
            match r {
                Ok(limbs) => {
                    &&& limbs@.len() == limb_count
                    &&& forall|i: int|
                        0 <= i < limb_count ==> (#[trigger] limbs@[i]).0 as nat == old(
                            self,
                        ).witness_count() + i
                    &&& final(self).witness_count() == old(self).witness_count() + limb_count
                    &&& Self::stream_extended(*old(self), *final(self))
                    &&& final(self).opcodes_seq().len() == old(self).opcodes_seq().len() + 2
                        + limb_count
                    &&& final(self).opcodes_seq()[old(self).opcodes_seq().len() as int]
                        matches Opcode::Directive(Directive::ToLeRadix { a, b, radix: rx }) && a@
                        == input_expr@ && b@ == limbs@ && rx == radix
                    &&& forall|i: int|
                        #![trigger limbs@[i]]
                        0 <= i < limb_count ==> (final(self).opcodes_seq()[old(
                            self,
                        ).opcodes_seq().len() + 1 + i] matches Opcode::BlackBoxFuncCall(
                            BlackBoxFuncCall::RANGE { input },
                        ) && input == (FunctionInput { witness: limbs@[i], num_bits: bit_size }))
                    &&& final(self).opcodes_seq().last() matches Opcode::AssertZero(c) && c@
                        == model_sub(input_expr@, Self::radix_decomp_model(limbs@, radix))
                },
                Err(e) => {
                    &&& ((e is Internal) <==> !(bit_size < 32 && radix == 1u32 << bit_size))
                    &&& (e matches RuntimeError::Internal(ie) ==> ie
                        matches InternalError::InvalidRadix { radix: rx, bit_size: bs, call_stack }
                        && rx == radix && bs == bit_size && call_stack@ == old(self).call_stack@
                        && Self::unchanged(*old(self), *final(self)))
                    &&& (e matches RuntimeError::InvalidRangeConstraint { num_bits, call_stack }
                        ==> num_bits == field_max_num_bits() && bit_size >= field_max_num_bits()
                        && limb_count > 0 && call_stack@ == old(self).call_stack@
                        && Self::stream_extended(*old(self), *final(self)))
                },
            },
    {
        let ghost s0 = *self;
        if !(bit_size < 32 && radix == (1u32 << bit_size)) {
            return Err(
                RuntimeError::Internal(
                    InternalError::InvalidRadix {
                        radix,
                        bit_size,
                        call_stack: self.call_stack.duplicate(),
                    },
                ),
            );
        }

        let mut limb_witnesses: Vec<Witness> = Vec::new();
        let mut li: u32 = 0;
        while li < limb_count
            invariant
                li <= limb_count,
                self.wf(),
                limb_witnesses@.len() == li,
                forall|i: int|
                    0 <= i < li ==> (#[trigger] limb_witnesses@[i]).0 as nat == s0.witness_count()
                        + i,
                self.witness_count() == s0.witness_count() + li,
                s0.witness_count() + limb_count <= u32::MAX as nat,
                Self::bookkeeping_unchanged(s0, *self),
            decreases limb_count - li,
        {
            let w = self.next_witness_index();
            limb_witnesses.push(w);
            li += 1;
        }
        let ghost s1 = *self;
        proof {
            Self::lemma_unchanged_extends(s0, s1);
        }

        let b_for_directive = crate::expr::copy_witnesses(&limb_witnesses);
        self.push_opcode(
            Opcode::Directive(
                Directive::ToLeRadix { a: input_expr.duplicate(), b: b_for_directive, radix },
            ),
        );
        let ghost s2 = *self;
        proof {
            Self::lemma_stream_extended_trans(s0, s1, s2);
        }

        let mut composed_limbs = Expression::zero();
        let mut radix_pow: Vec<u8> = Vec::new();
        radix_pow.push(1u8);
        proof {
            assert(radix_pow@.drop_last() =~= Seq::<u8>::empty());
            assert(be_val(Seq::<u8>::empty()) == 0);
            assert(be_val(radix_pow@) == 256 * be_val(radix_pow@.drop_last()) + radix_pow@.last());
            vstd::arithmetic::power::lemma_pow0(radix as int);
            assert(1u32 << bit_size > 0) by (bit_vector)
                requires bit_size < 32u32;
            Self::lemma_unchanged_extends(s2, s2);
        }

        let mut i: u32 = 0;
        while i < limb_count
            invariant
                i <= limb_count,
                self.wf(),
                input_expr.wf(),
                i > 0 ==> bit_size < field_max_num_bits(),
                bit_size < 32,
                radix == 1u32 << bit_size,
                composed_limbs.wf(),
                limb_witnesses@.len() == limb_count,
                be_val(radix_pow@) == pow(radix as int, i as nat),
                composed_limbs@.mul =~= Seq::<(nat, u32, u32)>::empty(),
                composed_limbs@.q == 0,
                composed_limbs@.lin =~= Self::radix_decomp_model(
                    limb_witnesses@.take(i as int),
                    radix,
                ).lin,
                self.witness_count() == s2.witness_count(),
                self.opcodes_seq().len() == s2.opcodes_seq().len() + i,
                s2.opcodes_seq().len() == s0.opcodes_seq().len() + 1,
                Self::stream_extended(s0, *self),
                Self::stream_extended(s2, *self),
                self.opcodes_seq().subrange(0, s2.opcodes_seq().len() as int)
                    == s2.opcodes_seq(),
                forall|j: int|
                    #![trigger limb_witnesses@[j]]
                    0 <= j < i ==> (self.opcodes_seq()[s2.opcodes_seq().len() + j]
                        matches Opcode::BlackBoxFuncCall(BlackBoxFuncCall::RANGE { input })
                        && input == (FunctionInput {
                        witness: limb_witnesses@[j],
                        num_bits: bit_size,
                    })),
            decreases limb_count - i,
        {
            let ghost before = *self;
            let limb_witness = limb_witnesses[i as usize];
            match self.range_constraint(limb_witness, bit_size) {
                Ok(_) => (),
                Err(e) => {
                    proof {
                        Self::lemma_stream_extended_trans(s0, before, *self);
                    }
                    return Err(e);
                },
            }
            proof {
                Self::lemma_stream_extended_trans(s0, before, *self);
                Self::lemma_stream_extended_trans(s2, before, *self);
                assert forall|j: int| #![trigger limb_witnesses@[j]] 0 <= j < i + 1 implies (self.opcodes_seq()[s2.opcodes_seq().len()
                    + j] matches Opcode::BlackBoxFuncCall(BlackBoxFuncCall::RANGE { input })
                    && input == (FunctionInput {
                    witness: limb_witnesses@[j],
                    num_bits: bit_size,
                })) by {
                    if j < i {
                        assert(self.opcodes_seq().subrange(0, before.opcodes_seq().len() as int)[
                            s2.opcodes_seq().len() + j] == before.opcodes_seq()[
                            s2.opcodes_seq().len() + j]);
                    }
                }
            }

            let coeff = fe_from_be_bytes_reduce(&radix_pow);
            let term = Expression::from_witness(limb_witness).scaled(&coeff);
            let ghost prev_model = composed_limbs@;
            composed_limbs = composed_limbs.add(&term);
            proof {
                assert(1u32 << bit_size > 0) by (bit_vector)
                    requires bit_size < 32u32;
                vstd::arithmetic::power::lemma_pow_positive(radix as int, i as nat);
                vstd::arithmetic::div_mod::lemma_mod_bound(
                    pow(radix as int, i as nat),
                    field_modulus() as int,
                );
                let kv = be_val(radix_pow@) % field_modulus();
                vstd::arithmetic::div_mod::lemma_small_mod(kv, field_modulus());
                assert(term@.lin =~= seq![(((kv * 1) % field_modulus()) as nat, limb_witness.0)]);
                assert((kv * 1) % field_modulus() == kv);
                assert(composed_limbs@.lin =~= prev_model.lin + term@.lin);
                assert forall|j: int| 0 <= j < i + 1 implies composed_limbs@.lin[j]
                    == Self::radix_decomp_model(limb_witnesses@.take(i + 1), radix).lin[j] by {
                    if j < i {
                        assert(prev_model.lin[j] == Self::radix_decomp_model(
                            limb_witnesses@.take(i as int),
                            radix,
                        ).lin[j]);
                    }
                }
                assert(composed_limbs@.lin =~= Self::radix_decomp_model(
                    limb_witnesses@.take(i + 1),
                    radix,
                ).lin);
            }

            radix_pow = big_mul_u32(&radix_pow, radix);
            proof {
                vstd::arithmetic::power::lemma_pow1(radix as int);
                vstd::arithmetic::power::lemma_pow_adds(radix as int, i as nat, 1);
            }
            i += 1;
        }

        proof {
            assert(limb_witnesses@.take(limb_count as int) =~= limb_witnesses@);
            assert(composed_limbs@ =~= Self::radix_decomp_model(limb_witnesses@, radix));
        }
        let ghost s3 = *self;
        proof {
            let n0 = s0.opcodes_seq().len() as int;
            assert(s3.opcodes_seq()[n0] == s3.opcodes_seq().subrange(
                0,
                s2.opcodes_seq().len() as int,
            )[n0]);
            assert(s3.opcodes_seq()[n0] == s2.opcodes_seq().last());
        }
        let bound = input_expr.sub(&composed_limbs);
        self.assert_is_zero(bound);
        proof {
            Self::lemma_stream_extended_trans(s0, s3, *self);
            assert(self.opcodes_seq()[s0.opcodes_seq().len() as int] == s3.opcodes_seq()[
                s0.opcodes_seq().len() as int]);
        }

        Ok(limb_witnesses)
    }

    /// An expression equal to `lhs * rhs` under the emitted constraints,
    /// within the degree-two budget. Linear or constant operands are
    /// multiplied directly; any other operand is first reduced to a fresh
    /// witness handle, and two operands of the same shape share one handle,
    /// which is then squared.
    pub fn mul_with_witness(&mut self, lhs: &Expression, rhs: &Expression) -> (r: Expression)
        requires
            old(self).wf(),
            lhs.wf(),
            rhs.wf(),
            old(self).witness_count() + 2 <= u32::MAX as nat,
        ensures
            final(self).wf(),
            r.wf(),
            Self::stream_extended(*old(self), *final(self)),
            Self::mul_emitted(*old(self), *final(self), lhs@, rhs@, r@),
    {
        let ghost s0 = *self;
        let lhs_is_linear = lhs.is_linear();
        let rhs_is_linear = rhs.is_linear();
        if (lhs_is_linear && rhs_is_linear) || lhs.is_const() || rhs.is_const() {
            proof {
                Self::lemma_unchanged_extends(s0, *self);
            }
            return match lhs.mul(rhs) {
                Some(product) => product,
                None => vstd::pervasive::unreached(),
            };
        }
        let lhs_reduced: Expression = if lhs_is_linear {
            lhs.duplicate()
        } else {
            proof {
                assert(lhs@.as_witness() is None);
            }
            Expression::from_witness(self.get_or_create_witness(lhs))
        };
        if lhs.same_shape(rhs) {
            return match lhs_reduced.mul(&lhs_reduced) {
                Some(product) => product,
                None => vstd::pervasive::unreached(),
            };
        }
        let rhs_reduced: Expression = if rhs_is_linear {
            rhs.duplicate()
        } else {
            proof {
                assert(rhs@.as_witness() is None);
            }
            let ghost s1 = *self;
            proof {
                if Self::unchanged(s0, s1) {
                    Self::lemma_unchanged_extends(s0, s1);
                }
            }
            let w = self.get_or_create_witness(rhs);
            proof {
                Self::lemma_stream_extended_trans(s0, s1, *self);
            }
            Expression::from_witness(w)
        };
        match lhs_reduced.mul(&rhs_reduced) {
            Some(product) => product,
            None => vstd::pervasive::unreached(),
        }
    }
}

} // verus!
