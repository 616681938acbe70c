//! Degree-two multivariate polynomials over the field.
//!
//! An expression is a sum of quadratic terms, linear terms and a constant;
//! by construction its total degree never exceeds two. The ghost model of an
//! expression replaces each coefficient by its mathematical value, so that
//! contracts can state exactly which polynomial an operation produces.

use vstd::prelude::*;
use crate::field::{FieldElement, fe_add, fe_mul, fe_neg, field_modulus};
use vstd::arithmetic::div_mod::lemma_fundamental_div_mod_converse;

verus! {

/// An intermediate value of the circuit: an index into the witness space.
#[derive(Debug, Clone, Copy, PartialEq, Eq, Structural, Hash)]
pub struct Witness(pub u32);

/// A polynomial of total degree at most two: quadratic terms
/// `c * w_l * w_r`, linear terms `c * w`, and a constant.
#[derive(Debug, Clone, PartialEq, Eq)]
pub struct Expression {
    pub mul_terms: Vec<(FieldElement, Witness, Witness)>,
    pub linear_combinations: Vec<(FieldElement, Witness)>,
    pub q_c: FieldElement,
}

/// The mathematical shape of an expression: coefficients as field values.
#[verifier::ext_equal]
pub ghost struct ExprModel {
    pub mul: Seq<(nat, u32, u32)>,
    pub lin: Seq<(nat, u32)>,
    pub q: nat,
}

impl ExprModel {
    /// Total degree of the represented polynomial, read off the shape.
    pub open spec fn deg(self) -> nat {
        if self.mul.len() > 0 {
            2
        } else if self.lin.len() > 0 {
            1
        } else {
            0
        }
    }

    /// Degree at most one.
    pub open spec fn is_linear(self) -> bool {
        self.mul.len() == 0
    }

    /// Degree zero.
    pub open spec fn is_const(self) -> bool {
        self.mul.len() == 0 && self.lin.len() == 0
    }

    /// The witness this expression is exactly equal to, when it has the form
    /// `1 * w + 0`.
    pub open spec fn as_witness(self) -> Option<Witness> {
        if self.mul.len() == 0 && self.lin.len() == 1 && self.lin[0].0 == 1 && self.q == 0 {
            Some(Witness(self.lin[0].1))
        } else {
            None
        }
    }
}

/// The model of a sequence of linear terms.
pub open spec fn lin_model(s: Seq<(FieldElement, Witness)>) -> Seq<(nat, u32)> {
    Seq::new(s.len(), |i: int| (s[i].0.value(), s[i].1.0))
}

/// The model of a sequence of quadratic terms.
pub open spec fn mul_model(s: Seq<(FieldElement, Witness, Witness)>) -> Seq<(nat, u32, u32)> {
    Seq::new(s.len(), |i: int| (s[i].0.value(), s[i].1.0, s[i].2.0))
}

/// Pushing a linear term extends its model by the term's model.
pub proof fn lemma_lin_model_push(s: Seq<(FieldElement, Witness)>, x: (FieldElement, Witness))
    ensures
        lin_model(s.push(x)) =~= lin_model(s).push((x.0.value(), x.1.0)),
{
}

/// Pushing a quadratic term extends its model by the term's model.
pub proof fn lemma_mul_model_push(
    s: Seq<(FieldElement, Witness, Witness)>,
    x: (FieldElement, Witness, Witness),
)
    ensures
        mul_model(s.push(x)) =~= mul_model(s).push((x.0.value(), x.1.0, x.2.0)),
{
}

impl View for Expression {
    type V = ExprModel;

    open spec fn view(&self) -> ExprModel {
        ExprModel {
            mul: mul_model(self.mul_terms@),
            lin: lin_model(self.linear_combinations@),
            q: self.q_c.value(),
        }
    }
}

/// Linear terms scaled by the field value `k`.
pub open spec fn scale_lin(k: nat, s: Seq<(nat, u32)>) -> Seq<(nat, u32)> {
    Seq::new(s.len(), |i: int| (((k * s[i].0) % field_modulus()) as nat, s[i].1))
}

/// Quadratic terms scaled by the field value `k`.
pub open spec fn scale_mul(k: nat, s: Seq<(nat, u32, u32)>) -> Seq<(nat, u32, u32)> {
    Seq::new(s.len(), |i: int| (((k * s[i].0) % field_modulus()) as nat, s[i].1, s[i].2))
}

/// The whole expression scaled by the field value `k`.
pub open spec fn model_scaled(k: nat, m: ExprModel) -> ExprModel {
    ExprModel {
        mul: scale_mul(k, m.mul),
        lin: scale_lin(k, m.lin),
        q: ((k * m.q) % field_modulus()) as nat,
    }
}

/// The sum of two expressions: terms concatenated, constants added.
pub open spec fn model_add(a: ExprModel, b: ExprModel) -> ExprModel {
    ExprModel {
        mul: a.mul + b.mul,
        lin: a.lin + b.lin,
        q: ((a.q + b.q) % field_modulus()) as nat,
    }
}

/// The difference of two expressions, as sum with the negation.
pub open spec fn model_sub(a: ExprModel, b: ExprModel) -> ExprModel {
    model_add(a, model_scaled((field_modulus() - 1) as nat, b))
}

/// The product of the linear parts of two linear expressions: every pairing
/// of a term of `a` with a term of `b`, in row-major order.
pub open spec fn cross_terms(a: Seq<(nat, u32)>, b: Seq<(nat, u32)>) -> Seq<(nat, u32, u32)> {
    Seq::new(
        a.len() * b.len(),
        |k: int|
            (
                ((a[k / b.len() as int].0 * b[k % b.len() as int].0) % field_modulus()) as nat,
                a[k / b.len() as int].1,
                b[k % b.len() as int].1,
            ),
    )
}

/// The product of two linear, non-constant expressions.
pub open spec fn model_bilinear(a: ExprModel, b: ExprModel) -> ExprModel {
    ExprModel {
        mul: cross_terms(a.lin, b.lin),
        lin: scale_lin(b.q, a.lin) + scale_lin(a.q, b.lin),
        q: ((a.q * b.q) % field_modulus()) as nat,
    }
}

/// The product of two expressions, defined exactly when the product stays
/// within the degree-two budget: one side constant, or both sides linear.
pub open spec fn model_mul(a: ExprModel, b: ExprModel) -> Option<ExprModel> {
    if a.is_const() {
        Some(model_scaled(a.q, b))
    } else if b.is_const() {
        Some(model_scaled(b.q, a))
    } else if a.is_linear() && b.is_linear() {
        Some(model_bilinear(a, b))
    } else {
        None
    }
}

impl Expression {
    /// Every coefficient, and the constant, is a canonical field element.
    pub open spec fn wf(self) -> bool {
        &&& forall|i: int| 0 <= i < self.mul_terms@.len() ==> (#[trigger] self.mul_terms@[i]).0.wf()
        &&& forall|i: int|
            0 <= i < self.linear_combinations@.len() ==> (
            #[trigger] self.linear_combinations@[i]).0.wf()
        &&& self.q_c.wf()
    }

    /// The zero expression.
    pub fn zero() -> (r: Expression)
        ensures
            r.wf(),
            r@.mul =~= Seq::<(nat, u32, u32)>::empty(),
            r@.lin =~= Seq::<(nat, u32)>::empty(),
            r@.q == 0,
    {
        Expression {
            mul_terms: Vec::new(),
            linear_combinations: Vec::new(),
            q_c: FieldElement::zero(),
        }
    }

    /// The constant-one expression.
    pub fn one() -> (r: Expression)
        ensures
            r.wf(),
            r@.mul =~= Seq::<(nat, u32, u32)>::empty(),
            r@.lin =~= Seq::<(nat, u32)>::empty(),
            r@.q == 1,
    {
        Expression {
            mul_terms: Vec::new(),
            linear_combinations: Vec::new(),
            q_c: FieldElement::one(),
        }
    }

    /// The expression `1 * w + 0`.
    pub fn from_witness(w: Witness) -> (r: Expression)
        ensures
            r.wf(),
            r@.mul =~= Seq::<(nat, u32, u32)>::empty(),
            r@.lin =~= seq![(1nat, w.0)],
            r@.q == 0,
            r@.as_witness() == Some(w),
    {
        let mut lin: Vec<(FieldElement, Witness)> = Vec::new();
        lin.push((FieldElement::one(), w));
        let r = Expression {
            mul_terms: Vec::new(),
            linear_combinations: lin,
            q_c: FieldElement::zero(),
        };
        proof {
            assert(r@.lin =~= seq![(1nat, w.0)]);
            assert(r@.mul =~= Seq::<(nat, u32, u32)>::empty());
        }
        r
    }

    /// A copy of this expression.
    pub fn duplicate(&self) -> (r: Expression)
        ensures
            r@ == self@,
            self.wf() ==> r.wf(),
    {
        let mut mul: Vec<(FieldElement, Witness, Witness)> = Vec::new();
        let mut i: usize = 0;
        while i < self.mul_terms.len()
            invariant
                i <= self.mul_terms@.len(),
                mul@.len() == i,
                forall|j: int|
                    0 <= j < i ==> (#[trigger] mul@[j]).0.be_bytes@
                        == self.mul_terms@[j].0.be_bytes@ && mul@[j].1 == self.mul_terms@[j].1
                        && mul@[j].2 == self.mul_terms@[j].2,
            decreases self.mul_terms@.len() - i,
        {
            let t = &self.mul_terms[i];
            mul.push((t.0.duplicate(), t.1, t.2));
            i += 1;
        }
        let mut lin: Vec<(FieldElement, Witness)> = Vec::new();
        let mut i: usize = 0;
        while i < self.linear_combinations.len()
            invariant
                i <= self.linear_combinations@.len(),
                lin@.len() == i,
                forall|j: int|
                    0 <= j < i ==> (#[trigger] lin@[j]).0.be_bytes@
                        == self.linear_combinations@[j].0.be_bytes@ && lin@[j].1
                        == self.linear_combinations@[j].1,
            decreases self.linear_combinations@.len() - i,
        {
            let t = &self.linear_combinations[i];
            lin.push((t.0.duplicate(), t.1));
            i += 1;
        }
        let r = Expression { mul_terms: mul, linear_combinations: lin, q_c: self.q_c.duplicate() };
        proof {
            assert(r@.mul =~= self@.mul);
            assert(r@.lin =~= self@.lin);
        }
        r
    }

    /// Degree at most one.
    pub fn is_linear(&self) -> (r: bool)
        ensures
            r == self@.is_linear(),
    {
        self.mul_terms.len() == 0
    }

    /// Degree zero.
    pub fn is_const(&self) -> (r: bool)
        ensures
            r == self@.is_const(),
    {
        self.mul_terms.len() == 0 && self.linear_combinations.len() == 0
    }

    /// The witness this expression narrows to, when it is exactly `1 * w`.
    pub fn to_witness(&self) -> (r: Option<Witness>)
        requires
            self.wf(),
        ensures
            r == self@.as_witness(),
    {
        if self.mul_terms.len() == 0 && self.linear_combinations.len() == 1 {
            let one = FieldElement::one();
            let zero = FieldElement::zero();
            if self.linear_combinations[0].0.eq_value(&one) && self.q_c.eq_value(&zero) {
                return Some(self.linear_combinations[0].1);
            }
        }
        None
    }

    /// Whether two expressions have the same shape: the same terms with the
    /// same coefficient values in the same order.
    pub fn same_shape(&self, other: &Expression) -> (r: bool)
        requires
            self.wf(),
            other.wf(),
        ensures
            r == (self@ == other@),
    {
        if self.mul_terms.len() != other.mul_terms.len()
            || self.linear_combinations.len() != other.linear_combinations.len() {
            proof {
                assert(self@.mul.len() != other@.mul.len() || self@.lin.len() != other@.lin.len());
            }
            return false;
        }
        let mut i: usize = 0;
        while i < self.mul_terms.len()
            invariant
                i <= self.mul_terms@.len(),
                self.wf(),
                other.wf(),
                self.mul_terms@.len() == other.mul_terms@.len(),
                forall|j: int| 0 <= j < i ==> self@.mul[j] == other@.mul[j],
            decreases self.mul_terms@.len() - i,
        {
            let a = &self.mul_terms[i];
            let b = &other.mul_terms[i];
            if !(a.0.eq_value(&b.0) && a.1.0 == b.1.0 && a.2.0 == b.2.0) {
                proof {
                    assert(self@.mul[i as int] != other@.mul[i as int]);
                }
                return false;
            }
            i += 1;
        }
        let mut i: usize = 0;
        while i < self.linear_combinations.len()
            invariant
                i <= self.linear_combinations@.len(),
                self.wf(),
                other.wf(),
                self.linear_combinations@.len() == other.linear_combinations@.len(),
                forall|j: int| 0 <= j < i ==> self@.lin[j] == other@.lin[j],
                forall|j: int| 0 <= j < self@.mul.len() ==> self@.mul[j] == other@.mul[j],
            decreases self.linear_combinations@.len() - i,
        {
            let a = &self.linear_combinations[i];
            let b = &other.linear_combinations[i];
            if !(a.0.eq_value(&b.0) && a.1.0 == b.1.0) {
                proof {
                    assert(self@.lin[i as int] != other@.lin[i as int]);
                }
                return false;
            }
            i += 1;
        }
        if self.q_c.eq_value(&other.q_c) {
            proof {
                assert(self@.mul =~= other@.mul);
                assert(self@.lin =~= other@.lin);
                assert(self@ =~= other@);
            }
            true
        } else {
            proof {
                assert(self@.q != other@.q);
            }
            false
        }
    }

    /// This expression scaled by the field element `k`.
    pub fn scaled(&self, k: &FieldElement) -> (r: Expression)
        requires
            self.wf(),
            k.wf(),
        ensures
            r.wf(),
            r@ == model_scaled(k.value(), self@),
    {
        let mut mul: Vec<(FieldElement, Witness, Witness)> = Vec::new();
        let mut i: usize = 0;
        while i < self.mul_terms.len()
            invariant
                i <= self.mul_terms@.len(),
                self.wf(),
                k.wf(),
                mul@.len() == i,
                forall|j: int|
                    0 <= j < i ==> (#[trigger] mul@[j]).0.wf() && mul_model(mul@)[j]
                        == scale_mul(k.value(), self@.mul)[j],
            decreases self.mul_terms@.len() - i,
        {
            let t = &self.mul_terms[i];
            mul.push((fe_mul(k, &t.0), t.1, t.2));
            i += 1;
        }
        let mut lin: Vec<(FieldElement, Witness)> = Vec::new();
        let mut i: usize = 0;
        while i < self.linear_combinations.len()
            invariant
                i <= self.linear_combinations@.len(),
                self.wf(),
                k.wf(),
                lin@.len() == i,
                forall|j: int|
                    0 <= j < i ==> (#[trigger] lin@[j]).0.wf() && lin_model(lin@)[j]
                        == scale_lin(k.value(), self@.lin)[j],
            decreases self.linear_combinations@.len() - i,
        {
            let t = &self.linear_combinations[i];
            lin.push((fe_mul(k, &t.0), t.1));
            i += 1;
        }
        let r = Expression { mul_terms: mul, linear_combinations: lin, q_c: fe_mul(k, &self.q_c) };
        proof {
            assert(r@.mul =~= scale_mul(k.value(), self@.mul));
            assert(r@.lin =~= scale_lin(k.value(), self@.lin));
            assert(r@ =~= model_scaled(k.value(), self@));
        }
        r
    }

    /// The sum of this expression and `other`.
    pub fn add(&self, other: &Expression) -> (r: Expression)
        requires
            self.wf(),
            other.wf(),
        ensures
            r.wf(),
            r@ == model_add(self@, other@),
    {
        let mut r = self.duplicate();
        let mut i: usize = 0;
        while i < other.mul_terms.len()
            invariant
                i <= other.mul_terms@.len(),
                other.wf(),
                r.wf(),
                mul_model(r.mul_terms@) =~= self@.mul + mul_model(other.mul_terms@.take(i as int)),
                lin_model(r.linear_combinations@) =~= self@.lin,
                r.q_c.wf(),
            decreases other.mul_terms@.len() - i,
        {
            let t = &other.mul_terms[i];
            let ghost prev = r.mul_terms@;
            r.mul_terms.push((t.0.duplicate(), t.1, t.2));
            proof {
                lemma_mul_model_push(prev, r.mul_terms@.last());
                assert(mul_model(r.mul_terms@) =~= self@.mul + mul_model(
                    other.mul_terms@.take(i + 1),
                ));
            }
            i += 1;
        }
        let mut i: usize = 0;
        while i < other.linear_combinations.len()
            invariant
                i <= other.linear_combinations@.len(),
                other.wf(),
                r.wf(),
                mul_model(r.mul_terms@) =~= self@.mul + other@.mul,
                lin_model(r.linear_combinations@) =~= self@.lin + lin_model(
                    other.linear_combinations@.take(i as int),
                ),
                r.q_c.wf(),
            decreases other.linear_combinations@.len() - i,
        {
            let t = &other.linear_combinations[i];
            let ghost prev = r.linear_combinations@;
            r.linear_combinations.push((t.0.duplicate(), t.1));
            proof {
                lemma_lin_model_push(prev, r.linear_combinations@.last());
                assert(lin_model(r.linear_combinations@) =~= self@.lin + lin_model(
                    other.linear_combinations@.take(i + 1),
                ));
            }
            i += 1;
        }
        r.q_c = fe_add(&self.q_c, &other.q_c);
        proof {
            assert(other.mul_terms@.take(other.mul_terms@.len() as int) =~= other.mul_terms@);
            assert(other.linear_combinations@.take(other.linear_combinations@.len() as int)
                =~= other.linear_combinations@);
            assert(r@ =~= model_add(self@, other@));
        }
        r
    }

    /// The difference of this expression and `other`, as the sum of this
    /// expression and the negation of `other`.
    pub fn sub(&self, other: &Expression) -> (r: Expression)
        requires
            self.wf(),
            other.wf(),
        ensures
            r.wf(),
            r@ == model_sub(self@, other@),
    {
        let neg_one = fe_neg(&FieldElement::one());
        let neg_other = other.scaled(&neg_one);
        self.add(&neg_other)
    }

    /// The product of this expression and `other`, when it stays within the
    /// degree-two budget: one side constant, or both sides linear.
    pub fn mul(&self, other: &Expression) -> (r: Option<Expression>)
        requires
            self.wf(),
            other.wf(),
        ensures
            (r is Some) == (model_mul(self@, other@) is Some),
            r matches Some(e) ==> e.wf() && model_mul(self@, other@) == Some(e@),
    {
        if self.is_const() {
            Some(other.scaled(&self.q_c))
        } else if other.is_const() {
            Some(self.scaled(&other.q_c))
        } else if self.is_linear() && other.is_linear() {
            let mut mul: Vec<(FieldElement, Witness, Witness)> = Vec::new();
            let ghost target = cross_terms(self@.lin, other@.lin);
            let blen = other.linear_combinations.len();
            let mut i: usize = 0;
            while i < self.linear_combinations.len()
                invariant
                    i <= self.linear_combinations@.len(),
                    self.wf(),
                    other.wf(),
                    blen == other.linear_combinations@.len(),
                    blen > 0,
                    target == cross_terms(self@.lin, other@.lin),
                    mul@.len() == i * blen,
                    mul@.len() <= self.linear_combinations@.len() * blen,
                    forall|j: int|
                        0 <= j < i * blen ==> (#[trigger] mul@[j]).0.wf() && mul_model(mul@)[j]
                            == target[j],
                decreases self.linear_combinations@.len() - i,
            {
                let a = &self.linear_combinations[i];
                let mut jj: usize = 0;
                while jj < blen
                    invariant
                        jj <= blen,
                        i < self.linear_combinations@.len(),
                        self.wf(),
                        other.wf(),
                        blen == other.linear_combinations@.len(),
                        blen > 0,
                        target == cross_terms(self@.lin, other@.lin),
                        a == &self.linear_combinations@[i as int],
                        mul@.len() == i * blen + jj,
                        mul@.len() <= self.linear_combinations@.len() * blen,
                        forall|j: int|
                            0 <= j < i * blen + jj ==> (#[trigger] mul@[j]).0.wf() && mul_model(
                                mul@,
                            )[j] == target[j],
                    decreases blen - jj,
                {
                    let b = &other.linear_combinations[jj];
                    proof {
                        lemma_fundamental_div_mod_converse(
                            (i * blen + jj) as int,
                            blen as int,
                            i as int,
                            jj as int,
                        );
                        vstd::arithmetic::mul::lemma_mul_inequality(
                            (i + 1) as int,
                            self.linear_combinations@.len() as int,
                            blen as int,
                        );
                        vstd::arithmetic::mul::lemma_mul_is_distributive_add_other_way(
                            blen as int,
                            i as int,
                            1,
                        );
                    }
                    let ghost prev = mul@;
                    mul.push((fe_mul(&a.0, &b.0), a.1, b.1));
                    proof {
                        lemma_mul_model_push(prev, mul@.last());
                    }
                    jj += 1;
                }
                proof {
                    vstd::arithmetic::mul::lemma_mul_is_distributive_add_other_way(
                        blen as int,
                        i as int,
                        1,
                    );
                }
                i += 1;
            }
            let lin_a = self.scaled_linear_part(&other.q_c);
            let mut lin = lin_a;
            let mut jj: usize = 0;
            while jj < other.linear_combinations.len()
                invariant
                    jj <= other.linear_combinations@.len(),
                    self.wf(),
                    other.wf(),
                    lin@.len() == self.linear_combinations@.len() + jj,
                    forall|j: int|
                        0 <= j < lin@.len() ==> (#[trigger] lin@[j]).0.wf(),
                    lin_model(lin@) =~= scale_lin(other@.q, self@.lin) + scale_lin(
                        self@.q,
                        lin_model(other.linear_combinations@.take(jj as int)),
                    ),
                decreases other.linear_combinations@.len() - jj,
            {
                let t = &other.linear_combinations[jj];
                let ghost prev = lin@;
                lin.push((fe_mul(&self.q_c, &t.0), t.1));
                proof {
                    lemma_lin_model_push(prev, lin@.last());
                    assert(lin_model(lin@) =~= scale_lin(other@.q, self@.lin) + scale_lin(
                        self@.q,
                        lin_model(other.linear_combinations@.take(jj + 1)),
                    ));
                }
                jj += 1;
            }
            let r = Expression {
                mul_terms: mul,
                linear_combinations: lin,
                q_c: fe_mul(&self.q_c, &other.q_c),
            };
            proof {
                assert(other.linear_combinations@.take(other.linear_combinations@.len() as int)
                    =~= other.linear_combinations@);
                assert(scale_lin(self@.q, lin_model(other.linear_combinations@))
                    =~= scale_lin(self@.q, other@.lin));
                assert(r@.mul =~= cross_terms(self@.lin, other@.lin));
                assert(r@ =~= model_bilinear(self@, other@));
            }
            Some(r)
        } else {
            None
        }
    }

    /// The linear terms of this expression scaled by `k`, as a fresh vector.
    fn scaled_linear_part(&self, k: &FieldElement) -> (r: Vec<(FieldElement, Witness)>)
        requires
            self.wf(),
            k.wf(),
        ensures
            r@.len() == self.linear_combinations@.len(),
            forall|j: int| 0 <= j < r@.len() ==> (#[trigger] r@[j]).0.wf(),
            lin_model(r@) =~= scale_lin(k.value(), self@.lin),
    {
        let mut lin: Vec<(FieldElement, Witness)> = Vec::new();
        let mut i: usize = 0;
        while i < self.linear_combinations.len()
            invariant
                i <= self.linear_combinations@.len(),
                self.wf(),
                k.wf(),
                lin@.len() == i,
                forall|j: int|
                    0 <= j < i ==> (#[trigger] lin@[j]).0.wf() && lin_model(lin@)[j]
                        == scale_lin(k.value(), self@.lin)[j],
            decreases self.linear_combinations@.len() - i,
        {
            let t = &self.linear_combinations[i];
            lin.push((fe_mul(k, &t.0), t.1));
            i += 1;
        }
        proof {
            assert(lin_model(lin@) =~= scale_lin(k.value(), self@.lin));
        }
        lin
    }
}

/// A fresh vector with the same witnesses.
pub(crate) fn copy_witnesses(v: &Vec<Witness>) -> (r: Vec<Witness>)
    ensures
        r@ == v@,
{
    let mut r: Vec<Witness> = Vec::new();
    let mut i: usize = 0;
    while i < v.len()
        invariant
            i <= v@.len(),
            r@ =~= v@.take(i as int),
        decreases v@.len() - i,
    {
        r.push(v[i]);
        proof {
            assert(r@ =~= v@.take(i + 1));
        }
        i += 1;
    }
    proof {
        assert(v@.take(v@.len() as int) =~= v@);
    }
    r
}

} // verus!
