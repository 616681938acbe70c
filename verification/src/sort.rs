//! The permutation gadget: a data-oblivious switching network whose control
//! bits select any permutation of its inputs, together with the prover-side
//! directive that assigns those bits.

use vstd::prelude::*;
use crate::acir::{GeneratedAcir, witness_expr_model};
use crate::expr::{
    Expression, ExprModel, Witness, model_add, model_bilinear, model_mul, model_sub,
};
use crate::field::{FieldElement, fe_neg, field_modulus};
use crate::opcode::{Directive, Opcode, RuntimeError};

verus! {

/// The ceiling of the base-two logarithm: the number of halvings (rounding
/// up) that bring `k` down to one.
pub open spec fn clog2(k: nat) -> nat
    decreases k,
{
    if k <= 1 {
        0
    } else {
        1 + clog2((k + 1) / 2)
    }
}

/// The control-bit count of the network on `n` inputs, as the sum
/// `clog2(1) + clog2(2) + ... + clog2(n)`.
pub open spec fn sum_clog2(n: nat) -> nat
    decreases n,
{
    if n == 0 {
        0
    } else {
        sum_clog2((n - 1) as nat) + clog2(n)
    }
}

/// The number of switches the recursive network layer places on `n`
/// inputs: input switches, two half-size networks, output switches.
pub open spec fn layer_bits(n: nat) -> nat
    decreases n,
{
    if n <= 1 {
        0
    } else {
        (n / 2 + (n - 1) / 2 + layer_bits(n / 2) + layer_bits((n - n / 2) as nat)) as nat
    }
}

/// The running sum satisfies the network recursion.
proof fn lemma_sum_clog2_rec(n: nat)
    requires
        n >= 1,
    ensures
        sum_clog2(n) == n / 2 + (n - 1) / 2 + sum_clog2(n / 2) + sum_clog2((n - n / 2) as nat),
    decreases n,
{
    if n == 1 {
        assert(sum_clog2(1nat) == sum_clog2(0nat) + clog2(1nat));
    } else {
        lemma_sum_clog2_rec((n - 1) as nat);
        if n % 2 == 0 {
            let m = n / 2;
            assert(clog2(n) == 1 + clog2((n + 1) / 2));
            assert((n + 1) / 2 == m);
            assert(sum_clog2(m) == sum_clog2((m - 1) as nat) + clog2(m));
        } else {
            let m = (n - 1) / 2;
            assert(clog2(n) == 1 + clog2((n + 1) / 2));
            assert((n + 1) / 2 == m + 1);
            assert(sum_clog2((m + 1) as nat) == sum_clog2(m as nat) + clog2((m + 1) as nat));
        }
    }
}

/// The spec formula for the control-bit count agrees with the count of
/// switches the recursive network places.
pub proof fn lemma_sum_clog2_is_layer_bits(n: nat)
    ensures
        sum_clog2(n) == layer_bits(n),
    decreases n,
{
    if n <= 1 {
        if n == 1 {
            assert(sum_clog2(1nat) == sum_clog2(0nat) + clog2(1nat));
        }
    } else {
        lemma_sum_clog2_rec(n);
        lemma_sum_clog2_is_layer_bits(n / 2);
        lemma_sum_clog2_is_layer_bits((n - n / 2) as nat);
    }
}

/// The running sum grows with its bound.
proof fn lemma_sum_clog2_monotone(i: nat, n: nat)
    requires
        i <= n,
    ensures
        sum_clog2(i) <= sum_clog2(n),
    decreases n,
{
    if i < n {
        lemma_sum_clog2_monotone(i, (n - 1) as nat);
    }
}

/// Values up to `2^m` have a ceiling logarithm of at most `m`.
proof fn lemma_clog2_bound(k: nat, m: nat)
    requires
        k <= vstd::arithmetic::power2::pow2(m),
    ensures
        clog2(k) <= m,
    decreases k,
{
    if k > 1 {
        vstd::arithmetic::power2::lemma_pow2_pos(m);
        if m == 0 {
            assert(vstd::arithmetic::power2::pow2(0nat) == 1) by {
                vstd::arithmetic::power2::lemma2_to64();
            }
        } else {
            assert(vstd::arithmetic::power2::pow2(m) == 2 * vstd::arithmetic::power2::pow2(
                (m - 1) as nat,
            )) by {
                vstd::arithmetic::power2::lemma_pow2_unfold(m);
            }
            lemma_clog2_bound((k + 1) / 2, (m - 1) as nat);
        }
    }
}

/// The ceiling of the base-two logarithm of `k`.
fn ceil_log2(k: usize) -> (r: u32)
    ensures
        r as nat == clog2(k as nat),
{
    proof {
        vstd::arithmetic::power2::lemma2_to64_rest();
        assert(k as nat <= vstd::arithmetic::power2::pow2(64));
        lemma_clog2_bound(k as nat, 64);
    }
    let mut x = k;
    let mut b: u32 = 0;
    while x > 1
        invariant
            clog2(k as nat) == b + clog2(x as nat),
            clog2(k as nat) <= 64,
            x <= k,
        decreases x,
    {
        proof {
            assert((x as nat + 1) / 2 == x as nat / 2 + x as nat % 2);
            assert(clog2(x as nat) == 1 + clog2((x as nat + 1) / 2));
        }
        x = x / 2 + x % 2;
        b = b + 1;
    }
    b
}

/// The models of a sequence of expressions.
pub open spec fn expr_models(v: Seq<Expression>) -> Seq<ExprModel> {
    Seq::new(v.len(), |i: int| v[i]@)
}

/// The indices of a sequence of witnesses.
pub open spec fn bit_indices(v: Seq<Witness>) -> Seq<u32> {
    Seq::new(v.len(), |i: int| v[i].0)
}

/// The indices of `count` consecutively allocated witnesses starting at
/// `start`.
pub open spec fn fresh_bit_indices(start: nat, count: nat) -> Seq<u32> {
    Seq::new(count, |j: int| (start + j) as u32)
}

/// The model of the constraint `c*c - c == 0` that makes a control bit
/// boolean.
pub open spec fn bool_constraint_model(c: u32) -> ExprModel {
    ExprModel {
        mul: seq![(1nat, c, c)],
        lin: seq![(((field_modulus() - 1) as nat), c)],
        q: 0,
    }
}

/// The stream of `post` holds, at or beyond index `lo`, the boolean
/// constraint for control bit `c`.
pub open spec fn bit_constrained(post: GeneratedAcir, lo: int, c: u32) -> bool {
    exists|i: int|
        lo <= i < post.opcodes_seq().len() && ((#[trigger] post.opcodes_seq()[i])
            matches Opcode::AssertZero(e) && e@ == bool_constraint_model(c))
}

/// `q` stands for the product of control bit `c` with `d` under the
/// assertions of `post` at or beyond `lo`: the direct product when `d` is
/// linear, else the product with a fresh witness handle that an appended
/// assertion binds equal to `d`.
pub open spec fn bound_product(
    post: GeneratedAcir,
    lo: int,
    c: u32,
    d: ExprModel,
    q: ExprModel,
) -> bool {
    if d.is_linear() {
        model_mul(witness_expr_model(Witness(c)), d) == Some(q)
    } else {
        exists|w: u32, i: int|
            #![trigger post.opcodes_seq()[i], witness_expr_model(Witness(w))]
            lo <= i < post.opcodes_seq().len() && (post.opcodes_seq()[i]
                matches Opcode::AssertZero(e) && e@ == model_sub(
                d,
                witness_expr_model(Witness(w)),
            )) && q == model_bilinear(witness_expr_model(Witness(c)), witness_expr_model(Witness(w)))
    }
}

/// `b1`, `b2` are one switch's outputs on the pair `(a1, a2)` under
/// control bit `c`: `b1 = a1 + q` and `b2 = a2 - q` for a product `q`
/// standing for `c * (a2 - a1)`.
pub open spec fn is_switch(
    post: GeneratedAcir,
    lo: int,
    c: u32,
    a1: ExprModel,
    a2: ExprModel,
    b1: ExprModel,
    b2: ExprModel,
) -> bool {
    exists|q: ExprModel|
        #![trigger bound_product(post, lo, c, model_sub(a2, a1), q)]
        bound_product(post, lo, c, model_sub(a2, a1), q) && b1 == model_add(a1, q) && b2
            == model_sub(a2, q)
}

/// The routing witness of one network layer: for two or more inputs, the
/// intermediate expression sequences around the two half networks and the
/// half networks' own witnesses.
pub ghost enum NetworkTrace {
    Leaf,
    Node {
        sub1: Seq<ExprModel>,
        sub2: Seq<ExprModel>,
        mid1: Seq<ExprModel>,
        mid2: Seq<ExprModel>,
        children: Seq<NetworkTrace>,
    },
}

/// `outs` are the outputs of the switching network on `ins`, controlled by
/// the bits of `bits` from `offset` on, as witnessed by the trace `tr`:
/// input switches on adjacent pairs feed two half networks whose outputs
/// are joined by the output switches, with the odd element passed through.
/// Every product handle is bound by an assertion of `post` at or beyond
/// `lo`.
pub open spec fn network_routed(
    post: GeneratedAcir,
    lo: int,
    ins: Seq<ExprModel>,
    bits: Seq<u32>,
    offset: int,
    outs: Seq<ExprModel>,
    tr: NetworkTrace,
) -> bool
    decreases tr,
{
    let n = ins.len() as int;
    let n1 = n / 2;
    let half = (n - 1) / 2;
    if n <= 1 {
        outs == ins
    } else {
        tr matches NetworkTrace::Node { sub1, sub2, mid1, mid2, children } && {
            &&& children.len() == 2
            &&& sub1.len() == n1
            &&& sub2.len() == n - n1
            &&& forall|i: int|
                0 <= i < n1 ==> is_switch(
                    post,
                    lo,
                    bits[offset + i],
                    ins[2 * i],
                    ins[2 * i + 1],
                    #[trigger] sub1[i],
                    sub2[i],
                )
            &&& n % 2 == 1 ==> sub2[n - n1 - 1] == ins[n - 1]
            &&& network_routed(post, lo, sub1, bits, offset + n1 + half, mid1, children[0])
            &&& network_routed(
                post,
                lo,
                sub2,
                bits,
                offset + n1 + half + layer_bits(n1 as nat) as int,
                mid2,
                children[1],
            )
            &&& mid1.len() == n1
            &&& mid2.len() == n - n1
            &&& outs.len() == n
            &&& forall|j: int|
                0 <= j < half ==> is_switch(
                    post,
                    lo,
                    bits[offset + n1 + j],
                    mid1[j],
                    mid2[j],
                    #[trigger] outs[2 * j],
                    outs[2 * j + 1],
                )
            &&& n % 2 == 0 ==> outs[n - 2] == mid1[n1 - 1]
            &&& outs[n - 1] == mid2[n - n1 - 1]
        }
    }
}

/// A boolean-constraint fact survives appending opcodes and lowering the
/// floor index.
proof fn lemma_bit_grow(post1: GeneratedAcir, post2: GeneratedAcir, lo1: int, lo2: int, c: u32)
    requires
        bit_constrained(post1, lo1, c),
        0 <= lo2 <= lo1,
        post2.opcodes_seq().len() >= post1.opcodes_seq().len(),
        post2.opcodes_seq().subrange(0, post1.opcodes_seq().len() as int) == post1.opcodes_seq(),
    ensures
        bit_constrained(post2, lo2, c),
{
    let i = choose|i: int|
        lo1 <= i < post1.opcodes_seq().len() && ((#[trigger] post1.opcodes_seq()[i])
            matches Opcode::AssertZero(e) && e@ == bool_constraint_model(c));
    assert(post2.opcodes_seq().subrange(0, post1.opcodes_seq().len() as int)[i]
        == post1.opcodes_seq()[i]);
    assert(post2.opcodes_seq()[i] matches Opcode::AssertZero(e) && e@ == bool_constraint_model(
        c,
    ));
}

/// A switch fact survives appending opcodes and lowering the floor index.
proof fn lemma_switch_grow(
    post1: GeneratedAcir,
    post2: GeneratedAcir,
    lo1: int,
    lo2: int,
    c: u32,
    a1: ExprModel,
    a2: ExprModel,
    b1: ExprModel,
    b2: ExprModel,
)
    requires
        is_switch(post1, lo1, c, a1, a2, b1, b2),
        0 <= lo2 <= lo1,
        post2.opcodes_seq().len() >= post1.opcodes_seq().len(),
        post2.opcodes_seq().subrange(0, post1.opcodes_seq().len() as int) == post1.opcodes_seq(),
    ensures
        is_switch(post2, lo2, c, a1, a2, b1, b2),
{
    let d = model_sub(a2, a1);
    let q = choose|q: ExprModel|
        #![trigger bound_product(post1, lo1, c, model_sub(a2, a1), q)]
        bound_product(post1, lo1, c, model_sub(a2, a1), q) && b1 == model_add(a1, q) && b2
            == model_sub(a2, q);
    if !d.is_linear() {
        let (w, i) = choose|w: u32, i: int|
            #![trigger post1.opcodes_seq()[i], witness_expr_model(Witness(w))]
            lo1 <= i < post1.opcodes_seq().len() && (post1.opcodes_seq()[i]
                matches Opcode::AssertZero(e) && e@ == model_sub(
                d,
                witness_expr_model(Witness(w)),
            )) && q == model_bilinear(
                witness_expr_model(Witness(c)),
                witness_expr_model(Witness(w)),
            );
        assert(post2.opcodes_seq().subrange(0, post1.opcodes_seq().len() as int)[i]
            == post1.opcodes_seq()[i]);
        assert(post2.opcodes_seq()[i] matches Opcode::AssertZero(e) && e@ == model_sub(
            d,
            witness_expr_model(Witness(w)),
        ));
    }
    assert(bound_product(post2, lo2, c, model_sub(a2, a1), q));
}

/// A routing fact survives appending opcodes and lowering the floor index.
proof fn lemma_network_grow(
    post1: GeneratedAcir,
    post2: GeneratedAcir,
    lo1: int,
    lo2: int,
    ins: Seq<ExprModel>,
    bits: Seq<u32>,
    offset: int,
    outs: Seq<ExprModel>,
    tr: NetworkTrace,
)
    requires
        network_routed(post1, lo1, ins, bits, offset, outs, tr),
        0 <= lo2 <= lo1,
        post2.opcodes_seq().len() >= post1.opcodes_seq().len(),
        post2.opcodes_seq().subrange(0, post1.opcodes_seq().len() as int) == post1.opcodes_seq(),
    ensures
        network_routed(post2, lo2, ins, bits, offset, outs, tr),
    decreases tr,
{
    let n = ins.len() as int;
    let n1 = n / 2;
    let half = (n - 1) / 2;
    if n > 1 {
        match tr {
            NetworkTrace::Node { sub1, sub2, mid1, mid2, children } => {
                assert forall|i: int| 0 <= i < n1 implies is_switch(
                    post2,
                    lo2,
                    bits[offset + i],
                    ins[2 * i],
                    ins[2 * i + 1],
                    #[trigger] sub1[i],
                    sub2[i],
                ) by {
                    lemma_switch_grow(
                        post1,
                        post2,
                        lo1,
                        lo2,
                        bits[offset + i],
                        ins[2 * i],
                        ins[2 * i + 1],
                        sub1[i],
                        sub2[i],
                    );
                }
                assert forall|j: int| 0 <= j < half implies is_switch(
                    post2,
                    lo2,
                    bits[offset + n1 + j],
                    mid1[j],
                    mid2[j],
                    #[trigger] outs[2 * j],
                    outs[2 * j + 1],
                ) by {
                    lemma_switch_grow(
                        post1,
                        post2,
                        lo1,
                        lo2,
                        bits[offset + n1 + j],
                        mid1[j],
                        mid2[j],
                        outs[2 * j],
                        outs[2 * j + 1],
                    );
                }
                lemma_network_grow(
                    post1,
                    post2,
                    lo1,
                    lo2,
                    sub1,
                    bits,
                    offset + n1 + half,
                    mid1,
                    children[0],
                );
                lemma_network_grow(
                    post1,
                    post2,
                    lo1,
                    lo2,
                    sub2,
                    bits,
                    offset + n1 + half + layer_bits(n1 as nat) as int,
                    mid2,
                    children[1],
                );
            },
            NetworkTrace::Leaf => {},
        }
    }
}

impl GeneratedAcir {
    /// One layer of the switching network on `in_expr`, controlled by the
    /// `layer_bits(n)` witnesses of `bits` starting at `offset`: input
    /// switches on adjacent pairs, two recursive half-networks, output
    /// switches. Each control bit is constrained to be boolean, and each
    /// switch emits the expressions `a1 + q` and `a2 - q` for
    /// `q = c * (a2 - a1)`, so a bit routes its pair straight or crossed.
    /// Returns how many bits were consumed, the network's outputs, and the
    /// routing trace that witnesses how the outputs were formed.
    #[verifier::rlimit(100)]
    pub fn permutation_layer(
        &mut self,
        in_expr: &Vec<Expression>,
        bits: &Vec<Witness>,
        offset: usize,
    ) -> (res: (usize, Vec<Expression>, Ghost<NetworkTrace>))
        requires
            old(self).wf(),
            in_expr@.len() >= 1,
            forall|i: int| 0 <= i < in_expr@.len() ==> (#[trigger] in_expr@[i]).wf(),
            offset + layer_bits(in_expr@.len()) <= bits@.len(),
            old(self).witness_count() + 2 * layer_bits(in_expr@.len()) <= u32::MAX as nat,
        ensures
            final(self).wf(),
            Self::stream_extended(*old(self), *final(self)),
            final(self).witness_count() <= old(self).witness_count() + 2 * layer_bits(
                in_expr@.len(),
            ),
            res.0 == layer_bits(in_expr@.len()),
            res.1@.len() == in_expr@.len(),
            forall|i: int| 0 <= i < res.1@.len() ==> (#[trigger] res.1@[i]).wf(),
            network_routed(
                *final(self),
                old(self).opcodes_seq().len() as int,
                expr_models(in_expr@),
                bit_indices(bits@),
                offset as int,
                expr_models(res.1@),
                res.2@,
            ),
            forall|j: int|
                offset <= j < offset + res.0 ==> bit_constrained(
                    *final(self),
                    old(self).opcodes_seq().len() as int,
                    #[trigger] bit_indices(bits@)[j],
                ),
        decreases in_expr@.len(),
    {
        let ghost s0 = *self;
        let ghost lo = s0.opcodes_seq().len() as int;
        let n = in_expr.len();
        let total_bits = bits.len();
        if n == 1 {
            let mut out: Vec<Expression> = Vec::new();
            out.push(in_expr[0].duplicate());
            proof {
                Self::lemma_unchanged_extends(s0, *self);
                assert(expr_models(out@) =~= expr_models(in_expr@));
            }
            return (0, out, Ghost(NetworkTrace::Leaf));
        }
        let n1 = n / 2;
        let half = (n - 1) / 2;
        proof {
            assert(layer_bits(n as nat) == n1 + half + layer_bits(n1 as nat) + layer_bits(
                (n - n1) as nat,
            ));
            Self::lemma_unchanged_extends(s0, *self);
        }

        let mut in_sub1: Vec<Expression> = Vec::new();
        let mut in_sub2: Vec<Expression> = Vec::new();
        let mut i: usize = 0;
        while i < n1
            invariant
                i <= n1,
                n == in_expr@.len(),
                n1 == n / 2,
                half == (n - 1) / 2,
                n >= 2,
                lo == s0.opcodes_seq().len(),
                self.wf(),
                forall|k: int| 0 <= k < in_expr@.len() ==> (#[trigger] in_expr@[k]).wf(),
                offset + layer_bits(n as nat) <= bits@.len(),
                total_bits == bits@.len(),
                in_sub1@.len() == i,
                in_sub2@.len() == i,
                forall|k: int| 0 <= k < i ==> (#[trigger] in_sub1@[k]).wf(),
                forall|k: int| 0 <= k < i ==> (#[trigger] in_sub2@[k]).wf(),
                forall|k: int|
                    0 <= k < i ==> is_switch(
                        *self,
                        lo,
                        bits@[offset + k].0,
                        in_expr@[2 * k]@,
                        in_expr@[2 * k + 1]@,
                        (#[trigger] in_sub1@[k])@,
                        in_sub2@[k]@,
                    ),
                forall|k: int|
                    offset <= k < offset + i ==> bit_constrained(
                        *self,
                        lo,
                        (#[trigger] bits@[k]).0,
                    ),
                self.witness_count() <= s0.witness_count() + 2 * i,
                s0.witness_count() + 2 * layer_bits(n as nat) <= u32::MAX as nat,
                layer_bits(n as nat) == n1 + half + layer_bits(n1 as nat) + layer_bits(
                    (n - n1) as nat,
                ),
                Self::stream_extended(s0, *self),
            decreases n1 - i,
        {
            let ghost before = *self;
            let c = bits[offset + i];
            let mut bool_mul: Vec<(FieldElement, Witness, Witness)> = Vec::new();
            bool_mul.push((FieldElement::one(), c, c));
            let mut bool_lin: Vec<(FieldElement, Witness)> = Vec::new();
            bool_lin.push((fe_neg(&FieldElement::one()), c));
            let bool_constraint = Expression {
                mul_terms: bool_mul,
                linear_combinations: bool_lin,
                q_c: FieldElement::zero(),
            };
            proof {
                assert(bool_constraint@ =~= bool_constraint_model(c.0));
            }
            self.assert_is_zero(bool_constraint);
            let ghost mid1 = *self;
            let c_expr = Expression::from_witness(c);
            let diff = in_expr[2 * i + 1].sub(&in_expr[2 * i]);
            let q = self.mul_with_witness(&c_expr, &diff);
            in_sub1.push(in_expr[2 * i].add(&q));
            in_sub2.push(in_expr[2 * i + 1].sub(&q));
            proof {
                Self::lemma_stream_extended_trans(before, mid1, *self);
                Self::lemma_stream_extended_trans(s0, before, *self);
                assert(c_expr@ =~= witness_expr_model(c));
                let ghost bi = before.opcodes_seq().len() as int;
                assert(self.opcodes_seq().subrange(0, mid1.opcodes_seq().len() as int)[bi]
                    == mid1.opcodes_seq()[bi]);
                assert(self.opcodes_seq()[bi] matches Opcode::AssertZero(e) && e@
                    == bool_constraint_model(c.0));
                assert(bit_constrained(*self, lo, c.0));
                if diff@.is_linear() {
                    assert(bound_product(*self, lo, c.0, diff@, q@));
                } else {
                    assert(c_expr@ != diff@);
                    let ghost w1 = Witness(mid1.witness_count() as u32);
                    let ghost ri = mid1.opcodes_seq().len() as int;
                    assert(self.opcodes_seq()[ri] matches Opcode::AssertZero(e) && e@
                        == model_sub(diff@, witness_expr_model(w1)));
                    assert(Witness(w1.0) == w1);
                    assert(bound_product(*self, lo, c.0, diff@, q@));
                }
                assert(is_switch(
                    *self,
                    lo,
                    c.0,
                    in_expr@[2 * i]@,
                    in_expr@[2 * i + 1]@,
                    in_sub1@.last()@,
                    in_sub2@.last()@,
                ));
                assert forall|k: int| 0 <= k < i + 1 implies is_switch(
                    *self,
                    lo,
                    bits@[offset + k].0,
                    in_expr@[2 * k]@,
                    in_expr@[2 * k + 1]@,
                    (#[trigger] in_sub1@[k])@,
                    in_sub2@[k]@,
                ) by {
                    if k < i {
                        lemma_switch_grow(
                            before,
                            *self,
                            lo,
                            lo,
                            bits@[offset + k].0,
                            in_expr@[2 * k]@,
                            in_expr@[2 * k + 1]@,
                            in_sub1@[k]@,
                            in_sub2@[k]@,
                        );
                    }
                }
                assert forall|k: int| offset <= k < offset + i + 1 implies bit_constrained(
                    *self,
                    lo,
                    (#[trigger] bits@[k]).0,
                ) by {
                    if k < offset + i {
                        lemma_bit_grow(before, *self, lo, lo, bits@[k].0);
                    }
                }
            }
            i += 1;
        }
        if n % 2 == 1 {
            in_sub2.push(in_expr[n - 1].duplicate());
        }

        let ghost s1 = *self;
        let (w1, b1, g1) = self.permutation_layer(&in_sub1, bits, offset + n1 + half);
        let ghost s2 = *self;
        proof {
            Self::lemma_stream_extended_trans(s0, s1, s2);
        }
        let (w2, b2, g2) = self.permutation_layer(&in_sub2, bits, offset + n1 + half + w1);
        let ghost s3 = *self;
        proof {
            Self::lemma_stream_extended_trans(s0, s2, s3);
            Self::lemma_stream_extended_trans(s1, s2, s3);
            assert(s3.opcodes_seq().subrange(0, s3.opcodes_seq().len() as int) =~= s3
                .opcodes_seq());
            lemma_network_grow(
                s3,
                s3,
                s2.opcodes_seq().len() as int,
                lo,
                expr_models(in_sub2@),
                bit_indices(bits@),
                (offset + n1 + half + w1) as int,
                expr_models(b2@),
                g2@,
            );
            lemma_network_grow(
                s2,
                s3,
                s1.opcodes_seq().len() as int,
                lo,
                expr_models(in_sub1@),
                bit_indices(bits@),
                (offset + n1 + half) as int,
                expr_models(b1@),
                g1@,
            );
            assert forall|k: int| 0 <= k < n1 implies is_switch(
                s3,
                lo,
                bits@[offset + k].0,
                in_expr@[2 * k]@,
                in_expr@[2 * k + 1]@,
                (#[trigger] in_sub1@[k])@,
                in_sub2@[k]@,
            ) by {
                lemma_switch_grow(
                    s1,
                    s3,
                    lo,
                    lo,
                    bits@[offset + k].0,
                    in_expr@[2 * k]@,
                    in_expr@[2 * k + 1]@,
                    in_sub1@[k]@,
                    in_sub2@[k]@,
                );
            }
            assert forall|k: int|
                (offset <= k < offset + n1 || offset + n1 + half <= k < offset + n1 + half + w1
                    + w2) implies bit_constrained(s3, lo, (#[trigger] bits@[k]).0) by {
                if offset <= k < offset + n1 {
                    lemma_bit_grow(s1, s3, lo, lo, bits@[k].0);
                } else if offset + n1 + half <= k < offset + n1 + half + w1 {
                    assert(bit_constrained(s2, s1.opcodes_seq().len() as int, bit_indices(
                        bits@,
                    )[k]));
                    lemma_bit_grow(s2, s3, s1.opcodes_seq().len() as int, lo, bits@[k].0);
                } else {
                    assert(bit_constrained(s3, s2.opcodes_seq().len() as int, bit_indices(
                        bits@,
                    )[k]));
                    lemma_bit_grow(s3, s3, s2.opcodes_seq().len() as int, lo, bits@[k].0);
                }
            }
        }

        let mut out_expr: Vec<Expression> = Vec::new();
        let mut j: usize = 0;
        while j < half
            invariant
                j <= half,
                n == in_expr@.len(),
                n1 == n / 2,
                half == (n - 1) / 2,
                n >= 2,
                lo == s0.opcodes_seq().len(),
                b1@.len() == n1,
                b2@.len() == n - n1,
                in_sub1@.len() == n1,
                in_sub2@.len() == n - n1,
                w1 == layer_bits(n1 as nat),
                w2 == layer_bits((n - n1) as nat),
                forall|k: int| 0 <= k < b1@.len() ==> (#[trigger] b1@[k]).wf(),
                forall|k: int| 0 <= k < b2@.len() ==> (#[trigger] b2@[k]).wf(),
                self.wf(),
                forall|k: int| 0 <= k < in_expr@.len() ==> (#[trigger] in_expr@[k]).wf(),
                offset + layer_bits(n as nat) <= bits@.len(),
                total_bits == bits@.len(),
                out_expr@.len() == 2 * j,
                forall|k: int| 0 <= k < out_expr@.len() ==> (#[trigger] out_expr@[k]).wf(),
                forall|k: int|
                    0 <= k < n1 ==> is_switch(
                        *self,
                        lo,
                        bits@[offset + k].0,
                        in_expr@[2 * k]@,
                        in_expr@[2 * k + 1]@,
                        (#[trigger] in_sub1@[k])@,
                        in_sub2@[k]@,
                    ),
                n % 2 == 1 ==> in_sub2@[n - n1 - 1]@ == in_expr@[n - 1]@,
                network_routed(
                    *self,
                    lo,
                    expr_models(in_sub1@),
                    bit_indices(bits@),
                    (offset + n1 + half) as int,
                    expr_models(b1@),
                    g1@,
                ),
                network_routed(
                    *self,
                    lo,
                    expr_models(in_sub2@),
                    bit_indices(bits@),
                    (offset + n1 + half + w1) as int,
                    expr_models(b2@),
                    g2@,
                ),
                forall|k: int|
                    0 <= k < j ==> is_switch(
                        *self,
                        lo,
                        bits@[offset + n1 + k].0,
                        b1@[k]@,
                        b2@[k]@,
                        (#[trigger] out_expr@[2 * k])@,
                        out_expr@[2 * k + 1]@,
                    ),
                forall|k: int|
                    (offset <= k < offset + n1 || offset + n1 <= k < offset + n1 + j || offset
                        + n1 + half <= k < offset + n1 + half + w1 + w2) ==> bit_constrained(
                        *self,
                        lo,
                        (#[trigger] bits@[k]).0,
                    ),
                self.witness_count() <= s3.witness_count() + 2 * j,
                s3.witness_count() <= s0.witness_count() + 2 * (n1 + layer_bits(n1 as nat)
                    + layer_bits((n - n1) as nat)),
                s0.witness_count() + 2 * layer_bits(n as nat) <= u32::MAX as nat,
                layer_bits(n as nat) == n1 + half + layer_bits(n1 as nat) + layer_bits(
                    (n - n1) as nat,
                ),
                Self::stream_extended(s0, *self),
            decreases half - j,
        {
            let ghost before = *self;
            let c = bits[offset + n1 + j];
            let mut bool_mul: Vec<(FieldElement, Witness, Witness)> = Vec::new();
            bool_mul.push((FieldElement::one(), c, c));
            let mut bool_lin: Vec<(FieldElement, Witness)> = Vec::new();
            bool_lin.push((fe_neg(&FieldElement::one()), c));
            let bool_constraint = Expression {
                mul_terms: bool_mul,
                linear_combinations: bool_lin,
                q_c: FieldElement::zero(),
            };
            proof {
                assert(bool_constraint@ =~= bool_constraint_model(c.0));
            }
            self.assert_is_zero(bool_constraint);
            let ghost mid1 = *self;
            let c_expr = Expression::from_witness(c);
            let diff = b2[j].sub(&b1[j]);
            let q = self.mul_with_witness(&c_expr, &diff);
            out_expr.push(b1[j].add(&q));
            out_expr.push(b2[j].sub(&q));
            proof {
                Self::lemma_stream_extended_trans(before, mid1, *self);
                Self::lemma_stream_extended_trans(s0, before, *self);
                assert(c_expr@ =~= witness_expr_model(c));
                let ghost bi = before.opcodes_seq().len() as int;
                assert(self.opcodes_seq().subrange(0, mid1.opcodes_seq().len() as int)[bi]
                    == mid1.opcodes_seq()[bi]);
                assert(self.opcodes_seq()[bi] matches Opcode::AssertZero(e) && e@
                    == bool_constraint_model(c.0));
                assert(bit_constrained(*self, lo, c.0));
                if diff@.is_linear() {
                    assert(bound_product(*self, lo, c.0, diff@, q@));
                } else {
                    assert(c_expr@ != diff@);
                    let ghost wr = Witness(mid1.witness_count() as u32);
                    let ghost ri = mid1.opcodes_seq().len() as int;
                    assert(self.opcodes_seq()[ri] matches Opcode::AssertZero(e) && e@
                        == model_sub(diff@, witness_expr_model(wr)));
                    assert(Witness(wr.0) == wr);
                    assert(bound_product(*self, lo, c.0, diff@, q@));
                }
                assert(is_switch(
                    *self,
                    lo,
                    c.0,
                    b1@[j as int]@,
                    b2@[j as int]@,
                    out_expr@[2 * j]@,
                    out_expr@[2 * j + 1]@,
                ));
                assert forall|k: int| 0 <= k < n1 implies is_switch(
                    *self,
                    lo,
                    bits@[offset + k].0,
                    in_expr@[2 * k]@,
                    in_expr@[2 * k + 1]@,
                    (#[trigger] in_sub1@[k])@,
                    in_sub2@[k]@,
                ) by {
                    lemma_switch_grow(
                        before,
                        *self,
                        lo,
                        lo,
                        bits@[offset + k].0,
                        in_expr@[2 * k]@,
                        in_expr@[2 * k + 1]@,
                        in_sub1@[k]@,
                        in_sub2@[k]@,
                    );
                }
                assert forall|k: int| 0 <= k < j + 1 implies is_switch(
                    *self,
                    lo,
                    bits@[offset + n1 + k].0,
                    b1@[k]@,
                    b2@[k]@,
                    (#[trigger] out_expr@[2 * k])@,
                    out_expr@[2 * k + 1]@,
                ) by {
                    if k < j {
                        lemma_switch_grow(
                            before,
                            *self,
                            lo,
                            lo,
                            bits@[offset + n1 + k].0,
                            b1@[k]@,
                            b2@[k]@,
                            out_expr@[2 * k]@,
                            out_expr@[2 * k + 1]@,
                        );
                    }
                }
                assert forall|k: int|
                    (offset <= k < offset + n1 || offset + n1 <= k < offset + n1 + j + 1
                        || offset + n1 + half <= k < offset + n1 + half + w1 + w2)
                    implies bit_constrained(
                    *self,
                    lo,
                    (#[trigger] bits@[k]).0,
                ) by {
                    if !(k == offset + n1 + j) {
                        lemma_bit_grow(before, *self, lo, lo, bits@[k].0);
                    }
                }
                lemma_network_grow(
                    before,
                    *self,
                    lo,
                    lo,
                    expr_models(in_sub1@),
                    bit_indices(bits@),
                    (offset + n1 + half) as int,
                    expr_models(b1@),
                    g1@,
                );
                lemma_network_grow(
                    before,
                    *self,
                    lo,
                    lo,
                    expr_models(in_sub2@),
                    bit_indices(bits@),
                    (offset + n1 + half + w1) as int,
                    expr_models(b2@),
                    g2@,
                );
            }
            j += 1;
        }
        if n % 2 == 0 {
            out_expr.push(b1[n1 - 1].duplicate());
        }
        out_expr.push(b2[n - n1 - 1].duplicate());

        let ghost tr = NetworkTrace::Node {
            sub1: expr_models(in_sub1@),
            sub2: expr_models(in_sub2@),
            mid1: expr_models(b1@),
            mid2: expr_models(b2@),
            children: seq![g1@, g2@],
        };
        proof {
            assert(network_routed(
                *self,
                lo,
                expr_models(in_expr@),
                bit_indices(bits@),
                offset as int,
                expr_models(out_expr@),
                tr,
            ));
            assert forall|k: int|
                offset <= k < offset + (n1 + half + w1 + w2) implies bit_constrained(
                *self,
                lo,
                (#[trigger] bits@[k]).0,
            ) by {}
        }
        (n1 + half + w1 + w2, out_expr, Ghost(tr))
    }

    /// Constrains `out_expr` to be a permutation of `in_expr`: allocates
    /// the network's control bits, emits the prover-side sorting directive
    /// that assigns them, runs the switching network over the inputs with
    /// every control bit constrained to be boolean, and binds each network
    /// output to the matching entry of `out_expr` with one assertion.
    pub fn permutation(
        &mut self,
        in_expr: &Vec<Expression>,
        out_expr: &Vec<Expression>,
    ) -> (r: Result<(), RuntimeError>)
        requires
            old(self).wf(),
            in_expr@.len() == out_expr@.len(),
            forall|i: int| 0 <= i < in_expr@.len() ==> (#[trigger] in_expr@[i]).wf(),
            forall|i: int| 0 <= i < out_expr@.len() ==> (#[trigger] out_expr@[i]).wf(),
            old(self).witness_count() + 3 * sum_clog2(in_expr@.len()) <= u32::MAX as nat,
        ensures
            final(self).wf(),
            r is Ok,
            Self::stream_extended(*old(self), *final(self)),
            final(self).opcodes_seq()[old(self).opcodes_seq().len() as int]
                matches Opcode::Directive(Directive::PermutationSort {
                inputs,
                tuple,
                bits,
                sort_by,
            }) && tuple == 1u32 && sort_by@ == seq![0u32] && bits@.len() == sum_clog2(
                in_expr@.len(),
            ) && (forall|i: int|
                #![trigger bits@[i]]
                0 <= i < bits@.len() ==> bits@[i].0 as nat == old(self).witness_count() + i)
                && inputs@.len() == in_expr@.len() && (forall|i: int|
                0 <= i < inputs@.len() ==> (#[trigger] inputs@[i])@.len() == 1 && inputs@[i]@[0]@
                    == in_expr@[i]@),
            forall|j: int|
                0 <= j < sum_clog2(in_expr@.len()) ==> bit_constrained(
                    *final(self),
                    old(self).opcodes_seq().len() as int,
                    #[trigger] ((old(self).witness_count() + j) as u32),
                ),
            final(self).opcodes_seq().len() >= old(self).opcodes_seq().len() + 1
                + out_expr@.len(),
            exists|b: Seq<ExprModel>, tr: NetworkTrace|
                #![trigger network_routed(*final(self), old(self).opcodes_seq().len() as int, expr_models(in_expr@), fresh_bit_indices(old(self).witness_count(), sum_clog2(in_expr@.len())), 0, b, tr)]
                network_routed(
                    *final(self),
                    old(self).opcodes_seq().len() as int,
                    expr_models(in_expr@),
                    fresh_bit_indices(old(self).witness_count(), sum_clog2(in_expr@.len())),
                    0,
                    b,
                    tr,
                ) && b.len() == in_expr@.len() && (forall|i: int|
                    0 <= i < out_expr@.len() ==> (#[trigger] final(self).opcodes_seq()[final(self).opcodes_seq().len() - out_expr@.len() + i] matches Opcode::AssertZero(e) && e@ == model_sub(b[i], out_expr@[i]@))),
    {
        let ghost s0 = *self;
        let ghost lo = s0.opcodes_seq().len() as int;
        let n = in_expr.len();

        let mut bits_len: u32 = 0;
        let mut i: usize = 0;
        while i < n
            invariant
                i <= n,
                n == in_expr@.len(),
                bits_len as nat == sum_clog2(i as nat),
                sum_clog2(n as nat) <= u32::MAX as nat,
            decreases n - i,
        {
            proof {
                lemma_sum_clog2_monotone((i + 1) as nat, n as nat);
            }
            bits_len = bits_len + ceil_log2(i + 1);
            i += 1;
        }

        let mut bits: Vec<Witness> = Vec::new();
        let mut bi: u32 = 0;
        while bi < bits_len
            invariant
                bi <= bits_len,
                self.wf(),
                bits@.len() == bi,
                forall|k: int|
                    #![trigger bits@[k]]
                    0 <= k < bi ==> bits@[k].0 as nat == s0.witness_count() + k,
                self.witness_count() == s0.witness_count() + bi,
                s0.witness_count() + bits_len <= u32::MAX as nat,
                Self::bookkeeping_unchanged(s0, *self),
            decreases bits_len - bi,
        {
            let w = self.next_witness_index();
            bits.push(w);
            bi += 1;
        }
        let ghost s1 = *self;
        proof {
            Self::lemma_unchanged_extends(s0, s1);
            assert(bit_indices(bits@) =~= fresh_bit_indices(
                s0.witness_count(),
                sum_clog2(in_expr@.len()),
            ));
        }

        let mut dir_inputs: Vec<Vec<Expression>> = Vec::new();
        let mut di: usize = 0;
        while di < n
            invariant
                di <= n,
                n == in_expr@.len(),
                forall|k: int| 0 <= k < in_expr@.len() ==> (#[trigger] in_expr@[k]).wf(),
                dir_inputs@.len() == di,
                forall|k: int|
                    0 <= k < di ==> (#[trigger] dir_inputs@[k])@.len() == 1 && dir_inputs@[k]@[0]@
                        == in_expr@[k]@ && dir_inputs@[k]@[0].wf(),
            decreases n - di,
        {
            let mut group: Vec<Expression> = Vec::new();
            group.push(in_expr[di].duplicate());
            dir_inputs.push(group);
            di += 1;
        }
        let bits_for_directive = crate::expr::copy_witnesses(&bits);
        let mut sort_by: Vec<u32> = Vec::new();
        sort_by.push(0u32);
        self.push_opcode(
            Opcode::Directive(
                Directive::PermutationSort {
                    inputs: dir_inputs,
                    tuple: 1,
                    bits: bits_for_directive,
                    sort_by,
                },
            ),
        );
        let ghost s2 = *self;
        proof {
            Self::lemma_stream_extended_trans(s0, s1, s2);
            lemma_sum_clog2_is_layer_bits(n as nat);
        }

        if n == 0 {
            proof {
                assert(expr_models(in_expr@) =~= Seq::<ExprModel>::empty());
                assert(network_routed(
                    *self,
                    lo,
                    expr_models(in_expr@),
                    bit_indices(bits@),
                    0,
                    expr_models(in_expr@),
                    NetworkTrace::Leaf,
                ));
            }
            return Ok(());
        }

        let (_consumed, network_out, net_trace) = self.permutation_layer(in_expr, &bits, 0);
        let ghost s3 = *self;
        proof {
            Self::lemma_stream_extended_trans(s0, s2, s3);
            let n2 = s2.opcodes_seq().len() as int;
            assert(s3.opcodes_seq().subrange(0, n2)[n2 - 1] == s2.opcodes_seq()[n2 - 1]);
            assert(s3.opcodes_seq().subrange(0, s3.opcodes_seq().len() as int) =~= s3
                .opcodes_seq());
            lemma_network_grow(
                s3,
                s3,
                s2.opcodes_seq().len() as int,
                lo,
                expr_models(in_expr@),
                bit_indices(bits@),
                0,
                expr_models(network_out@),
                net_trace@,
            );
            assert forall|j: int| 0 <= j < sum_clog2(n as nat) implies bit_constrained(
                s3,
                lo,
                #[trigger] ((s0.witness_count() + j) as u32),
            ) by {
                assert(bit_constrained(s3, s2.opcodes_seq().len() as int, bit_indices(bits@)[j]));
                lemma_bit_grow(s3, s3, s2.opcodes_seq().len() as int, lo, bit_indices(bits@)[j]);
            }
        }

        let mut oi: usize = 0;
        while oi < n
            invariant
                oi <= n,
                n == in_expr@.len(),
                n == out_expr@.len(),
                n == network_out@.len(),
                lo == s0.opcodes_seq().len(),
                forall|k: int| 0 <= k < out_expr@.len() ==> (#[trigger] out_expr@[k]).wf(),
                forall|k: int| 0 <= k < network_out@.len() ==> (#[trigger] network_out@[k]).wf(),
                self.wf(),
                self.opcodes_seq().len() == s3.opcodes_seq().len() + oi,
                self.witness_count() == s3.witness_count(),
                forall|k: int|
                    0 <= k < oi ==> (#[trigger] self.opcodes_seq()[s3.opcodes_seq().len() + k]
                        matches Opcode::AssertZero(e) && e@ == model_sub(
                        network_out@[k]@,
                        out_expr@[k]@,
                    )),
                network_routed(
                    *self,
                    lo,
                    expr_models(in_expr@),
                    bit_indices(bits@),
                    0,
                    expr_models(network_out@),
                    net_trace@,
                ),
                forall|j: int|
                    0 <= j < sum_clog2(n as nat) ==> bit_constrained(
                        *self,
                        lo,
                        #[trigger] ((s0.witness_count() + j) as u32),
                    ),
                Self::stream_extended(s0, *self),
                Self::stream_extended(s3, *self),
            decreases n - oi,
        {
            let ghost before = *self;
            let binding = network_out[oi].sub(&out_expr[oi]);
            self.push_opcode(Opcode::AssertZero(binding));
            proof {
                Self::lemma_stream_extended_trans(s0, before, *self);
                Self::lemma_stream_extended_trans(s3, before, *self);
                assert forall|k: int| 0 <= k < oi + 1 implies (
                #[trigger] self.opcodes_seq()[s3.opcodes_seq().len() + k]
                    matches Opcode::AssertZero(e) && e@ == model_sub(
                    network_out@[k]@,
                    out_expr@[k]@,
                )) by {
                    if k < oi {
                        assert(self.opcodes_seq()[s3.opcodes_seq().len() + k]
                            == before.opcodes_seq()[s3.opcodes_seq().len() + k]);
                    }
                }
                lemma_network_grow(
                    before,
                    *self,
                    lo,
                    lo,
                    expr_models(in_expr@),
                    bit_indices(bits@),
                    0,
                    expr_models(network_out@),
                    net_trace@,
                );
                assert forall|j: int| 0 <= j < sum_clog2(n as nat) implies bit_constrained(
                    *self,
                    lo,
                    #[trigger] ((s0.witness_count() + j) as u32),
                ) by {
                    lemma_bit_grow(before, *self, lo, lo, (s0.witness_count() + j) as u32);
                }
            }
            oi += 1;
        }
        proof {
            let nd = s0.opcodes_seq().len() as int;
            assert(self.opcodes_seq().subrange(0, s3.opcodes_seq().len() as int)[nd]
                == s3.opcodes_seq()[nd]);
            assert(s3.opcodes_seq().subrange(0, s2.opcodes_seq().len() as int)[nd]
                == s2.opcodes_seq()[nd]);
            assert(self.opcodes_seq()[nd] == s2.opcodes_seq().last());
            assert(network_routed(
                *self,
                lo,
                expr_models(in_expr@),
                fresh_bit_indices(s0.witness_count(), sum_clog2(in_expr@.len())),
                0,
                expr_models(network_out@),
                net_trace@,
            ));
            assert(expr_models(network_out@).len() == in_expr@.len());
        }
        Ok(())
    }
}

} // verus!
