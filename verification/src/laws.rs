//! Laws of the builder that hold for every sequence of calls: freshness of
//! allocated witnesses, the degree bound on emitted assertions, and the
//! completeness of the location map.

use vstd::prelude::*;
use crate::acir::{GeneratedAcir, ty_constraint_model, y_constraint_model};
use crate::expr::{
    ExprModel, Witness, model_add, model_scaled, model_sub, scale_lin, scale_mul,
};
use crate::field::field_modulus;
use crate::opcode::{Opcode, OpcodeLocation};
use vstd::arithmetic::div_mod::{
    lemma_add_mod_noop, lemma_mod_equivalence, lemma_mod_multiples_vanish,
    lemma_mul_mod_noop_left, lemma_small_mod,
};
use vstd::arithmetic::mul::{lemma_mul_is_associative, lemma_mul_is_distributive_add};
use vstd::arithmetic::power::pow;

verus! {

/// One witness was allocated between `pre` and `post` and `w` is it: the
/// shape `next_witness_index` ensures.
pub open spec fn allocated_step(pre: GeneratedAcir, post: GeneratedAcir, w: Witness) -> bool {
    w.0 as nat == pre.witness_count() && post.witness_count() == pre.witness_count() + 1
}

/// Witness monotonicity: when one allocation happens after another — any
/// number of builder calls apart, none of which shrink the counter — the
/// later allocation returns the strictly larger index. In particular a
/// fresh index never equals any previously returned one.
pub proof fn lemma_witness_monotonic(
    pre1: GeneratedAcir,
    post1: GeneratedAcir,
    w1: Witness,
    pre2: GeneratedAcir,
    post2: GeneratedAcir,
    w2: Witness,
)
    requires
        allocated_step(pre1, post1, w1),
        allocated_step(pre2, post2, w2),
        post1.witness_count() <= pre2.witness_count(),
    ensures
        w1.0 < w2.0,
{
}

/// Degree bound: every `AssertZero` opcode of the stream carries an
/// expression of total degree at most two. The expression representation
/// itself enforces this: a term is at most a product of two witnesses, so
/// no shape of `mul_terms`, `linear_combinations` and `q_c` can denote a
/// higher degree.
pub proof fn lemma_degree_bound(b: GeneratedAcir, i: int)
    requires
        0 <= i < b.opcodes_seq().len(),
        b.opcodes_seq()[i] matches Opcode::AssertZero(_),
    ensures
        b.opcodes_seq()[i]->AssertZero_0@.deg() <= 2,
{
}

/// Location completeness: in a well-formed builder every entry of the
/// location map refers to an opcode of the stream — a plain index below the
/// stream's length, or a valid instruction index of an embedded program at
/// its position. The same holds of the assertion-message map.
pub proof fn lemma_location_completeness(b: GeneratedAcir, k: OpcodeLocation)
    requires
        b.wf(),
        b.locations@.contains_key(k) || b.assert_messages@.contains_key(k),
    ensures
        k matches OpcodeLocation::Acir(i) ==> i < b.opcodes_seq().len(),
        k matches OpcodeLocation::Brillig { acir_index, brillig_index } ==> acir_index
            < b.opcodes_seq().len() && (b.opcodes_seq()[acir_index as int]
            matches Opcode::Brillig(prog) && brillig_index < prog.bytecode@.len()),
{
    assert(b.loc_in_range(k));
}

/// The value of a sequence of quadratic terms under the witness
/// assignment `a`, before reduction modulo the field order.
pub open spec fn eval_mul_terms(s: Seq<(nat, u32, u32)>, a: spec_fn(u32) -> nat) -> int
    decreases s.len(),
{
    if s.len() == 0 {
        0
    } else {
        eval_mul_terms(s.drop_last(), a) + s.last().0 as int * (a(s.last().1) as int * a(s.last().2) as int)
    }
}

/// The value of a sequence of linear terms under the witness assignment
/// `a`, before reduction modulo the field order.
pub open spec fn eval_lin_terms(s: Seq<(nat, u32)>, a: spec_fn(u32) -> nat) -> int
    decreases s.len(),
{
    if s.len() == 0 {
        0
    } else {
        eval_lin_terms(s.drop_last(), a) + s.last().0 as int * a(s.last().1) as int
    }
}

/// The value of an expression under the witness assignment `a`, before
/// reduction modulo the field order.
pub open spec fn eval_model(m: ExprModel, a: spec_fn(u32) -> nat) -> int {
    eval_mul_terms(m.mul, a) + eval_lin_terms(m.lin, a) + m.q
}

/// The assignment satisfies the constraint `AssertZero(m)`: the
/// expression's value is zero in the field.
pub open spec fn satisfies(a: spec_fn(u32) -> nat, m: ExprModel) -> bool {
    eval_model(m, a) % (field_modulus() as int) == 0
}

proof fn lemma_eval_lin_concat(s: Seq<(nat, u32)>, t: Seq<(nat, u32)>, a: spec_fn(u32) -> nat)
    ensures
        eval_lin_terms(s + t, a) == eval_lin_terms(s, a) + eval_lin_terms(t, a),
    decreases t.len(),
{
    if t.len() == 0 {
        assert(s + t =~= s);
    } else {
        assert((s + t).drop_last() =~= s + t.drop_last());
        assert((s + t).last() == t.last());
        lemma_eval_lin_concat(s, t.drop_last(), a);
    }
}

proof fn lemma_eval_mul_concat(
    s: Seq<(nat, u32, u32)>,
    t: Seq<(nat, u32, u32)>,
    a: spec_fn(u32) -> nat,
)
    ensures
        eval_mul_terms(s + t, a) == eval_mul_terms(s, a) + eval_mul_terms(t, a),
    decreases t.len(),
{
    if t.len() == 0 {
        assert(s + t =~= s);
    } else {
        assert((s + t).drop_last() =~= s + t.drop_last());
        assert((s + t).last() == t.last());
        lemma_eval_mul_concat(s, t.drop_last(), a);
    }
}

proof fn lemma_eval_lin_scaled(k: nat, s: Seq<(nat, u32)>, a: spec_fn(u32) -> nat)
    ensures
        eval_lin_terms(scale_lin(k, s), a) % (field_modulus() as int) == (k * eval_lin_terms(
            s,
            a,
        )) % (field_modulus() as int),
    decreases s.len(),
{
    let m = field_modulus() as int;
    if s.len() == 0 {
        assert(scale_lin(k, s) =~= Seq::<(nat, u32)>::empty());
    } else {
        let sc = scale_lin(k, s);
        assert(sc.drop_last() =~= scale_lin(k, s.drop_last()));
        lemma_eval_lin_scaled(k, s.drop_last(), a);
        let rest = eval_lin_terms(s.drop_last(), a);
        let c = s.last().0 as int;
        let x = a(s.last().1) as int;
        let k_ = k as int;
        assert(eval_lin_terms(sc, a) == eval_lin_terms(sc.drop_last(), a) + ((k_ * c) % m) * x);
        lemma_add_mod_noop(eval_lin_terms(sc.drop_last(), a), ((k_ * c) % m) * x, m);
        lemma_mul_mod_noop_left(k_ * c, x, m);
        lemma_add_mod_noop(k_ * rest, (k_ * c) * x, m);
        lemma_mul_is_associative(k_, c, x);
        lemma_mul_is_distributive_add(k_, rest, c * x);
    }
}

proof fn lemma_eval_mul_scaled(k: nat, s: Seq<(nat, u32, u32)>, a: spec_fn(u32) -> nat)
    ensures
        eval_mul_terms(scale_mul(k, s), a) % (field_modulus() as int) == (k * eval_mul_terms(
            s,
            a,
        )) % (field_modulus() as int),
    decreases s.len(),
{
    let m = field_modulus() as int;
    if s.len() == 0 {
        assert(scale_mul(k, s) =~= Seq::<(nat, u32, u32)>::empty());
    } else {
        let sc = scale_mul(k, s);
        assert(sc.drop_last() =~= scale_mul(k, s.drop_last()));
        lemma_eval_mul_scaled(k, s.drop_last(), a);
        let rest = eval_mul_terms(s.drop_last(), a);
        let c = s.last().0 as int;
        let x = (a(s.last().1) * a(s.last().2)) as int;
        let k_ = k as int;
        assert(eval_mul_terms(sc, a) == eval_mul_terms(sc.drop_last(), a) + ((k_ * c) % m) * x);
        lemma_add_mod_noop(eval_mul_terms(sc.drop_last(), a), ((k_ * c) % m) * x, m);
        lemma_mul_mod_noop_left(k_ * c, x, m);
        lemma_add_mod_noop(k_ * rest, (k_ * c) * x, m);
        lemma_mul_is_associative(k_, c, x);
        lemma_mul_is_distributive_add(k_, rest, c * x);
    }
}

proof fn lemma_eval_scaled(k: nat, x: ExprModel, a: spec_fn(u32) -> nat)
    ensures
        eval_model(model_scaled(k, x), a) % (field_modulus() as int) == (k * eval_model(x, a)) % (
        field_modulus() as int),
{
    let m = field_modulus() as int;
    let k_ = k as int;
    let ma = eval_mul_terms(x.mul, a);
    let la = eval_lin_terms(x.lin, a);
    lemma_eval_mul_scaled(k, x.mul, a);
    lemma_eval_lin_scaled(k, x.lin, a);
    let sm = eval_mul_terms(scale_mul(k, x.mul), a);
    let sl = eval_lin_terms(scale_lin(k, x.lin), a);
    let sq = (k * x.q) % field_modulus();
    lemma_add_mod_noop(sm, sl, m);
    lemma_add_mod_noop(k_ * ma, k_ * la, m);
    lemma_add_mod_noop(sm + sl, sq as int, m);
    lemma_mul_mod_noop_left(k_ * x.q, 1, m);
    lemma_add_mod_noop(k_ * ma + k_ * la, k_ * x.q, m);
    lemma_mul_is_distributive_add(k_, ma, la);
    lemma_mul_is_distributive_add(k_, ma + la, x.q as int);
}

proof fn lemma_eval_add(x: ExprModel, y: ExprModel, a: spec_fn(u32) -> nat)
    ensures
        eval_model(model_add(x, y), a) % (field_modulus() as int) == (eval_model(x, a)
            + eval_model(y, a)) % (field_modulus() as int),
{
    let m = field_modulus() as int;
    lemma_eval_mul_concat(x.mul, y.mul, a);
    lemma_eval_lin_concat(x.lin, y.lin, a);
    let mm = eval_mul_terms(x.mul, a) + eval_mul_terms(y.mul, a);
    let ll = eval_lin_terms(x.lin, a) + eval_lin_terms(y.lin, a);
    let qq = (x.q + y.q) % field_modulus();
    lemma_add_mod_noop(mm + ll, qq as int, m);
    lemma_mul_mod_noop_left((x.q + y.q) as int, 1, m);
    lemma_add_mod_noop(mm + ll, (x.q + y.q) as int, m);
}

/// What one `AssertZero(x - y)` opcode means: an assignment satisfies the
/// emitted difference exactly when it gives `x` and `y` the same field
/// value. This is the semantic content of `create_witness_for_expression`
/// and of every binding constraint the gadgets emit.
pub proof fn lemma_sub_binds(x: ExprModel, y: ExprModel, a: spec_fn(u32) -> nat)
    ensures
        satisfies(a, model_sub(x, y)) <==> eval_model(x, a) % (field_modulus() as int)
            == eval_model(y, a) % (field_modulus() as int),
{
    let m = field_modulus() as int;
    let xe = eval_model(x, a);
    let ye = eval_model(y, a);
    lemma_eval_add(x, model_scaled((field_modulus() - 1) as nat, y), a);
    lemma_eval_scaled((field_modulus() - 1) as nat, y, a);
    let sy = eval_model(model_scaled((field_modulus() - 1) as nat, y), a);
    lemma_add_mod_noop(xe, sy, m);
    lemma_add_mod_noop(xe, (m - 1) * ye, m);
    assert(xe + (m - 1) * ye == m * ye + (xe - ye)) by (nonlinear_arith);
    lemma_mod_multiples_vanish(ye, xe - ye, m);
    lemma_mod_equivalence(xe, ye, m);
}

/// Is-zero, the forced branch that needs no field inversion: when the
/// handle `t` is zero, any assignment satisfying the boolean constraint
/// `t*z + y - 1 == 0` gives the output `y` the value one, whatever the
/// prover chose for the hint `z`.
pub proof fn lemma_is_zero_output_one(t: u32, z: u32, y: u32, a: spec_fn(u32) -> nat)
    requires
        a(t) % field_modulus() == 0,
        a(y) < field_modulus(),
        satisfies(a, y_constraint_model(t, z, y)),
    ensures
        a(y) == 1,
{
    let m = field_modulus() as int;
    let at = a(t) as int;
    let az = a(z) as int;
    let ay = a(y) as int;
    let mt = y_constraint_model(t, z, y).mul;
    let lt = y_constraint_model(t, z, y).lin;
    assert(mt.drop_last() =~= Seq::<(nat, u32, u32)>::empty());
    assert(eval_mul_terms(mt.drop_last(), a) == 0);
    vstd::arithmetic::mul::lemma_mul_basics(at * az);
    assert(eval_mul_terms(mt, a) == at * az);
    assert(lt.drop_last() =~= Seq::<(nat, u32)>::empty());
    assert(eval_lin_terms(lt.drop_last(), a) == 0);
    vstd::arithmetic::mul::lemma_mul_basics(ay);
    assert(eval_lin_terms(lt, a) == ay);
    lemma_mul_mod_noop_left(at, az, m);
    lemma_add_mod_noop(at * az, ay + m - 1, m);
    assert((ay + m - 1) % m == 0);
    if ay != 1 {
        lemma_mod_multiples_vanish(1, ay - 1, m);
        if ay == 0 {
            lemma_small_mod((m - 1) as nat, m as nat);
        } else {
            lemma_small_mod((ay - 1) as nat, m as nat);
        }
    }
}

/// Is-zero, completeness for a zero handle: when `t` is zero, setting the
/// output to one satisfies both emitted constraints, whatever value the
/// hint `z` carries.
pub proof fn lemma_is_zero_accepts_one(t: u32, z: u32, y: u32, a: spec_fn(u32) -> nat)
    requires
        a(t) % field_modulus() == 0,
        a(y) == 1,
    ensures
        satisfies(a, y_constraint_model(t, z, y)),
        satisfies(a, ty_constraint_model(t, y)),
{
    let m = field_modulus() as int;
    let at = a(t) as int;
    let az = a(z) as int;
    let mt = y_constraint_model(t, z, y).mul;
    let lt = y_constraint_model(t, z, y).lin;
    assert(mt.drop_last() =~= Seq::<(nat, u32, u32)>::empty());
    assert(eval_mul_terms(mt.drop_last(), a) == 0);
    vstd::arithmetic::mul::lemma_mul_basics(at * az);
    assert(eval_mul_terms(mt, a) == at * az);
    assert(lt.drop_last() =~= Seq::<(nat, u32)>::empty());
    assert(eval_lin_terms(lt.drop_last(), a) == 0);
    vstd::arithmetic::mul::lemma_mul_basics(1);
    assert(eval_lin_terms(lt, a) == 1);
    lemma_mul_mod_noop_left(at, az, m);
    lemma_add_mod_noop(at * az, m, m);
    lemma_mod_multiples_vanish(1, 0, m);
    let m2 = ty_constraint_model(t, y).mul;
    assert(m2.drop_last() =~= Seq::<(nat, u32, u32)>::empty());
    assert(eval_mul_terms(m2.drop_last(), a) == 0);
    vstd::arithmetic::mul::lemma_mul_basics(at * 1);
    vstd::arithmetic::mul::lemma_mul_basics(at);
    assert(eval_mul_terms(m2, a) == at);
    assert(eval_lin_terms(ty_constraint_model(t, y).lin, a) == 0);
    lemma_mul_mod_noop_left(at, 1, m);
    vstd::arithmetic::mul::lemma_mul_basics(at % m);
}

/// Is-zero, completeness for a non-zero handle: when the prover supplies
/// the true inverse as the hint, setting the output to zero satisfies both
/// emitted constraints.
pub proof fn lemma_is_zero_accepts_zero(t: u32, z: u32, y: u32, a: spec_fn(u32) -> nat)
    requires
        (a(t) * a(z)) % field_modulus() == 1,
        a(y) == 0,
    ensures
        satisfies(a, y_constraint_model(t, z, y)),
        satisfies(a, ty_constraint_model(t, y)),
{
    let m = field_modulus() as int;
    let at = a(t) as int;
    let az = a(z) as int;
    let mt = y_constraint_model(t, z, y).mul;
    let lt = y_constraint_model(t, z, y).lin;
    assert(mt.drop_last() =~= Seq::<(nat, u32, u32)>::empty());
    assert(eval_mul_terms(mt.drop_last(), a) == 0);
    vstd::arithmetic::mul::lemma_mul_basics(at * az);
    assert(eval_mul_terms(mt, a) == at * az);
    assert(lt.drop_last() =~= Seq::<(nat, u32)>::empty());
    assert(eval_lin_terms(lt.drop_last(), a) == 0);
    vstd::arithmetic::mul::lemma_mul_basics_2(1);
    assert(eval_lin_terms(lt, a) == 0);
    lemma_add_mod_noop(at * az, m - 1, m);
    lemma_small_mod((m - 1) as nat, m as nat);
    lemma_mod_multiples_vanish(1, 0, m);
    let m2 = ty_constraint_model(t, y).mul;
    assert(m2.drop_last() =~= Seq::<(nat, u32, u32)>::empty());
    assert(eval_mul_terms(m2.drop_last(), a) == 0);
    vstd::arithmetic::mul::lemma_mul_basics_2(at);
    vstd::arithmetic::mul::lemma_mul_basics(0);
    assert(eval_mul_terms(m2, a) == 0);
    assert(eval_lin_terms(ty_constraint_model(t, y).lin, a) == 0);
}

/// The value of little-endian digits in the given radix:
/// `d[0] + d[1]*radix + d[2]*radix^2 + ...`.
pub open spec fn digit_sum(d: Seq<nat>, radix: nat) -> int
    decreases d.len(),
{
    if d.len() == 0 {
        0
    } else {
        digit_sum(d.drop_last(), radix) + d.last() as int * pow(
            radix as int,
            (d.len() - 1) as nat,
        )
    }
}

/// Digits below the radix compose to a value below `radix^count`.
proof fn lemma_digit_sum_bound(d: Seq<nat>, radix: nat)
    requires
        radix >= 1,
        forall|i: int| 0 <= i < d.len() ==> #[trigger] d[i] < radix,
    ensures
        0 <= digit_sum(d, radix) < pow(radix as int, d.len()),
    decreases d.len(),
{
    vstd::arithmetic::power::lemma_pow_positive(radix as int, d.len());
    if d.len() > 0 {
        lemma_digit_sum_bound(d.drop_last(), radix);
        let p = pow(radix as int, (d.len() - 1) as nat);
        vstd::arithmetic::power::lemma_pow_positive(radix as int, (d.len() - 1) as nat);
        assert(d.last() < radix);
        vstd::arithmetic::mul::lemma_mul_inequality(d.last() as int, radix as int - 1, p);
        assert((radix as int - 1) * p + p == radix as int * p) by (nonlinear_arith);
        assert(pow(radix as int, d.len()) == radix as int * p) by {
            vstd::arithmetic::power::lemma_pow1(radix as int);
            vstd::arithmetic::power::lemma_pow_adds(radix as int, 1, (d.len() - 1) as nat);
        }
        vstd::arithmetic::mul::lemma_mul_nonnegative(d.last() as int, p);
    }
}

/// The recomposition expression and the digit sum agree in the field.
proof fn lemma_decomp_eval(limbs: Seq<Witness>, radix: u32, a: spec_fn(u32) -> nat)
    ensures
        eval_lin_terms(GeneratedAcir::radix_decomp_model(limbs, radix).lin, a) % (
        field_modulus() as int) == digit_sum(
            Seq::new(limbs.len(), |i: int| a(limbs[i].0)),
            radix as nat,
        ) % (field_modulus() as int),
    decreases limbs.len(),
{
    let m = field_modulus() as int;
    let lt = GeneratedAcir::radix_decomp_model(limbs, radix).lin;
    let d = Seq::new(limbs.len(), |i: int| a(limbs[i].0));
    if limbs.len() == 0 {
        assert(lt =~= Seq::<(nat, u32)>::empty());
        assert(d =~= Seq::<nat>::empty());
    } else {
        lemma_decomp_eval(limbs.drop_last(), radix, a);
        assert(lt.drop_last() =~= GeneratedAcir::radix_decomp_model(
            limbs.drop_last(),
            radix,
        ).lin);
        assert(d.drop_last() =~= Seq::new(limbs.drop_last().len(), |i: int| a(
            limbs.drop_last()[i].0,
        )));
        let p = pow(radix as int, (limbs.len() - 1) as nat);
        let alast = a(limbs.last().0) as int;
        assert(eval_lin_terms(lt, a) == eval_lin_terms(lt.drop_last(), a) + ((p % m) as nat)
            as int * alast);
        assert(digit_sum(d, radix as nat) == digit_sum(d.drop_last(), radix as nat) + alast * p);
        lemma_add_mod_noop(eval_lin_terms(lt.drop_last(), a), (p % m) * alast, m);
        lemma_mul_mod_noop_left(p, alast, m);
        lemma_add_mod_noop(digit_sum(d.drop_last(), radix as nat), alast * p, m);
        vstd::arithmetic::mul::lemma_mul_is_commutative(p, alast);
    }
}

/// Radix round trip: when every limb is below the radix, the whole digit
/// space fits in the field, and an assignment satisfies the recomposition
/// assertion that `radix_le_decompose` emits for an expression of field
/// value `v < radix^count`, then the limbs recompose to exactly `v`. This
/// needs `radix^count` to be at most the field order: with more digit
/// space than the field holds, a decomposition of `v` plus the field order
/// also satisfies the assertion.
pub proof fn lemma_radix_round_trip(
    e: ExprModel,
    limbs: Seq<Witness>,
    radix: u32,
    a: spec_fn(u32) -> nat,
    v: nat,
)
    requires
        radix >= 1,
        forall|i: int| 0 <= i < limbs.len() ==> a((#[trigger] limbs[i]).0) < radix,
        pow(radix as int, limbs.len()) <= field_modulus(),
        v == eval_model(e, a) % (field_modulus() as int),
        v < pow(radix as int, limbs.len()),
        satisfies(a, model_sub(e, GeneratedAcir::radix_decomp_model(limbs, radix))),
    ensures
        digit_sum(Seq::new(limbs.len(), |i: int| a(limbs[i].0)), radix as nat) == v,
{
    let m = field_modulus() as int;
    let decomp = GeneratedAcir::radix_decomp_model(limbs, radix);
    let d = Seq::new(limbs.len(), |i: int| a(limbs[i].0));
    lemma_sub_binds(e, decomp, a);
    assert(eval_mul_terms(decomp.mul, a) == 0) by {
        assert(decomp.mul =~= Seq::<(nat, u32, u32)>::empty());
    }
    assert(eval_model(decomp, a) == eval_lin_terms(decomp.lin, a));
    lemma_decomp_eval(limbs, radix, a);
    assert forall|i: int| 0 <= i < d.len() implies #[trigger] d[i] < radix as nat by {
        assert(a(limbs[i].0) < radix);
    }
    lemma_digit_sum_bound(d, radix as nat);
    lemma_small_mod(digit_sum(d, radix as nat) as nat, m as nat);
}

/// Is-zero through the builder: after a run of the gadget whose handle
/// carries the field value zero, any assignment that satisfies the two
/// constraints it emitted and keeps the output below the field order gives
/// the returned witness the value one. The converse forcing — a non-zero
/// handle driving the output to zero — rests on the modulus having no zero
/// divisors, which is not derivable here.
pub proof fn lemma_is_zero_run_output_one(
    pre: GeneratedAcir,
    post: GeneratedAcir,
    t: crate::expr::ExprModel,
    r: Witness,
    a: spec_fn(u32) -> nat,
)
    requires
        GeneratedAcir::is_zero_emitted(pre, post, t, r),
        crate::acir::is_zero_handle(t) matches Some(tw) && a(tw) % field_modulus() == 0,
        a(r.0) < field_modulus(),
        forall|i: int|
            0 <= i < post.opcodes_seq().len() ==> ((#[trigger] post.opcodes_seq()[i])
                matches Opcode::AssertZero(c) ==> satisfies(a, c@)),
    ensures
        a(r.0) == 1,
{
    let tw = crate::acir::is_zero_handle(t)->Some_0;
    let base = pre.opcodes_seq().len() as int;
    let z = pre.witness_count() as u32;
    assert(post.opcodes_seq()[base + 1] matches Opcode::AssertZero(c) && c@
        == y_constraint_model(tw, z, r.0));
    lemma_is_zero_output_one(tw, z, r.0, a);
}

} // verus!
