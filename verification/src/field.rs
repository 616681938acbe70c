//! Elements of the prime field over which circuits are built.
//!
//! A field element is held canonically as 32 big-endian bytes whose value is
//! reduced below the modulus, so that the mathematical value of an element is
//! a plain function of its bytes. All field arithmetic is delegated to the
//! backend's field implementation through trusted wrappers whose contracts
//! state the result as modular arithmetic on those values.

use vstd::prelude::*;
use vstd::arithmetic::div_mod::lemma_fundamental_div_mod_converse;

verus! {

/// The modulus of the field: the order of the scalar group of the BN254
/// curve, a 254-bit prime.
pub open spec fn field_modulus() -> nat {
    0x30644e72e131a029b85045b68181585d2833e84879b9709143e1f593f0000001nat
}

/// The bit length of the modulus.
pub open spec fn field_max_num_bits() -> u32 {
    254
}

/// The value of a big-endian byte string.
pub open spec fn be_val(s: Seq<u8>) -> nat
    decreases s.len(),
{
    if s.len() == 0 {
        0
    } else {
        (256 * be_val(s.drop_last()) + s.last()) as nat
    }
}

/// An element of the field, held as its canonical 32-byte big-endian
/// representation.
#[derive(Debug, Clone, PartialEq, Eq)]
pub struct FieldElement {
    pub be_bytes: Vec<u8>,
}

impl FieldElement {
    /// The mathematical value of this element.
    pub open spec fn value(self) -> nat {
        be_val(self.be_bytes@)
    }

    /// Canonical form: exactly 32 bytes, value reduced below the modulus.
    pub open spec fn wf(self) -> bool {
        self.be_bytes@.len() == 32 && self.value() < field_modulus()
    }

    /// The zero element.
    pub fn zero() -> (r: FieldElement)
        ensures
            r.wf(),
            r.value() == 0,
    {
        let mut b: Vec<u8> = Vec::new();
        let mut i: usize = 0;
        while i < 32
            invariant
                b@.len() == i,
                i <= 32,
                be_val(b@) == 0,
            decreases 32 - i,
        {
            let ghost prev = b@;
            b.push(0u8);
            proof {
                assert(b@.drop_last() =~= prev);
            }
            i += 1;
        }
        FieldElement { be_bytes: b }
    }

    /// The one element.
    pub fn one() -> (r: FieldElement)
        ensures
            r.wf(),
            r.value() == 1,
    {
        let mut b: Vec<u8> = Vec::new();
        let mut i: usize = 0;
        while i < 31
            invariant
                b@.len() == i,
                i <= 31,
                be_val(b@) == 0,
            decreases 31 - i,
        {
            let ghost prev = b@;
            b.push(0u8);
            proof {
                assert(b@.drop_last() =~= prev);
            }
            i += 1;
        }
        let ghost prev = b@;
        b.push(1u8);
        proof {
            assert(b@.drop_last() =~= prev);
        }
        FieldElement { be_bytes: b }
    }

    /// A copy of this element.
    pub fn duplicate(&self) -> (r: FieldElement)
        ensures
            r.be_bytes@ == self.be_bytes@,
    {
        let b = self.be_bytes.clone();
        proof {
            assert(b@ =~= self.be_bytes@);
        }
        FieldElement { be_bytes: b }
    }

    /// Whether this element and `other` are the same field value.
    pub fn eq_value(&self, other: &FieldElement) -> (r: bool)
        requires
            self.wf(),
            other.wf(),
        ensures
            r <==> self.value() == other.value(),
    {
        let mut i: usize = 0;
        let mut equal = true;
        while i < 32
            invariant
                i <= 32,
                self.wf(),
                other.wf(),
                equal <==> (forall|j: int|
                    0 <= j < i ==> self.be_bytes@[j] == other.be_bytes@[j]),
            decreases 32 - i,
        {
            if self.be_bytes[i] != other.be_bytes[i] {
                equal = false;
            }
            i += 1;
        }
        proof {
            if equal {
                assert(self.be_bytes@ =~= other.be_bytes@);
            } else {
                if self.value() == other.value() {
                    lemma_be_val_injective(self.be_bytes@, other.be_bytes@);
                    assert(forall|j: int|
                        0 <= j < 32 ==> self.be_bytes@[j] == other.be_bytes@[j]);
                }
            }
        }
        equal
    }
}

/// Byte strings of equal length with the same value are equal.
pub proof fn lemma_be_val_injective(s: Seq<u8>, t: Seq<u8>)
    requires
        s.len() == t.len(),
        be_val(s) == be_val(t),
    ensures
        s =~= t,
    decreases s.len(),
{
    if s.len() > 0 {
        lemma_be_val_last(s);
        lemma_be_val_last(t);
        lemma_be_val_injective(s.drop_last(), t.drop_last());
        assert(s =~= s.drop_last().push(s.last()));
        assert(t =~= t.drop_last().push(t.last()));
    }
}

/// The last byte and the rest can be read off from the value.
pub proof fn lemma_be_val_last(s: Seq<u8>)
    requires
        s.len() > 0,
    ensures
        s.last() == be_val(s) % 256,
        be_val(s.drop_last()) == be_val(s) / 256,
{
    lemma_fundamental_div_mod_converse(
        be_val(s) as int,
        256,
        be_val(s.drop_last()) as int,
        s.last() as int,
    );
}

/// Relies on `FieldElement::from_be_bytes_reduce`: the bytes are read as a
/// big-endian integer and reduced modulo the field order.
#[verifier::external_body]
pub fn fe_from_be_bytes_reduce(bytes: &Vec<u8>) -> (r: FieldElement)
    ensures
        r.wf(),
        r.value() == be_val(bytes@) % field_modulus(),
{
    FieldElement {
        be_bytes: acvm::FieldElement::from_be_bytes_reduce(bytes).to_be_bytes(),
    }
}

/// Relies on the field's addition.
#[verifier::external_body]
pub fn fe_add(a: &FieldElement, b: &FieldElement) -> (r: FieldElement)
    ensures
        r.wf(),
        r.value() == (a.value() + b.value()) % field_modulus(),
{
    let x = acvm::FieldElement::from_be_bytes_reduce(&a.be_bytes);
    let y = acvm::FieldElement::from_be_bytes_reduce(&b.be_bytes);
    FieldElement { be_bytes: (x + y).to_be_bytes() }
}

/// Relies on the field's multiplication.
#[verifier::external_body]
pub fn fe_mul(a: &FieldElement, b: &FieldElement) -> (r: FieldElement)
    ensures
        r.wf(),
        r.value() == (a.value() * b.value()) % field_modulus(),
{
    let x = acvm::FieldElement::from_be_bytes_reduce(&a.be_bytes);
    let y = acvm::FieldElement::from_be_bytes_reduce(&b.be_bytes);
    FieldElement { be_bytes: (x * y).to_be_bytes() }
}

/// Relies on the field's negation.
#[verifier::external_body]
pub fn fe_neg(a: &FieldElement) -> (r: FieldElement)
    ensures
        r.wf(),
        r.value() == ((field_modulus() - a.value()) % field_modulus() as int) as nat,
{
    let x = acvm::FieldElement::from_be_bytes_reduce(&a.be_bytes);
    FieldElement { be_bytes: (-x).to_be_bytes() }
}

/// Relies on `FieldElement::to_u128`: the bytes are first reduced modulo
/// the field order, and the result is the low 128 bits of the reduced
/// value, read from the last 16 bytes of its big-endian form.
#[verifier::external_body]
pub fn fe_to_u128(a: &FieldElement) -> (r: u128)
    ensures
        r as nat == (a.value() % field_modulus()) % 0x100000000000000000000000000000000nat,
{
    acvm::FieldElement::from_be_bytes_reduce(&a.be_bytes).to_u128()
}

/// Relies on `FieldElement::max_num_bits`: the bit length of the modulus.
#[verifier::external_body]
pub fn fe_max_num_bits() -> (r: u32)
    ensures
        r == field_max_num_bits(),
{
    acvm::FieldElement::max_num_bits()
}

/// Relies on arbitrary-precision multiplication from num_bigint, used to walk
/// the powers of a radix without overflow.
#[verifier::external_body]
pub fn big_mul_u32(a: &Vec<u8>, m: u32) -> (r: Vec<u8>)
    ensures
        be_val(r@) == be_val(a@) * m,
{
    (num_bigint::BigUint::from_bytes_be(a) * m).to_bytes_be()
}

} // verus!
