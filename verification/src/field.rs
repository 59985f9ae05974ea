//! Elements of the Pallas base field, held in canonical little-endian
//! bytes. The arithmetic is that of `halo2_proofs::pasta::Fp`, called
//! through five small functions whose contracts are taken on trust;
//! equality, formatting and every law of this file are proved.

use halo2_proofs::pasta::Fp;
use halo2_proofs::pasta::group::ff::PrimeField;
use vstd::prelude::*;
use vstd::string::{StrSliceExecFns, StringExecFns};

verus! {

/// The order of the field: the Pallas base-field modulus.
pub open spec fn modulus() -> nat {
    0x40000000000000000000000000000000224698fc094cf91b992d30ed00000001nat
}

/// The number that the bytes of `bytes` from index `from` upwards spell,
/// least significant byte first.
pub open spec fn le_value(bytes: Seq<u8>, from: int) -> nat
    decreases bytes.len() - from,
{
    if 0 <= from < bytes.len() {
        bytes[from] as nat + 256 * le_value(bytes, from + 1)
    } else {
        0
    }
}

/// Sum of two residues.
pub open spec fn sum_mod(a: nat, b: nat) -> nat {
    (a + b) % modulus()
}

/// Difference of two residues.
pub open spec fn difference_mod(a: nat, b: nat) -> nat {
    ((a as int - b as int) % (modulus() as int)) as nat
}

/// Product of two residues.
pub open spec fn product_mod(a: nat, b: nat) -> nat {
    (a * b) % modulus()
}

/// Additive inverse of a residue.
pub open spec fn negation_mod(a: nat) -> nat {
    ((-(a as int)) % (modulus() as int)) as nat
}

/// An element of the field. Its view is the residue in `[0, modulus())`.
#[derive(Clone, Copy, Debug, PartialEq, Eq)]
pub struct FieldElement {
    repr: [u8; 32],
}

impl View for FieldElement {
    type V = nat;

    closed spec fn view(&self) -> nat {
        le_value(self.repr@, 0)
    }
}

/// The element whose residue is `n`, where there is one.
pub open spec fn element(n: nat) -> FieldElement {
    choose|f: FieldElement| f@ == n
}

/// `n` with its `k` lowest bytes dropped.
pub open spec fn shifted(n: nat, k: nat) -> nat
    decreases k,
{
    if k == 0 {
        n
    } else {
        shifted(n, (k - 1) as nat) / 256
    }
}

/// The little-endian bytes of `n`, 32 of them.
pub open spec fn le_bytes(n: nat) -> Seq<u8> {
    Seq::new(32, |i: int| (shifted(n, i as nat) % 256) as u8)
}

/// The bytes of `n` from `from` upwards spell `n` without its `from`
/// lowest bytes, where `n` fits in 32 bytes.
proof fn lemma_le_bytes_value(n: nat, from: int)
    requires
        0 <= from <= 32,
        shifted(n, 32) == 0,
    ensures
        le_value(le_bytes(n), from) == shifted(n, from as nat),
    decreases 32 - from,
{
    if from < 32 {
        lemma_le_bytes_value(n, from + 1);
        let x = shifted(n, from as nat);
        assert(shifted(n, (from + 1) as nat) == x / 256);
        assert(le_bytes(n)[from] == (x % 256) as u8);
        assert(x == x % 256 + 256 * (x / 256));
    }
}

/// An array that holds the first `k` bytes of `s`.
proof fn lemma_array_prefix(s: Seq<u8>, k: int) -> (a: [u8; 32])
    requires
        s.len() == 32,
        0 <= k <= 32,
    ensures
        forall|i: int| 0 <= i < k ==> a@[i] == s[i],
    decreases k,
{
    broadcast use vstd::array::axiom_spec_array_update;

    if k == 0 {
        vstd::array::spec_array_fill_for_copy_type::<u8, 32>(0u8)
    } else {
        let earlier = lemma_array_prefix(s, k - 1);
        let a = vstd::array::spec_array_update(earlier, k - 1, s[k - 1]);
        assert(a@ == earlier@.update(k - 1, s[k - 1]));
        a
    }
}

/// Every residue is the residue of an element.
pub proof fn lemma_element(n: nat)
    requires
        n < modulus(),
    ensures
        element(n)@ == n,
{
    assert(shifted(n, 8) < 0x1000000000000000000000000000000000000000000000000nat) by {
        reveal_with_fuel(shifted, 9);
    }
    assert(shifted(n, 16) < 0x100000000000000000000000000000000nat) by {
        lemma_shifted_sum(n, 8, 8);
        reveal_with_fuel(shifted, 9);
    }
    assert(shifted(n, 24) < 0x10000000000000000nat) by {
        lemma_shifted_sum(n, 16, 8);
        reveal_with_fuel(shifted, 9);
    }
    assert(shifted(n, 32) == 0) by {
        lemma_shifted_sum(n, 24, 8);
        reveal_with_fuel(shifted, 9);
    }
    lemma_le_bytes_value(n, 0);
    let a = lemma_array_prefix(le_bytes(n), 32);
    assert(a@ =~= le_bytes(n));
    let f = FieldElement { repr: a };
    assert(f@ == n);
}

/// Dropping `k` bytes and then `m` more drops `k + m` bytes.
proof fn lemma_shifted_sum(n: nat, k: nat, m: nat)
    ensures
        shifted(n, k + m) == shifted(shifted(n, k), m),
    decreases m,
{
    if m > 0 {
        lemma_shifted_sum(n, k, (m - 1) as nat);
    }
}

/// The residue of an element is below the order, for an element that is
/// held in canonical form.
pub proof fn lemma_element_below(f: FieldElement)
    requires
        f.canonical(),
    ensures
        f@ < modulus(),
{
}

/// A sum of residues is a residue.
pub proof fn lemma_sum_below(a: nat, b: nat)
    ensures
        sum_mod(a, b) < modulus(),
{
}

/// The sum of a residue and the additive inverse of another is their
/// difference reduced.
pub proof fn lemma_sum_with_negation(a: nat, b: nat)
    ensures
        sum_mod(a, negation_mod(b)) == ((a as int - b as int) % (modulus() as int)) as nat,
{
    let p = modulus() as int;
    vstd::arithmetic::div_mod::lemma_add_mod_noop_right(a as int, -(b as int), p);
}

/// The product of two reduced numbers is the product of the numbers
/// reduced.
pub proof fn lemma_product_reduced(x: int, y: int)
    ensures
        product_mod((x % (modulus() as int)) as nat, (y % (modulus() as int)) as nat) == ((x * y) % (
        modulus() as int)) as nat,
{
    let p = modulus() as int;
    vstd::arithmetic::div_mod::lemma_mul_mod_noop(x, y, p);
}

/// A number that is not zero and is smaller than the order in absolute
/// value does not reduce to zero.
pub proof fn lemma_small_is_not_zero(x: int)
    requires
        x != 0,
        -(modulus() as int) < x < modulus() as int,
    ensures
        x % (modulus() as int) != 0,
{
    let p = modulus() as int;
    if x > 0 {
        vstd::arithmetic::div_mod::lemma_small_mod(x as nat, modulus());
    } else {
        vstd::arithmetic::div_mod::lemma_mod_add_multiples_vanish(x, p);
        vstd::arithmetic::div_mod::lemma_small_mod((x + p) as nat, modulus());
    }
}

/// A residue and its additive inverse sum to zero.
pub proof fn lemma_sum_negation(a: nat)
    requires
        a < modulus(),
    ensures
        sum_mod(a, negation_mod(a)) == 0,
{
    let p = modulus() as int;
    if a == 0 {
        vstd::arithmetic::div_mod::lemma_small_mod(0, modulus());
    } else {
        vstd::arithmetic::div_mod::lemma_mod_add_multiples_vanish(-(a as int), p);
        vstd::arithmetic::div_mod::lemma_small_mod((p - a) as nat, modulus());
        assert(negation_mod(a) == p - a);
        vstd::arithmetic::div_mod::lemma_mod_self_0(p);
    }
}

/// The additive inverse of one is the order less one.
pub proof fn lemma_minus_one()
    ensures
        negation_mod(1) + 1 == modulus(),
{
    let p = modulus() as int;
    vstd::arithmetic::div_mod::lemma_mod_add_multiples_vanish(-1int, p);
    vstd::arithmetic::div_mod::lemma_small_mod((p - 1) as nat, modulus());
}

/// A product with zero is zero.
pub proof fn lemma_product_zero(x: nat)
    ensures
        product_mod(x, 0) == 0,
        product_mod(0, x) == 0,
{
    assert(x * 0 == 0 && 0 * x == 0) by (nonlinear_arith);
    vstd::arithmetic::div_mod::lemma_small_mod(0, modulus());
}

/// A product with one is the other factor.
pub proof fn lemma_product_one(x: nat)
    requires
        x < modulus(),
    ensures
        product_mod(x, 1) == x,
        product_mod(1, x) == x,
{
    assert(x * 1 == x && 1 * x == x) by (nonlinear_arith);
    vstd::arithmetic::div_mod::lemma_small_mod(x, modulus());
}

/// Calls `<Fp as From<u64>>::from` of `halo2_proofs::pasta` and reads the
/// result back with `PrimeField::to_repr`. Taken on trust: the canonical
/// little-endian bytes that come back spell `v`.
#[verifier::external_body]
fn fp_from_u64(v: u64) -> (r: FieldElement)
    ensures
        r@ == v,
{
    FieldElement { repr: Fp::from(v).to_repr() }
}

/// Calls `<Fp as Add>::add` on the two elements, each rebuilt with
/// `PrimeField::from_repr`, and reads the result back with
/// `PrimeField::to_repr`. Taken on trust: the result is the sum modulo the
/// order of the field. `from_repr` accepts the canonical encodings and no
/// others, which is what the precondition asks for.
#[verifier::external_body]
fn fp_sum(a: &FieldElement, b: &FieldElement) -> (r: FieldElement)
    requires
        a.canonical(),
        b.canonical(),
    ensures
        r@ == sum_mod(a@, b@),
{
    FieldElement { repr: (Fp::from_repr(a.repr).unwrap() + Fp::from_repr(b.repr).unwrap()).to_repr() }
}

/// Calls `<Fp as Sub>::sub` in the same way. Taken on trust: the result is
/// the difference modulo the order of the field.
#[verifier::external_body]
fn fp_difference(a: &FieldElement, b: &FieldElement) -> (r: FieldElement)
    requires
        a.canonical(),
        b.canonical(),
    ensures
        r@ == difference_mod(a@, b@),
{
    FieldElement { repr: (Fp::from_repr(a.repr).unwrap() - Fp::from_repr(b.repr).unwrap()).to_repr() }
}

/// Calls `<Fp as Mul>::mul` in the same way. Taken on trust: the result is
/// the product modulo the order of the field.
#[verifier::external_body]
fn fp_product(a: &FieldElement, b: &FieldElement) -> (r: FieldElement)
    requires
        a.canonical(),
        b.canonical(),
    ensures
        r@ == product_mod(a@, b@),
{
    FieldElement { repr: (Fp::from_repr(a.repr).unwrap() * Fp::from_repr(b.repr).unwrap()).to_repr() }
}

/// Calls `<Fp as Neg>::neg` in the same way. Taken on trust: the result is
/// the additive inverse modulo the order of the field.
#[verifier::external_body]
fn fp_negation(a: &FieldElement) -> (r: FieldElement)
    requires
        a.canonical(),
    ensures
        r@ == negation_mod(a@),
{
    FieldElement { repr: (-Fp::from_repr(a.repr).unwrap()).to_repr() }
}

/// Byte strings of one length that spell the same number from `from`
/// upwards hold the same bytes from there on.
proof fn lemma_le_value_injective(a: Seq<u8>, b: Seq<u8>, from: int)
    requires
        a.len() == b.len(),
        0 <= from <= a.len(),
        le_value(a, from) == le_value(b, from),
    ensures
        forall|i: int| from <= i < a.len() ==> a[i] == b[i],
    decreases a.len() - from,
{
    if from < a.len() {
        let x = le_value(a, from + 1);
        let y = le_value(b, from + 1);
        assert(a[from] as nat + 256 * x == b[from] as nat + 256 * y);
        assert(x == y);
        lemma_le_value_injective(a, b, from + 1);
    }
}

/// The hexadecimal digit of `d`, in lower case.
pub open spec fn hex_digit(d: int) -> char {
    if d == 0 {
        '0'
    } else if d == 1 {
        '1'
    } else if d == 2 {
        '2'
    } else if d == 3 {
        '3'
    } else if d == 4 {
        '4'
    } else if d == 5 {
        '5'
    } else if d == 6 {
        '6'
    } else if d == 7 {
        '7'
    } else if d == 8 {
        '8'
    } else if d == 9 {
        '9'
    } else if d == 10 {
        'a'
    } else if d == 11 {
        'b'
    } else if d == 12 {
        'c'
    } else if d == 13 {
        'd'
    } else if d == 14 {
        'e'
    } else {
        'f'
    }
}

/// The hexadecimal digits of `n`, most significant first, none for zero.
pub open spec fn hex_digits(n: nat) -> Seq<char>
    decreases n,
{
    if n == 0 {
        Seq::empty()
    } else {
        hex_digits(n / 16).push(hex_digit((n % 16) as int))
    }
}

/// How a residue is written: `0`, `1` and `-1` as they are, any other one
/// in hexadecimal without leading zeros.
pub open spec fn formatted(v: nat) -> Seq<char> {
    if v == 0 {
        seq!['0']
    } else if v == 1 {
        seq!['1']
    } else if v + 1 == modulus() {
        seq!['-', '1']
    } else {
        seq!['0', 'x'] + hex_digits(v)
    }
}

/// The digit `d` as a string.
fn hex_str(d: u8) -> (r: &'static str)
    requires
        d < 16,
    ensures
        r@ == seq![hex_digit(d as int)],
{
    proof {
        reveal_strlit("0");
        reveal_strlit("1");
        reveal_strlit("2");
        reveal_strlit("3");
        reveal_strlit("4");
        reveal_strlit("5");
        reveal_strlit("6");
        reveal_strlit("7");
        reveal_strlit("8");
        reveal_strlit("9");
        reveal_strlit("a");
        reveal_strlit("b");
        reveal_strlit("c");
        reveal_strlit("d");
        reveal_strlit("e");
        reveal_strlit("f");
    }
    let r = if d == 0 {
        "0"
    } else if d == 1 {
        "1"
    } else if d == 2 {
        "2"
    } else if d == 3 {
        "3"
    } else if d == 4 {
        "4"
    } else if d == 5 {
        "5"
    } else if d == 6 {
        "6"
    } else if d == 7 {
        "7"
    } else if d == 8 {
        "8"
    } else if d == 9 {
        "9"
    } else if d == 10 {
        "a"
    } else if d == 11 {
        "b"
    } else if d == 12 {
        "c"
    } else if d == 13 {
        "d"
    } else if d == 14 {
        "e"
    } else {
        "f"
    };
    assert(r@ =~= seq![hex_digit(d as int)]);
    r
}

/// Appends the digit `d` to the digits of `acc` written so far: a leading
/// zero is not written.
fn push_digit(out: &mut String, d: u8, Ghost(acc): Ghost<nat>)
    requires
        d < 16,
        old(out)@ == seq!['0', 'x'] + hex_digits(acc),
    ensures
        final(out)@ == seq!['0', 'x'] + hex_digits(acc * 16 + d as nat),
{
    let ghost next = acc * 16 + d as nat;
    assert(next / 16 == acc && next % 16 == d as nat);
    if d != 0 || out.as_str().unicode_len() > 2 {
        proof {
            if d == 0 {
                assert(hex_digits(acc).len() > 0);
                assert(acc != 0);
            }
            assert(next != 0);
        }
        out.append(hex_str(d));
        assert(out@ =~= seq!['0', 'x'] + hex_digits(next));
    } else {
        assert(hex_digits(acc).len() == 0);
        assert(acc == 0) by {
            if acc != 0 {
                assert(hex_digits(acc).len() == hex_digits(acc / 16).len() + 1);
            }
        }
    }
}

impl FieldElement {
    /// Every element is held in canonical form: its residue is below the
    /// field order.
    #[verifier::type_invariant]
    pub closed spec fn canonical(&self) -> bool {
        self@ < modulus()
    }

    /// The element whose residue is `v`.
    pub fn from_u64(v: u64) -> (r: FieldElement)
        ensures
            r@ == v,
            r == element(v as nat),
            r.canonical(),
    {
        let r = fp_from_u64(v);
        proof {
            use_type_invariant(&r);
            FieldElement::lemma_same_residue(r, element(v as nat));
        }
        r
    }

    /// The additive identity.
    pub fn zero() -> (r: FieldElement)
        ensures
            r@ == 0,
            r == element(0),
            r.canonical(),
    {
        FieldElement::from_u64(0)
    }

    /// The multiplicative identity.
    pub fn one() -> (r: FieldElement)
        ensures
            r@ == 1,
            r == element(1),
            r.canonical(),
    {
        FieldElement::from_u64(1)
    }

    /// `self + other` in the field.
    pub fn plus(&self, other: &FieldElement) -> (r: FieldElement)
        ensures
            r@ == sum_mod(self@, other@),
            r.canonical(),
    {
        proof {
            use_type_invariant(self);
            use_type_invariant(other);
        }
        let r = fp_sum(self, other);
        proof {
            use_type_invariant(&r);
        }
        r
    }

    /// `self - other` in the field.
    pub fn minus(&self, other: &FieldElement) -> (r: FieldElement)
        ensures
            r@ == difference_mod(self@, other@),
            r.canonical(),
    {
        proof {
            use_type_invariant(self);
            use_type_invariant(other);
        }
        let r = fp_difference(self, other);
        proof {
            use_type_invariant(&r);
        }
        r
    }

    /// `self * other` in the field.
    pub fn times(&self, other: &FieldElement) -> (r: FieldElement)
        ensures
            r@ == product_mod(self@, other@),
            r.canonical(),
    {
        proof {
            use_type_invariant(self);
            use_type_invariant(other);
        }
        let r = fp_product(self, other);
        proof {
            use_type_invariant(&r);
        }
        r
    }

    /// `-self` in the field.
    pub fn negated(&self) -> (r: FieldElement)
        ensures
            r@ == negation_mod(self@),
            r.canonical(),
    {
        proof {
            use_type_invariant(self);
        }
        let r = fp_negation(self);
        proof {
            use_type_invariant(&r);
        }
        r
    }

    /// The canonical encoding of the element: its residue in 32 bytes,
    /// least significant byte first.
    pub fn to_repr(&self) -> (r: [u8; 32])
        ensures
            le_value(r@, 0) == self@,
    {
        self.repr
    }

    /// Whether two elements are the same residue.
    pub fn equals(&self, other: &FieldElement) -> (r: bool)
        ensures
            r == (self@ == other@),
    {
        let mut i: usize = 0;
        while i < 32
            invariant
                0 <= i <= 32,
                forall|j: int| 0 <= j < i ==> self.repr@[j] == other.repr@[j],
            decreases 32 - i,
        {
            if self.repr[i] != other.repr[i] {
                proof {
                    if self@ == other@ {
                        lemma_le_value_injective(self.repr@, other.repr@, 0);
                    }
                }
                return false;
            }
            i += 1;
        }
        proof {
            assert(self.repr@ =~= other.repr@);
        }
        true
    }

    /// Writes the element: `0`, `1` and `-1` as they are, any other one in
    /// hexadecimal without leading zeros, after `0x`.
    pub fn format(&self) -> (r: String)
        ensures
            r@ == formatted(self@),
    {
        proof {
            use_type_invariant(self);
            reveal_strlit("0");
            reveal_strlit("1");
            reveal_strlit("-1");
            reveal_strlit("0x");
        }
        let one = FieldElement::one();
        if self.is_zero() {
            let r = String::from_str("0");
            assert(r@ =~= formatted(self@));
            return r;
        }
        if self.equals(&one) {
            let r = String::from_str("1");
            assert(r@ =~= formatted(self@));
            return r;
        }
        let minus_one = one.negated();
        proof {
            lemma_minus_one();
        }
        if self.equals(&minus_one) {
            let r = String::from_str("-1");
            assert(r@ =~= formatted(self@));
            return r;
        }
        let mut out = String::from_str("0x");
        let ghost mut acc: nat = 0;
        let mut i: usize = 32;
        assert(out@ =~= seq!['0', 'x'] + hex_digits(0));
        while i > 0
            invariant
                0 <= i <= 32,
                acc == le_value(self.repr@, i as int),
                out@ == seq!['0', 'x'] + hex_digits(acc),
            decreases i,
        {
            i -= 1;
            let byte = self.repr[i];
            let high = byte / 16;
            let low = byte % 16;
            push_digit(&mut out, high, Ghost(acc));
            push_digit(&mut out, low, Ghost(acc * 16 + high as nat));
            proof {
                assert((acc * 16 + high as nat) * 16 + low as nat == byte as nat + 256 * acc) by {
                    assert(byte == high * 16 + low);
                    assert((acc * 16 + high as nat) * 16 == acc * 256 + high as nat * 16)
                        by (nonlinear_arith);
                }
                acc = (acc * 16 + high as nat) * 16 + low as nat;
            }
        }
        out
    }

    /// Whether this is the additive identity.
    pub fn is_zero(&self) -> (r: bool)
        ensures
            r == (self@ == 0),
    {
        let zero = FieldElement::zero();
        self.equals(&zero)
    }

    /// Elements with the same residue are the same value.
    pub proof fn lemma_same_residue(a: FieldElement, b: FieldElement)
        ensures
            (a@ == b@) <==> a == b,
    {
        if a@ == b@ {
            lemma_le_value_injective(a.repr@, b.repr@, 0);
            assert(a.repr =~= b.repr);
        }
    }
}

} // verus!
