//! Field elements as canonical integers, and the bridge from the circuit's
//! scalar field into the backend's native and foreign fields.

use halo2curves::ff::FromUniformBytes;
use halo2curves::CurveAffine;
use vstd::arithmetic::div_mod::{
    lemma_basic_div, lemma_div_denominator, lemma_div_non_zero,
    lemma_fundamental_div_mod, lemma_fundamental_div_mod_converse, lemma_mod_bound,
    lemma_mod_breakdown, lemma_mod_mod, lemma_small_mod,
};
use vstd::arithmetic::mul::lemma_mul_is_commutative;
use vstd::arithmetic::power2::{
    lemma2_to64, lemma_pow2_adds, lemma_pow2_pos, lemma_pow2_strictly_increases,
    lemma_pow2_unfold, pow2,
};
use vstd::bits::lemma_u128_shr_is_div;
use vstd::prelude::*;

verus! {

/// The high limb of the prime of the circuit's scalar field, the BN254
/// scalar prime.
pub const ACIR_MODULUS_HI: u128 = 0x30644e72e131a029b85045b68181585d;

/// The low limb of the prime of the circuit's scalar field.
pub const ACIR_MODULUS_LO: u128 = 0x2833e84879b9709143e1f593f0000001;

/// The high limb of the prime of the native scalar field, the BN254 scalar
/// prime.
pub const FR_MODULUS_HI: u128 = 0x30644e72e131a029b85045b68181585d;

/// The low limb of the prime of the native scalar field.
pub const FR_MODULUS_LO: u128 = 0x2833e84879b9709143e1f593f0000001;

/// The high limb of the secp256k1 base prime `2^256 - 2^32 - 977`.
pub const SECP256K1_FP_MODULUS_HI: u128 = 0xffffffffffffffffffffffffffffffff;

/// The low limb of the secp256k1 base prime.
pub const SECP256K1_FP_MODULUS_LO: u128 = 0xfffffffffffffffffffffffefffffc2f;

/// The high limb of the order of the secp256k1 group.
pub const SECP256K1_FQ_MODULUS_HI: u128 = 0xfffffffffffffffffffffffffffffffe;

/// The low limb of the order of the secp256k1 group.
pub const SECP256K1_FQ_MODULUS_LO: u128 = 0xbaaedce6af48a03bbfd25e8cd0364141;

/// The integer that two 128-bit limbs stand for: `hi * 2^128 + lo`.
pub open spec fn limbs_value(hi: u128, lo: u128) -> nat {
    (hi as nat) * 0x1_0000_0000_0000_0000_0000_0000_0000_0000 + (lo as nat)
}

/// The prime of the circuit's scalar field.
pub open spec fn acir_modulus() -> nat {
    limbs_value(ACIR_MODULUS_HI, ACIR_MODULUS_LO)
}

/// The prime of the backend's native scalar field.
pub open spec fn fr_modulus() -> nat {
    limbs_value(FR_MODULUS_HI, FR_MODULUS_LO)
}

/// The prime of the secp256k1 base field.
pub open spec fn secp256k1_fp_modulus() -> nat {
    limbs_value(SECP256K1_FP_MODULUS_HI, SECP256K1_FP_MODULUS_LO)
}

/// The order of the secp256k1 group.
pub open spec fn secp256k1_fq_modulus() -> nat {
    limbs_value(SECP256K1_FQ_MODULUS_HI, SECP256K1_FQ_MODULUS_LO)
}

/// The curve equation `y^2 = x^3 + 7` over the secp256k1 base field.
pub open spec fn secp256k1_on_curve(x: nat, y: nat) -> bool {
    (y * y) % secp256k1_fp_modulus() == (x * x * x + 7) % secp256k1_fp_modulus()
}

/// `2^128` and `2^256` written out.
pub proof fn lemma_pow2_128()
    ensures
        pow2(64) == 0x1_0000_0000_0000_0000,
        pow2(128) == limbs_value(1, 0),
        pow2(256) == limbs_value(1, 0) * limbs_value(1, 0),
{
    lemma2_to64();
    lemma_pow2_adds(64, 64);
    lemma_pow2_adds(128, 128);
}

/// The integer of two limbs is below `2^256`.
pub proof fn lemma_limbs_value_bound(hi: u128, lo: u128)
    ensures
        limbs_value(hi, lo) < pow2(256),
{
    lemma_pow2_128();
    let p: int = limbs_value(1, 0) as int;
    assert((hi as int) * p + (lo as int) < p * p) by (nonlinear_arith)
        requires
            0 <= hi < p,
            0 <= lo < p,
    ;
}

/// Two pairs of limbs stand for the same integer only if they are the same.
pub proof fn lemma_limbs_value_injective(hi: u128, lo: u128, hi2: u128, lo2: u128)
    requires
        limbs_value(hi, lo) == limbs_value(hi2, lo2),
    ensures
        hi == hi2,
        lo == lo2,
{
}

/// Bit `i` of the integer of two limbs, read from the limb that holds it.
proof fn lemma_limbs_bit(hi: u128, lo: u128, i: u32)
    ensures
        i >= 256 ==> limbs_value(hi, lo) / pow2(i as nat) == 0,
        128 <= i < 256 ==> limbs_value(hi, lo) / pow2(i as nat) == (hi as nat) / pow2(
            (i - 128) as nat,
        ),
        i < 128 ==> (limbs_value(hi, lo) / pow2(i as nat)) % 2 == ((lo as nat) / pow2(i as nat))
            % 2,
{
    lemma_pow2_128();
    let v = limbs_value(hi, lo) as int;
    let p = pow2(128) as int;
    let d = pow2(i as nat) as int;
    lemma_pow2_pos(i as nat);
    if i >= 256 {
        lemma_limbs_value_bound(hi, lo);
        if i > 256 {
            lemma_pow2_strictly_increases(256, i as nat);
        }
        lemma_basic_div(v, d);
    } else if i >= 128 {
        let j = (i - 128) as nat;
        lemma_pow2_adds(128, j);
        lemma_pow2_pos(j);
        lemma_fundamental_div_mod_converse(v, p, hi as int, lo as int);
        lemma_div_denominator(v, p, pow2(j) as int);
    } else {
        let j = (128 - i) as nat;
        lemma_pow2_adds(i as nat, j);
        lemma_pow2_pos(j);
        let m = pow2(j) as int;
        let q = (lo as int) / d;
        let r = (lo as int) % d;
        lemma_fundamental_div_mod(lo as int, d);
        lemma_mod_bound(lo as int, d);
        assert(v == ((hi as int) * m + q) * d + r) by (nonlinear_arith)
            requires
                v == (hi as int) * p + (lo as int),
                p == d * m,
                lo as int == d * q + r,
        ;
        lemma_fundamental_div_mod_converse(v, d, (hi as int) * m + q, r);
        lemma_pow2_unfold(j);
        let h = pow2((j - 1) as nat) as int;
        assert((hi as int) * m == 2 * ((hi as int) * h)) by (nonlinear_arith)
            requires
                m == 2 * h,
        ;
    }
}

/// The high limb of an integer below `2^256`.
pub open spec fn high_limb(value: nat) -> u128 {
    (value / limbs_value(1, 0)) as u128
}

/// The low limb of an integer.
pub open spec fn low_limb(value: nat) -> u128 {
    (value % limbs_value(1, 0)) as u128
}

/// An integer below `2^256` is the integer of its two limbs.
pub proof fn lemma_limbs_of_value(value: nat)
    requires
        value < pow2(256),
    ensures
        limbs_value(high_limb(value), low_limb(value)) == value,
{
    lemma_pow2_128();
    let p = limbs_value(1, 0) as int;
    let v = value as int;
    lemma_fundamental_div_mod(v, p);
    lemma_mod_bound(v, p);
    assert(v / p < p) by (nonlinear_arith)
        requires
            v < p * p,
            v == p * (v / p) + v % p,
            0 <= v % p,
            p > 0,
    ;
    assert(v / p >= 0) by (nonlinear_arith)
        requires
            v >= 0,
            p > 0,
            v == p * (v / p) + v % p,
            v % p < p,
    ;
    lemma_mul_is_commutative(p, v / p);
}

/// Each of the four primes is below `2^256`.
pub proof fn lemma_moduli_bound()
    ensures
        acir_modulus() < pow2(256),
        fr_modulus() < pow2(256),
        secp256k1_fp_modulus() < pow2(256),
        secp256k1_fq_modulus() < pow2(256),
{
    lemma_limbs_value_bound(ACIR_MODULUS_HI, ACIR_MODULUS_LO);
    lemma_limbs_value_bound(SECP256K1_FP_MODULUS_HI, SECP256K1_FP_MODULUS_LO);
    lemma_limbs_value_bound(SECP256K1_FQ_MODULUS_HI, SECP256K1_FQ_MODULUS_LO);
}

/// The integer that a sequence of bytes stands for, least significant byte
/// first.
pub open spec fn le_bytes_value(bytes: Seq<nat>) -> nat
    decreases bytes.len(),
{
    if bytes.len() == 0 {
        0
    } else {
        le_bytes_value(bytes.drop_last()) + bytes.last() * pow2((8 * (bytes.len() - 1)) as nat)
    }
}

/// The bytes of a sequence as integers.
pub open spec fn bytes_as_nats(bytes: Seq<u8>) -> Seq<nat> {
    Seq::new(bytes.len(), |i: int| bytes[i] as nat)
}

/// The integer that a sequence of bytes stands for, least significant byte
/// first.
pub open spec fn le_value(bytes: Seq<u8>) -> nat {
    le_bytes_value(bytes_as_nats(bytes))
}

/// Byte `i` of the integer of two limbs, read from the limb that holds it.
proof fn lemma_limbs_byte(hi: u128, lo: u128, i: nat)
    requires
        i < 32,
    ensures
        (limbs_value(hi, lo) / pow2(8 * i)) % 256 == if i < 16 {
            ((lo as nat) / pow2(8 * i)) % 256
        } else {
            ((hi as nat) / pow2((8 * (i - 16)) as nat)) % 256
        },
{
    lemma_pow2_128();
    let v = limbs_value(hi, lo) as int;
    let p = pow2(128) as int;
    let d = pow2(8 * i) as int;
    lemma_pow2_pos(8 * i);
    if i >= 16 {
        let j = (8 * (i - 16)) as nat;
        lemma_pow2_adds(128, j);
        lemma_pow2_pos(j);
        lemma_fundamental_div_mod_converse(v, p, hi as int, lo as int);
        lemma_div_denominator(v, p, pow2(j) as int);
    } else {
        let j = (120 - 8 * i) as nat;
        lemma_pow2_adds(8 * i, j + 8);
        lemma_pow2_adds(j, 8);
        lemma_pow2_pos(j);
        lemma2_to64();
        let m = pow2(j) as int;
        let q = (lo as int) / d;
        let r = (lo as int) % d;
        lemma_fundamental_div_mod(lo as int, d);
        lemma_mod_bound(lo as int, d);
        assert(v == ((hi as int) * (m * 256) + q) * d + r) by (nonlinear_arith)
            requires
                v == (hi as int) * p + (lo as int),
                p == d * (m * 256),
                lo as int == d * q + r,
        ;
        lemma_fundamental_div_mod_converse(v, d, (hi as int) * (m * 256) + q, r);
        assert((hi as int) * (m * 256) == 256 * ((hi as int) * m)) by (nonlinear_arith);
    }
}

/// Reads 32 bytes, least significant first, as two limbs.
pub fn limbs_from_le_bytes(bytes: &[u8; 32]) -> (limbs: (u128, u128))
    ensures
        limbs_value(limbs.0, limbs.1) == le_value(bytes@),
{
    let ghost nats = bytes_as_nats(bytes@);
    let mut lo: u128 = 0;
    let mut hi: u128 = 0;
    let mut weight: u128 = 1;
    let mut i: usize = 0;
    proof {
        lemma2_to64();
        lemma_pow2_128();
        assert(nats.take(0) =~= Seq::<nat>::empty());
    }
    while i < 32
        invariant
            i <= 32,
            nats == bytes_as_nats(bytes@),
            limbs_value(hi, lo) == le_bytes_value(nats.take(i as int)),
            i <= 16 ==> hi == 0 && lo < pow2((8 * i) as nat),
            i > 16 ==> hi < pow2((8 * (i - 16)) as nat),
            i < 16 ==> weight == pow2((8 * i) as nat),
            16 <= i < 32 ==> weight == pow2((8 * (i - 16)) as nat),
        decreases 32 - i,
    {
        let byte = bytes[i] as u128;
        let ghost place: nat = if i < 16 {
            (8 * i) as nat
        } else {
            (8 * (i - 16)) as nat
        };
        proof {
            lemma2_to64();
            lemma_pow2_128();
            lemma_pow2_adds(place, 8);
            lemma_pow2_pos(place);
            if place + 8 < 128 {
                lemma_pow2_strictly_increases(place + 8, 128);
            }
            assert(nats.take(i + 1).drop_last() =~= nats.take(i as int));
            assert(nats.take(i + 1).last() == byte);
            assert(byte * weight + weight <= 256 * weight) by (nonlinear_arith)
                requires
                    byte <= 255,
                    weight >= 0,
            ;
            if i >= 16 {
                lemma_pow2_adds(128, place);
                assert((hi + byte * weight) * pow2(128) == hi * pow2(128) + byte * (pow2(128)
                    * weight)) by (nonlinear_arith);
            }
        }
        if i < 16 {
            lo = lo + byte * weight;
        } else {
            hi = hi + byte * weight;
        }
        weight = if i == 15 || i == 31 {
            1
        } else {
            weight * 256
        };
        i = i + 1;
    }
    proof {
        assert(nats.take(32) =~= nats);
    }
    (hi, lo)
}

/// Writes two limbs as 32 bytes, least significant first.
pub fn limbs_to_le_bytes(hi: u128, lo: u128) -> (bytes: [u8; 32])
    ensures
        le_value(bytes@) == limbs_value(hi, lo),
{
    let mut bytes = [0u8; 32];
    let mut i: usize = 0;
    let ghost value = limbs_value(hi, lo);
    proof {
        lemma2_to64();
        assert(bytes_as_nats(bytes@).take(0) =~= Seq::<nat>::empty());
        lemma_small_mod(0, 1);
        assert(value % 1 == 0);
    }
    while i < 32
        invariant
            i <= 32,
            value == limbs_value(hi, lo),
            le_bytes_value(bytes_as_nats(bytes@).take(i as int)) == value % pow2((8 * i) as nat),
        decreases 32 - i,
    {
        let limb = if i < 16 {
            lo
        } else {
            hi
        };
        let shift: u128 = if i < 16 {
            (8 * i) as u128
        } else {
            (8 * (i - 16)) as u128
        };
        let shifted = limb >> shift;
        let masked = shifted & 0xff;
        proof {
            assert(masked == shifted % 256 && masked <= 255) by (bit_vector)
                requires
                    masked == shifted & 0xff,
            ;
        }
        let byte = masked as u8;
        let ghost before = bytes_as_nats(bytes@).take(i as int);
        let ghost place = pow2((8 * i) as nat);
        proof {
            lemma2_to64();
            lemma_u128_shr_is_div(limb, shift);
            lemma_limbs_byte(hi, lo, i as nat);
            lemma_pow2_pos((8 * i) as nat);
            lemma_pow2_adds((8 * i) as nat, 8);
            lemma_mod_breakdown(value as int, place as int, 256);
            assert(byte as nat == (value / place) % 256);
            assert(pow2((8 * (i + 1)) as nat) == place * 256);
            lemma_mul_is_commutative(place as int, byte as int);
            assert((value as int) % ((place as int) * 256) == (place as int) * (byte as int) + (
            value as int) % (place as int));
            assert(value % pow2((8 * (i + 1)) as nat) == value % place + (byte as nat) * place);
        }
        bytes[i] = byte;
        proof {
            let after = bytes_as_nats(bytes@).take(i + 1);
            assert(after.drop_last() =~= before);
            assert(after.last() == byte);
            assert(after.len() == i + 1);
        }
        i = i + 1;
    }
    proof {
        assert(bytes_as_nats(bytes@).take(32) =~= bytes_as_nats(bytes@));
        lemma_limbs_value_bound(hi, lo);
        lemma_small_mod(value, pow2(256));
    }
    bytes
}

/// Whether the integer of `(hi, lo)` is below that of `(bound_hi, bound_lo)`.
fn limbs_below(hi: u128, lo: u128, bound_hi: u128, bound_lo: u128) -> (below: bool)
    ensures
        below == (limbs_value(hi, lo) < limbs_value(bound_hi, bound_lo)),
{
    hi < bound_hi || (hi == bound_hi && lo < bound_lo)
}

/// Calls `acvm::FieldElement`'s `from_be_bytes_reduce`, `+` and `to_be_bytes`.
/// The operands and the sum are integers written least significant byte
/// first; the sum is taken in the circuit's scalar field and comes back as
/// its canonical integer.
#[verifier::external_body]
fn acir_field_add(a: &[u8; 32], b: &[u8; 32]) -> (sum: [u8; 32])
    ensures
        le_value(sum@) == (le_value(a@) + le_value(b@)) % acir_modulus(),
{
    let x = acvm::FieldElement::from_be_bytes_reduce(&a.iter().rev().copied().collect::<Vec<u8>>());
    let y = acvm::FieldElement::from_be_bytes_reduce(&b.iter().rev().copied().collect::<Vec<u8>>());
    let mut sum = (x + y).to_be_bytes();
    sum.reverse();
    sum.try_into().unwrap()
}

/// Calls `acvm::FieldElement`'s `from_be_bytes_reduce`, `*` and `to_be_bytes`.
/// The operands and the product are integers written least significant byte
/// first; the product is taken in the circuit's scalar field and comes back
/// as its canonical integer.
#[verifier::external_body]
fn acir_field_mul(a: &[u8; 32], b: &[u8; 32]) -> (product: [u8; 32])
    ensures
        le_value(product@) == (le_value(a@) * le_value(b@)) % acir_modulus(),
{
    let x = acvm::FieldElement::from_be_bytes_reduce(&a.iter().rev().copied().collect::<Vec<u8>>());
    let y = acvm::FieldElement::from_be_bytes_reduce(&b.iter().rev().copied().collect::<Vec<u8>>());
    let mut product = (x * y).to_be_bytes();
    product.reverse();
    product.try_into().unwrap()
}

/// Calls `from_uniform_bytes` and `to_bytes` of `halo2curves::bn256::Fr`:
/// the canonical integer of the native field element that is congruent to
/// the integer given, both written least significant byte first.
#[verifier::external_body]
fn bn256_fr_reduce(bytes: &[u8; 32]) -> (reduced: [u8; 32])
    ensures
        le_value(reduced@) == le_value(bytes@) % fr_modulus(),
{
    let mut wide = [0u8; 64];
    wide[..32].copy_from_slice(bytes);
    halo2curves::bn256::Fr::from_uniform_bytes(&wide).to_bytes()
}

/// Calls `from_uniform_bytes` and `to_bytes` of
/// `halo2curves::secp256k1::Fp`: the canonical integer of the base field
/// element that is congruent to the integer given, both written least
/// significant byte first.
#[verifier::external_body]
fn secp256k1_fp_reduce(bytes: &[u8; 32]) -> (reduced: [u8; 32])
    ensures
        le_value(reduced@) == le_value(bytes@) % secp256k1_fp_modulus(),
{
    let mut wide = [0u8; 64];
    wide[..32].copy_from_slice(bytes);
    halo2curves::secp256k1::Fp::from_uniform_bytes(&wide).to_bytes()
}

/// Calls `from_uniform_bytes` and `to_bytes` of
/// `halo2curves::secp256k1::Fq`: the canonical integer of the scalar field
/// element that is congruent to the integer given, both written least
/// significant byte first.
#[verifier::external_body]
fn secp256k1_fq_reduce(bytes: &[u8; 32]) -> (reduced: [u8; 32])
    ensures
        le_value(reduced@) == le_value(bytes@) % secp256k1_fq_modulus(),
{
    let mut wide = [0u8; 64];
    wide[..32].copy_from_slice(bytes);
    halo2curves::secp256k1::Fq::from_uniform_bytes(&wide).to_bytes()
}

/// Calls `halo2curves::secp256k1::Secp256k1Affine::from_xy` on the base
/// field elements of two canonical integers. It accepts a pair that meets
/// the curve equation, and also the pair of zeros, which it reads as the
/// point at infinity.
#[verifier::external_body]
fn secp256k1_from_xy(x: &[u8; 32], y: &[u8; 32]) -> (found: bool)
    requires
        le_value(x@) < secp256k1_fp_modulus(),
        le_value(y@) < secp256k1_fp_modulus(),
    ensures
        found == (secp256k1_on_curve(le_value(x@), le_value(y@)) || (le_value(x@) == 0
            && le_value(y@) == 0)),
{
    let px = halo2curves::secp256k1::Fp::from_bytes(x).unwrap();
    let py = halo2curves::secp256k1::Fp::from_bytes(y).unwrap();
    bool::from(halo2curves::secp256k1::Secp256k1Affine::from_xy(px, py).is_some())
}

/// An element of the circuit's scalar field, held as its canonical integer.
#[derive(Clone, Copy, Debug, PartialEq, Eq)]
pub struct FieldElement {
    hi: u128,
    lo: u128,
}

impl FieldElement {
    #[verifier::type_invariant]
    spec fn canonical(self) -> bool {
        limbs_value(self.hi, self.lo) < acir_modulus()
    }

    /// The canonical integer of the element, below `acir_modulus()`.
    pub closed spec fn view(&self) -> nat {
        limbs_value(self.hi, self.lo)
    }

    pub fn zero() -> (z: FieldElement)
        ensures
            z@ == 0,
    {
        FieldElement { hi: 0, lo: 0 }
    }

    pub fn one() -> (e: FieldElement)
        ensures
            e@ == 1,
    {
        FieldElement { hi: 0, lo: 1 }
    }

    pub fn from_u128(value: u128) -> (e: FieldElement)
        ensures
            e@ == value,
    {
        FieldElement { hi: 0, lo: value }
    }

    /// The element whose canonical integer is `hi * 2^128 + lo`, where that
    /// integer is below the modulus.
    pub fn from_limbs(hi: u128, lo: u128) -> (e: Option<FieldElement>)
        ensures
            e is Some <==> limbs_value(hi, lo) < acir_modulus(),
            e is Some ==> e->0@ == limbs_value(hi, lo),
    {
        if limbs_below(hi, lo, ACIR_MODULUS_HI, ACIR_MODULUS_LO) {
            Some(FieldElement { hi, lo })
        } else {
            None
        }
    }

    /// The two limbs of the canonical integer, high limb first.
    pub fn limbs(&self) -> (l: (u128, u128))
        ensures
            limbs_value(l.0, l.1) == self@,
            self@ < acir_modulus(),
    {
        proof {
            use_type_invariant(self);
        }
        (self.hi, self.lo)
    }

    /// The element whose canonical integer the 32 bytes spell, least
    /// significant byte first, where that integer is below the modulus.
    pub fn from_le_bytes(bytes: &[u8; 32]) -> (e: Option<FieldElement>)
        ensures
            e is Some <==> le_value(bytes@) < acir_modulus(),
            e is Some ==> e->0@ == le_value(bytes@),
    {
        let (hi, lo) = limbs_from_le_bytes(bytes);
        FieldElement::from_limbs(hi, lo)
    }

    /// The canonical integer as 32 bytes, least significant byte first.
    pub fn to_le_bytes(&self) -> (bytes: [u8; 32])
        ensures
            le_value(bytes@) == self@,
    {
        limbs_to_le_bytes(self.hi, self.lo)
    }

    /// The sum in the circuit's scalar field.
    pub fn add(&self, other: &FieldElement) -> (sum: FieldElement)
        ensures
            sum@ == (self@ + other@) % acir_modulus(),
    {
        let sum = acir_field_add(&self.to_le_bytes(), &other.to_le_bytes());
        let (hi, lo) = limbs_from_le_bytes(&sum);
        proof {
            lemma_mod_bound((self@ + other@) as int, acir_modulus() as int);
        }
        FieldElement { hi, lo }
    }

    /// The product in the circuit's scalar field.
    pub fn mul(&self, other: &FieldElement) -> (product: FieldElement)
        ensures
            product@ == (self@ * other@) % acir_modulus(),
    {
        let product = acir_field_mul(&self.to_le_bytes(), &other.to_le_bytes());
        let (hi, lo) = limbs_from_le_bytes(&product);
        proof {
            lemma_mod_bound((self@ * other@) as int, acir_modulus() as int);
        }
        FieldElement { hi, lo }
    }

    pub fn is_zero(&self) -> (z: bool)
        ensures
            z == (self@ == 0),
    {
        self.hi == 0 && self.lo == 0
    }
}

/// An element of the backend's native scalar field, held as its canonical
/// integer.
#[derive(Clone, Copy, Debug, PartialEq, Eq)]
pub struct Fr {
    hi: u128,
    lo: u128,
}

impl Fr {
    #[verifier::type_invariant]
    spec fn canonical(self) -> bool {
        limbs_value(self.hi, self.lo) < fr_modulus()
    }

    /// The canonical integer of the element, below `fr_modulus()`.
    pub closed spec fn view(&self) -> nat {
        limbs_value(self.hi, self.lo)
    }

    pub fn zero() -> (z: Fr)
        ensures
            z@ == 0,
            z == Fr::spec_of(0),
    {
        let z = Fr { hi: 0, lo: 0 };
        proof {
            z.lemma_is_spec_of();
        }
        z
    }

    pub fn one() -> (e: Fr)
        ensures
            e@ == 1,
            e == Fr::spec_of(1),
    {
        let e = Fr { hi: 0, lo: 1 };
        proof {
            e.lemma_is_spec_of();
        }
        e
    }

    /// The additive inverse of one.
    pub fn minus_one() -> (e: Fr)
        ensures
            e@ == fr_modulus() - 1,
            e == Fr::spec_of((fr_modulus() - 1) as nat),
    {
        let e = Fr { hi: FR_MODULUS_HI, lo: 0x2833e84879b9709143e1f593f0000000 };
        proof {
            e.lemma_is_spec_of();
        }
        e
    }

    /// The additive inverse of two.
    pub fn minus_two() -> (e: Fr)
        ensures
            e@ == fr_modulus() - 2,
            e == Fr::spec_of((fr_modulus() - 2) as nat),
    {
        let e = Fr { hi: FR_MODULUS_HI, lo: 0x2833e84879b9709143e1f593efffffff };
        proof {
            e.lemma_is_spec_of();
        }
        e
    }

    /// The element whose canonical integer is `value`, for a value below
    /// the modulus.
    pub closed spec fn spec_of(value: nat) -> Fr {
        Fr { hi: high_limb(value), lo: low_limb(value) }
    }

    /// `spec_of` names the element of that integer.
    pub broadcast proof fn lemma_spec_of(value: nat)
        requires
            value < fr_modulus(),
        ensures
            (#[trigger] Fr::spec_of(value))@ == value,
    {
        lemma_moduli_bound();
        lemma_limbs_of_value(value);
    }

    /// An element is named by its integer.
    pub proof fn lemma_is_spec_of(self)
        ensures
            self == Fr::spec_of(self@),
    {
        lemma_limbs_value_bound(self.hi, self.lo);
        lemma_limbs_of_value(self@);
        lemma_limbs_value_injective(self.hi, self.lo, high_limb(self@), low_limb(self@));
    }

    pub fn from_u128(value: u128) -> (e: Fr)
        ensures
            e@ == value,
            e == Fr::spec_of(value as nat),
    {
        let e = Fr { hi: 0, lo: value };
        proof {
            e.lemma_is_spec_of();
        }
        e
    }

    /// The element whose canonical integer is `hi * 2^128 + lo`, where that
    /// integer is below the modulus.
    pub fn from_limbs(hi: u128, lo: u128) -> (e: Option<Fr>)
        ensures
            e is Some <==> limbs_value(hi, lo) < fr_modulus(),
            e is Some ==> e->0@ == limbs_value(hi, lo),
    {
        if limbs_below(hi, lo, FR_MODULUS_HI, FR_MODULUS_LO) {
            Some(Fr { hi, lo })
        } else {
            None
        }
    }

    /// The element congruent to the integer `hi * 2^128 + lo`.
    pub fn from_limbs_reduce(hi: u128, lo: u128) -> (e: Fr)
        ensures
            e@ == limbs_value(hi, lo) % fr_modulus(),
            e == Fr::spec_of(limbs_value(hi, lo) % fr_modulus()),
    {
        let reduced = bn256_fr_reduce(&limbs_to_le_bytes(hi, lo));
        let r = limbs_from_le_bytes(&reduced);
        proof {
            lemma_mod_bound(limbs_value(hi, lo) as int, fr_modulus() as int);
        }
        let e = Fr { hi: r.0, lo: r.1 };
        proof {
            e.lemma_is_spec_of();
        }
        e
    }

    /// The element congruent to the integer that the 32 bytes spell, least
    /// significant byte first.
    pub fn from_le_bytes_reduce(bytes: &[u8; 32]) -> (e: Fr)
        ensures
            e@ == le_value(bytes@) % fr_modulus(),
    {
        let (hi, lo) = limbs_from_le_bytes(bytes);
        Fr::from_limbs_reduce(hi, lo)
    }

    /// The canonical integer as 32 bytes, least significant byte first.
    pub fn to_le_bytes(&self) -> (bytes: [u8; 32])
        ensures
            le_value(bytes@) == self@,
    {
        limbs_to_le_bytes(self.hi, self.lo)
    }

    /// The two limbs of the canonical integer, high limb first.
    pub fn limbs(&self) -> (l: (u128, u128))
        ensures
            limbs_value(l.0, l.1) == self@,
            self@ < fr_modulus(),
    {
        proof {
            use_type_invariant(self);
        }
        (self.hi, self.lo)
    }

    pub fn is_zero(&self) -> (z: bool)
        ensures
            z == (self@ == 0),
    {
        self.hi == 0 && self.lo == 0
    }

    /// Bit `i` of the canonical integer, counted from the least significant.
    pub fn bit(&self, i: u32) -> (b: bool)
        ensures
            b == ((self@ / pow2(i as nat)) % 2 == 1),
    {
        proof {
            lemma_limbs_bit(self.hi, self.lo, i);
        }
        if i >= 256 {
            false
        } else if i >= 128 {
            let shift: u128 = (i - 128) as u128;
            let limb = self.hi;
            let shifted = limb >> shift;
            proof {
                lemma_u128_shr_is_div(limb, shift);
                assert((shifted & 1 == 1) == (shifted % 2 == 1)) by (bit_vector);
            }
            shifted & 1 == 1
        } else {
            let shift: u128 = i as u128;
            let limb = self.lo;
            let shifted = limb >> shift;
            proof {
                lemma_u128_shr_is_div(limb, shift);
                assert((shifted & 1 == 1) == (shifted % 2 == 1)) by (bit_vector);
            }
            shifted & 1 == 1
        }
    }

    /// Whether the canonical integer lies in `[0, 2^num_bits)`.
    pub fn fits_in_bits(&self, num_bits: u32) -> (fits: bool)
        ensures
            fits == (self@ < pow2(num_bits as nat)),
    {
        proof {
            lemma_pow2_128();
            lemma_pow2_pos(num_bits as nat);
        }
        if num_bits >= 256 {
            proof {
                lemma_limbs_value_bound(self.hi, self.lo);
                if num_bits > 256 {
                    lemma_pow2_strictly_increases(256, num_bits as nat);
                }
            }
            true
        } else if num_bits >= 128 {
            let shift: u128 = (num_bits - 128) as u128;
            let limb = self.hi;
            proof {
                let j = (num_bits - 128) as nat;
                let d = pow2(j) as int;
                let p = pow2(128) as int;
                lemma_pow2_adds(128, j);
                lemma_pow2_pos(j);
                lemma_u128_shr_is_div(limb, shift);
                if (limb as int) < d {
                    lemma_basic_div(limb as int, d);
                    assert((limb as int) * p + (self.lo as int) < p * d) by (nonlinear_arith)
                        requires
                            0 <= (limb as int) < d,
                            0 <= (self.lo as int) < p,
                    ;
                } else {
                    lemma_div_non_zero(limb as int, d);
                    assert((limb as int) * p + (self.lo as int) >= p * d) by (nonlinear_arith)
                        requires
                            (limb as int) >= d,
                            0 <= (self.lo as int),
                            p > 0,
                    ;
                }
            }
            (limb >> shift) == 0
        } else {
            let shift: u128 = num_bits as u128;
            let limb = self.lo;
            proof {
                let d = pow2(num_bits as nat) as int;
                let p = pow2(128) as int;
                lemma_pow2_strictly_increases(num_bits as nat, 128);
                lemma_u128_shr_is_div(limb, shift);
                if (limb as int) < d {
                    lemma_basic_div(limb as int, d);
                } else {
                    lemma_div_non_zero(limb as int, d);
                }
                if self.hi != 0 {
                    assert((self.hi as int) * p + (limb as int) >= p) by (nonlinear_arith)
                        requires
                            (self.hi as int) >= 1,
                            0 <= (limb as int),
                            p > 0,
                    ;
                }
            }
            self.hi == 0 && (limb >> shift) == 0
        }
    }
}

/// An element of the secp256k1 base field, held as its canonical integer.
#[derive(Clone, Copy, Debug, PartialEq, Eq)]
pub struct Fp {
    hi: u128,
    lo: u128,
}

impl Fp {
    #[verifier::type_invariant]
    spec fn canonical(self) -> bool {
        limbs_value(self.hi, self.lo) < secp256k1_fp_modulus()
    }

    /// The canonical integer of the element, below `secp256k1_fp_modulus()`.
    pub closed spec fn view(&self) -> nat {
        limbs_value(self.hi, self.lo)
    }

    /// The element whose canonical integer is `value`, for a value below
    /// the modulus.
    pub closed spec fn spec_of(value: nat) -> Fp {
        Fp { hi: high_limb(value), lo: low_limb(value) }
    }

    /// `spec_of` names the element of that integer.
    pub broadcast proof fn lemma_spec_of(value: nat)
        requires
            value < secp256k1_fp_modulus(),
        ensures
            (#[trigger] Fp::spec_of(value))@ == value,
    {
        lemma_moduli_bound();
        lemma_limbs_of_value(value);
    }

    /// An element is named by its integer.
    pub proof fn lemma_is_spec_of(self)
        ensures
            self == Fp::spec_of(self@),
    {
        lemma_limbs_value_bound(self.hi, self.lo);
        lemma_limbs_of_value(self@);
        lemma_limbs_value_injective(self.hi, self.lo, high_limb(self@), low_limb(self@));
    }

    /// The element congruent to the integer `hi * 2^128 + lo`.
    pub fn from_limbs_reduce(hi: u128, lo: u128) -> (e: Fp)
        ensures
            e@ == limbs_value(hi, lo) % secp256k1_fp_modulus(),
            e == Fp::spec_of(limbs_value(hi, lo) % secp256k1_fp_modulus()),
    {
        let reduced = secp256k1_fp_reduce(&limbs_to_le_bytes(hi, lo));
        let r = limbs_from_le_bytes(&reduced);
        proof {
            lemma_mod_bound(limbs_value(hi, lo) as int, secp256k1_fp_modulus() as int);
        }
        let e = Fp { hi: r.0, lo: r.1 };
        proof {
            e.lemma_is_spec_of();
        }
        e
    }

    /// The two limbs of the canonical integer, high limb first.
    pub fn limbs(&self) -> (l: (u128, u128))
        ensures
            limbs_value(l.0, l.1) == self@,
            self@ < secp256k1_fp_modulus(),
    {
        proof {
            use_type_invariant(self);
        }
        (self.hi, self.lo)
    }

    pub fn is_zero(&self) -> (z: bool)
        ensures
            z == (self@ == 0),
    {
        self.hi == 0 && self.lo == 0
    }
}

/// An element of the secp256k1 scalar field, held as its canonical integer.
#[derive(Clone, Copy, Debug, PartialEq, Eq)]
pub struct Fq {
    hi: u128,
    lo: u128,
}

impl Fq {
    #[verifier::type_invariant]
    spec fn canonical(self) -> bool {
        limbs_value(self.hi, self.lo) < secp256k1_fq_modulus()
    }

    /// The canonical integer of the element, below `secp256k1_fq_modulus()`.
    pub closed spec fn view(&self) -> nat {
        limbs_value(self.hi, self.lo)
    }

    /// The element whose canonical integer is `value`, for a value below
    /// the modulus.
    pub closed spec fn spec_of(value: nat) -> Fq {
        Fq { hi: high_limb(value), lo: low_limb(value) }
    }

    /// `spec_of` names the element of that integer.
    pub broadcast proof fn lemma_spec_of(value: nat)
        requires
            value < secp256k1_fq_modulus(),
        ensures
            (#[trigger] Fq::spec_of(value))@ == value,
    {
        lemma_moduli_bound();
        lemma_limbs_of_value(value);
    }

    /// An element is named by its integer.
    pub proof fn lemma_is_spec_of(self)
        ensures
            self == Fq::spec_of(self@),
    {
        lemma_limbs_value_bound(self.hi, self.lo);
        lemma_limbs_of_value(self@);
        lemma_limbs_value_injective(self.hi, self.lo, high_limb(self@), low_limb(self@));
    }

    /// The element congruent to the integer `hi * 2^128 + lo`.
    pub fn from_limbs_reduce(hi: u128, lo: u128) -> (e: Fq)
        ensures
            e@ == limbs_value(hi, lo) % secp256k1_fq_modulus(),
            e == Fq::spec_of(limbs_value(hi, lo) % secp256k1_fq_modulus()),
    {
        let reduced = secp256k1_fq_reduce(&limbs_to_le_bytes(hi, lo));
        let r = limbs_from_le_bytes(&reduced);
        proof {
            lemma_mod_bound(limbs_value(hi, lo) as int, secp256k1_fq_modulus() as int);
        }
        let e = Fq { hi: r.0, lo: r.1 };
        proof {
            e.lemma_is_spec_of();
        }
        e
    }

    /// The two limbs of the canonical integer, high limb first.
    pub fn limbs(&self) -> (l: (u128, u128))
        ensures
            limbs_value(l.0, l.1) == self@,
            self@ < secp256k1_fq_modulus(),
    {
        proof {
            use_type_invariant(self);
        }
        (self.hi, self.lo)
    }
}

/// Whether `(x, y)` is a point of secp256k1 other than the point at infinity.
pub fn secp256k1_is_on_curve(x: &Fp, y: &Fp) -> (on_curve: bool)
    ensures
        on_curve == secp256k1_on_curve(x@, y@),
{
    proof {
        if x@ == 0 && y@ == 0 {
            assert(!secp256k1_on_curve(0, 0)) by {
                lemma_small_mod(0, secp256k1_fp_modulus());
                lemma_small_mod(7, secp256k1_fp_modulus());
                assert(0nat * 0nat == 0);
                assert(0nat * 0nat * 0nat + 7 == 7);
            }
        }
    }
    if x.is_zero() && y.is_zero() {
        false
    } else {
        let (x_hi, x_lo) = x.limbs();
        let (y_hi, y_lo) = y.limbs();
        secp256k1_from_xy(&limbs_to_le_bytes(x_hi, x_lo), &limbs_to_le_bytes(y_hi, y_lo))
    }
}

/// The bridge from the circuit's scalar field into the native field: the
/// integer of the element, reduced modulo the native prime.
pub fn noir_field_to_halo2_field(noir_ele: FieldElement) -> (halo_ele: Fr)
    ensures
        halo_ele@ == noir_ele@ % fr_modulus(),
        halo_ele == Fr::spec_of(noir_ele@ % fr_modulus()),
        noir_ele@ < acir_modulus(),
{
    let (hi, lo) = noir_ele.limbs();
    Fr::from_limbs_reduce(hi, lo)
}

/// The two primes of the bridge are one prime, so the bridge keeps the
/// integer of every element.
pub proof fn lemma_bridge_keeps_value(x: nat)
    requires
        x < acir_modulus(),
    ensures
        x % fr_modulus() == x,
        acir_modulus() == fr_modulus(),
{
    lemma_small_mod(x, fr_modulus());
}

/// Bridging an integer and reducing the result modulo the source prime
/// leaves its residue modulo every common divisor of the two primes.
pub proof fn lemma_bridge_round_trip(x: nat, g: nat)
    requires
        g > 0,
        acir_modulus() % g == 0,
        fr_modulus() % g == 0,
    ensures
        ((x % fr_modulus()) % acir_modulus()) % g == x % g,
{
    let p = fr_modulus() as int;
    let s = acir_modulus() as int;
    let gi = g as int;
    lemma_fundamental_div_mod(p, gi);
    lemma_fundamental_div_mod(s, gi);
    let y = (x % fr_modulus()) as int;
    let pq = p / gi;
    let sq = s / gi;
    assert(pq > 0) by (nonlinear_arith)
        requires
            p == gi * pq,
            p > 0,
            gi > 0,
    ;
    assert(sq > 0) by (nonlinear_arith)
        requires
            s == gi * sq,
            s > 0,
            gi > 0,
    ;
    lemma_mul_is_commutative(gi, p / gi);
    lemma_mul_is_commutative(gi, s / gi);
    lemma_mod_mod(x as int, gi, p / gi);
    lemma_mod_mod(y, gi, s / gi);
}

} // verus!
