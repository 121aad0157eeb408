use halo2curves::bn256::Fr as NativeFr;
use noir_halo2_backend::circuit_translator::{
    emit, EcdsaAssignment, Instruction, NoirHalo2Translator, RangeAssignment,
};
use noir_halo2_backend::errors::{Error, StructuralError, ValueError};
use noir_halo2_backend::field::{
    FieldElement, Fp, Fq, Fr, ACIR_MODULUS_HI, ACIR_MODULUS_LO, SECP256K1_FQ_MODULUS_HI,
    SECP256K1_FQ_MODULUS_LO,
};
use noir_halo2_backend::halo2_plonk_api::{ConstraintSystem, PlonkConfig, PolyTriple};
use noir_halo2_backend::native_types::{
    BlackBoxFuncCall, Circuit, Expression, Opcode, Witness, WitnessMap,
};
use noir_halo2_backend::plonk::{Any, Assembly, Cell, Column, Event, Value};

const GX_BYTES: [u8; 32] = [
    152, 23, 248, 22, 91, 129, 242, 89, 217, 40, 206, 45, 219, 252, 155, 2, 7, 11, 135, 206, 149,
    98, 160, 85, 172, 187, 220, 249, 126, 102, 190, 121,
];

const GY_BYTES: [u8; 32] = [
    184, 212, 16, 251, 143, 208, 71, 156, 25, 84, 133, 166, 72, 180, 23, 253, 168, 8, 17, 14, 252,
    251, 164, 93, 101, 196, 163, 38, 119, 218, 58, 72,
];

fn fe(value: u128) -> FieldElement {
    FieldElement::from_u128(value)
}

fn minus(value: u128) -> FieldElement {
    FieldElement::from_limbs(ACIR_MODULUS_HI, ACIR_MODULUS_LO - value).unwrap()
}

fn witnesses(values: &[(u32, u128)]) -> WitnessMap {
    let mut map = WitnessMap::new();
    for (witness, value) in values {
        map.insert(Witness(*witness), fe(*value));
    }
    map
}

fn translator(opcodes: Vec<Opcode>, values: &[(u32, u128)]) -> NoirHalo2Translator {
    NoirHalo2Translator::new(Circuit { opcodes }, witnesses(values))
}

fn add_expression(a: u32, b: u32, c: u32) -> Expression {
    Expression {
        mul_terms: vec![],
        linear_combinations: vec![
            (FieldElement::one(), Witness(a)),
            (FieldElement::one(), Witness(b)),
            (minus(1), Witness(c)),
        ],
        q_c: FieldElement::zero(),
    }
}

fn native(element: &Fr) -> NativeFr {
    let (hi, lo) = element.limbs();
    NativeFr::from_raw([lo as u64, (lo >> 64) as u64, hi as u64, (hi >> 64) as u64])
}

fn known(value: Value<Fr>) -> NativeFr {
    match value {
        Value::Known(element) => native(&element),
        Value::Unknown => panic!("the proving pass knows every value"),
    }
}

fn gate_value(triple: &PolyTriple<Fr>) -> NativeFr {
    let a = known(triple.a);
    let b = known(triple.b);
    let c = known(triple.c);
    a * native(&triple.ql)
        + b * native(&triple.qr)
        + a * b * native(&triple.qm)
        + c * native(&triple.qo)
        + native(&triple.qc)
}

fn advice(index: usize, row: usize) -> Cell {
    Cell { column: Column { column_type: Any::Advice, index }, row }
}

fn events(assembly: &Assembly) -> Vec<Event> {
    (0..assembly.len()).map(|i| assembly.event(i).unwrap()).collect()
}

fn standard_config() -> PlonkConfig {
    let mut cs = ConstraintSystem::new();
    PlonkConfig::configure(&mut cs)
}

fn byte_witnesses(first: u32, count: u32) -> Vec<Witness> {
    (first..first + count).map(Witness).collect()
}

fn ecdsa_values(signature: &[u8; 64], hash: &[u8; 32], x: &[u8; 32], y: &[u8; 32]) -> WitnessMap {
    let mut map = WitnessMap::new();
    for (i, byte) in hash.iter().enumerate() {
        map.insert(Witness(1 + i as u32), fe(*byte as u128));
    }
    for (i, byte) in signature.iter().enumerate() {
        map.insert(Witness(33 + i as u32), fe(*byte as u128));
    }
    for (i, byte) in x.iter().enumerate() {
        map.insert(Witness(97 + i as u32), fe(*byte as u128));
    }
    for (i, byte) in y.iter().enumerate() {
        map.insert(Witness(129 + i as u32), fe(*byte as u128));
    }
    map
}

fn ecdsa_translator(values: WitnessMap) -> NoirHalo2Translator {
    NoirHalo2Translator::new(Circuit { opcodes: vec![] }, values)
}

fn ecdsa_call(translator: &NoirHalo2Translator) -> Result<EcdsaAssignment, Error> {
    translator._add_ecdsa_secp256k1_constrain(
        &byte_witnesses(1, 32),
        &byte_witnesses(33, 64),
        &byte_witnesses(97, 32),
        &byte_witnesses(129, 32),
    )
}

fn counting_bytes(first: u8) -> [u8; 32] {
    let mut bytes = [0u8; 32];
    for (i, byte) in bytes.iter_mut().enumerate() {
        *byte = first.wrapping_add(i as u8);
    }
    bytes
}

fn le_limbs(bytes: &[u8]) -> (u128, u128) {
    let mut low = [0u8; 16];
    let mut high = [0u8; 16];
    low.copy_from_slice(&bytes[..16]);
    high.copy_from_slice(&bytes[16..32]);
    (u128::from_le_bytes(high), u128::from_le_bytes(low))
}

#[test]
fn the_add_circuit_becomes_one_row() {
    let translator = translator(vec![], &[(1, 3), (2, 4), (3, 7)]);
    let (constraint, triple) =
        translator.add_arithmetic_constrains(&add_expression(1, 2, 3)).unwrap();
    assert_eq!((constraint.a, constraint.b, constraint.c), (1, 2, 3));
    assert_eq!(constraint.ql, FieldElement::one());
    assert_eq!(constraint.qr, FieldElement::one());
    assert_eq!(constraint.qo, minus(1));
    assert_eq!(constraint.qm, FieldElement::zero());
    assert_eq!(constraint.qc, FieldElement::zero());
    assert_eq!(
        triple,
        PolyTriple::new(
            Value::Known(Fr::from_u128(3)),
            Value::Known(Fr::from_u128(4)),
            Value::Known(Fr::from_u128(7)),
            Fr::zero(),
            Fr::one(),
            Fr::one(),
            Fr::minus_one(),
            Fr::zero(),
        )
    );
    assert_eq!(gate_value(&triple), NativeFr::zero());
}

#[test]
fn a_satisfied_constraint_evaluates_to_zero_and_a_perturbed_one_does_not() {
    let gate = add_expression(1, 2, 3);
    let good = translator(vec![], &[(1, 1), (2, 2), (3, 3)]);
    let (_, triple) = good.add_arithmetic_constrains(&gate).unwrap();
    assert_eq!(gate_value(&triple), NativeFr::zero());
    let bad = translator(vec![], &[(1, 1), (2, 2), (3, 4)]);
    let (_, triple) = bad.add_arithmetic_constrains(&gate).unwrap();
    assert_ne!(gate_value(&triple), NativeFr::zero());
    assert_eq!(gate_value(&triple), -NativeFr::one());
}

#[test]
fn a_product_goes_on_the_first_two_wires() {
    let gate = Expression {
        mul_terms: vec![(fe(2), Witness(5), Witness(6))],
        linear_combinations: vec![(minus(1), Witness(7)), (fe(3), Witness(5))],
        q_c: fe(4),
    };
    let translator = translator(vec![], &[(5, 10), (6, 20), (7, 434)]);
    let (constraint, triple) = translator.add_arithmetic_constrains(&gate).unwrap();
    assert_eq!((constraint.a, constraint.b, constraint.c), (5, 6, 7));
    assert_eq!(constraint.qm, fe(2));
    assert_eq!(constraint.ql, fe(3));
    assert_eq!(constraint.qr, FieldElement::zero());
    assert_eq!(constraint.qo, minus(1));
    assert_eq!(constraint.qc, fe(4));
    assert_eq!(triple.a, Value::Known(Fr::from_u128(10)));
    assert_eq!(triple.b, Value::Known(Fr::from_u128(20)));
    assert_eq!(triple.c, Value::Known(Fr::from_u128(434)));
    assert_eq!(gate_value(&triple), NativeFr::zero());
}

#[test]
fn a_square_puts_one_witness_on_both_product_wires() {
    let gate = Expression {
        mul_terms: vec![(fe(1), Witness(5), Witness(5))],
        linear_combinations: vec![(fe(2), Witness(5)), (minus(1), Witness(6))],
        q_c: fe(1),
    };
    let translator = translator(vec![], &[(5, 9), (6, 100)]);
    let (constraint, triple) = translator.add_arithmetic_constrains(&gate).unwrap();
    assert_eq!((constraint.a, constraint.b, constraint.c), (5, 5, 6));
    assert_eq!(constraint.ql, fe(2));
    assert_eq!(constraint.qr, FieldElement::zero());
    assert_eq!(constraint.qo, minus(1));
    assert_eq!(gate_value(&triple), NativeFr::zero());
}

#[test]
fn a_missing_witness_is_assigned_zero() {
    let translator = translator(vec![], &[(1, 3)]);
    let (_, triple) = translator.add_arithmetic_constrains(&add_expression(1, 2, 3)).unwrap();
    assert_eq!(triple.a, Value::Known(Fr::from_u128(3)));
    assert_eq!(triple.b, Value::Known(Fr::zero()));
    assert_eq!(triple.c, Value::Known(Fr::zero()));
}

#[test]
fn an_expression_with_no_term_is_its_constant() {
    let gate = Expression { mul_terms: vec![], linear_combinations: vec![], q_c: fe(6) };
    let translator = translator(vec![], &[]);
    let (constraint, triple) = translator.add_arithmetic_constrains(&gate).unwrap();
    assert_eq!((constraint.a, constraint.b, constraint.c), (0, 0, 0));
    assert_eq!(constraint.qc, fe(6));
    assert_eq!(gate_value(&triple), NativeFr::from(6));
}

#[test]
fn two_multiplication_terms_are_refused() {
    let gate = Expression {
        mul_terms: vec![(fe(1), Witness(1), Witness(2)), (fe(1), Witness(3), Witness(4))],
        linear_combinations: vec![],
        q_c: FieldElement::zero(),
    };
    let translator = translator(vec![], &[]);
    assert_eq!(
        translator.add_arithmetic_constrains(&gate),
        Err(Error::Structure(StructuralError::MultiMul))
    );
}

#[test]
fn four_witnesses_in_one_expression_are_refused() {
    let gate = Expression {
        mul_terms: vec![],
        linear_combinations: vec![
            (fe(1), Witness(1)),
            (fe(1), Witness(2)),
            (fe(1), Witness(3)),
            (fe(1), Witness(4)),
        ],
        q_c: FieldElement::zero(),
    };
    let translator = translator(vec![], &[]);
    assert_eq!(
        translator.add_arithmetic_constrains(&gate),
        Err(Error::Structure(StructuralError::TooManyLinearTerms))
    );
    let gate = Expression {
        mul_terms: vec![(fe(1), Witness(1), Witness(2))],
        linear_combinations: vec![(fe(1), Witness(3)), (fe(1), Witness(4))],
        q_c: FieldElement::zero(),
    };
    assert_eq!(
        translator.add_arithmetic_constrains(&gate),
        Err(Error::Structure(StructuralError::TooManyLinearTerms))
    );
}

#[test]
fn the_reserved_witness_in_an_expression_is_refused() {
    let translator = translator(vec![], &[]);
    let gate = Expression {
        mul_terms: vec![(fe(1), Witness(0), Witness(2))],
        linear_combinations: vec![],
        q_c: FieldElement::zero(),
    };
    assert_eq!(
        translator.add_arithmetic_constrains(&gate),
        Err(Error::Structure(StructuralError::Malformed))
    );
    let gate = Expression {
        mul_terms: vec![],
        linear_combinations: vec![(fe(1), Witness(1)), (fe(1), Witness(0))],
        q_c: FieldElement::zero(),
    };
    assert_eq!(
        translator.add_arithmetic_constrains(&gate),
        Err(Error::Structure(StructuralError::Malformed))
    );
}

#[test]
fn a_range_check_passes_on_255_and_fails_on_256() {
    let translator = translator(vec![], &[(1, 255), (2, 256)]);
    assert_eq!(
        translator.add_range_constrain(Witness(1), 8),
        Ok(RangeAssignment { value: Fr::from_u128(255), limb_bit_len: 8, bit_len: 8 })
    );
    assert_eq!(
        translator.add_range_constrain(Witness(2), 8),
        Err(Error::Value(ValueError::OutOfRange))
    );
    assert_eq!(
        translator.add_range_constrain(Witness(2), 9),
        Ok(RangeAssignment { value: Fr::from_u128(256), limb_bit_len: 8, bit_len: 9 })
    );
    assert_eq!(
        translator.add_range_constrain(Witness(3), 1),
        Ok(RangeAssignment { value: Fr::zero(), limb_bit_len: 8, bit_len: 1 })
    );
}

#[test]
fn a_bitwise_and_becomes_two_range_checks_and_a_row_for_each_bit() {
    let translator = translator(vec![], &[(1, 0xA5), (2, 0x3C), (3, 0x24)]);
    let rows = translator
        .add_bitwise_constrain(Witness(1), Witness(2), Witness(3), 8, false)
        .unwrap();
    assert_eq!(rows.len(), 10);
    assert_eq!(
        rows[0],
        Instruction::Range(RangeAssignment {
            value: Fr::from_u128(0xA5),
            limb_bit_len: 8,
            bit_len: 8
        })
    );
    assert_eq!(
        rows[1],
        Instruction::Range(RangeAssignment {
            value: Fr::from_u128(0x3C),
            limb_bit_len: 8,
            bit_len: 8
        })
    );
    for i in 0..8u32 {
        let bit = |value: u128| Value::Known(Fr::from_u128((value >> i) & 1));
        let expected = PolyTriple::new(
            bit(0xA5),
            bit(0x3C),
            bit(0x24),
            Fr::one(),
            Fr::zero(),
            Fr::zero(),
            Fr::minus_one(),
            Fr::zero(),
        );
        assert_eq!(rows[2 + i as usize], Instruction::Gate { wires: (0, 0, 0), triple: expected });
        assert_eq!(gate_value(&expected), NativeFr::zero());
    }
}

#[test]
fn a_wrong_output_of_a_bitwise_and_breaks_one_row() {
    let translator = translator(vec![], &[(1, 0xA5), (2, 0x3C), (3, 0x25)]);
    let rows = translator
        .add_bitwise_constrain(Witness(1), Witness(2), Witness(3), 8, false)
        .unwrap();
    let mut broken = Vec::new();
    for (i, row) in rows.iter().enumerate().skip(2) {
        match row {
            Instruction::Gate { triple, .. } => {
                if gate_value(triple) != NativeFr::zero() {
                    broken.push(i - 2);
                }
            }
            _ => panic!("a row for each bit"),
        }
    }
    assert_eq!(broken, vec![0]);
}

#[test]
fn a_bitwise_xor_uses_the_exclusive_or_gate() {
    let translator = translator(vec![], &[(1, 0xA5), (2, 0x3C), (3, 0x99)]);
    let rows =
        translator.add_bitwise_constrain(Witness(1), Witness(2), Witness(3), 8, true).unwrap();
    assert_eq!(rows.len(), 10);
    for i in 0..8u32 {
        let bit = |value: u128| Value::Known(Fr::from_u128((value >> i) & 1));
        let expected = PolyTriple::new(
            bit(0xA5),
            bit(0x3C),
            bit(0x99),
            Fr::minus_two(),
            Fr::one(),
            Fr::one(),
            Fr::minus_one(),
            Fr::zero(),
        );
        assert_eq!(rows[2 + i as usize], Instruction::Gate { wires: (0, 0, 0), triple: expected });
        assert_eq!(gate_value(&expected), NativeFr::zero());
    }
    let wrong = translator
        .add_bitwise_constrain(Witness(1), Witness(2), Witness(1), 8, true)
        .unwrap();
    let broken = wrong
        .iter()
        .skip(2)
        .filter(|row| match row {
            Instruction::Gate { triple, .. } => gate_value(triple) != NativeFr::zero(),
            _ => false,
        })
        .count();
    assert_eq!(broken, 4);
}

#[test]
fn a_bitwise_operand_that_is_too_wide_is_refused() {
    let translator = translator(vec![], &[(1, 0x1A5), (2, 0x3C), (3, 0x24)]);
    assert_eq!(
        translator.add_bitwise_constrain(Witness(1), Witness(2), Witness(3), 8, false),
        Err(Error::Value(ValueError::OutOfRange))
    );
    assert_eq!(
        translator.add_bitwise_constrain(Witness(2), Witness(1), Witness(3), 8, true),
        Err(Error::Value(ValueError::OutOfRange))
    );
    assert_eq!(
        translator.add_bitwise_constrain(Witness(1), Witness(2), Witness(3), 0, false),
        Ok(vec![])
    );
}

#[test]
fn byte_witnesses_are_packed_least_significant_first() {
    let mut map = WitnessMap::new();
    for (i, byte) in GX_BYTES.iter().enumerate() {
        map.insert(Witness(1 + i as u32), fe(*byte as u128));
    }
    let translator = ecdsa_translator(map);
    let limbs = byte_witnesses(1, 32);
    assert_eq!(
        translator.noir_field_to_secp255k1_fp_field(&limbs).unwrap().limbs(),
        (0x79be667ef9dcbbac55a06295ce870b07, 0x029bfcdb2dce28d959f2815b16f81798)
    );
    assert_eq!(
        translator.noir_field_to_secp255k1_fq_field(&limbs).unwrap().limbs(),
        (0x79be667ef9dcbbac55a06295ce870b07, 0x029bfcdb2dce28d959f2815b16f81798)
    );
}

#[test]
fn packed_bytes_are_reduced_into_their_field() {
    let mut map = WitnessMap::new();
    for i in 0..32u32 {
        map.insert(Witness(1 + i), fe(0xFF));
    }
    let translator = ecdsa_translator(map);
    let limbs = byte_witnesses(1, 32);
    assert_eq!(
        translator.noir_field_to_secp255k1_fp_field(&limbs).unwrap().limbs(),
        (0, 0x1000003d0)
    );
    assert_eq!(
        translator.noir_field_to_secp255k1_fq_field(&limbs).unwrap().limbs(),
        (1, 0x4551231950b75fc4402da1732fc9bebe)
    );
}

#[test]
fn a_witness_that_is_no_byte_is_a_range_error() {
    let mut map = WitnessMap::new();
    for i in 0..32u32 {
        map.insert(Witness(1 + i), fe(1));
    }
    map.insert(Witness(32), fe(0x100));
    let translator = ecdsa_translator(map);
    let limbs = byte_witnesses(1, 32);
    assert_eq!(
        translator.noir_field_to_secp255k1_fp_field(&limbs),
        Err(Error::Value(ValueError::OutOfRange))
    );
    assert_eq!(
        translator.noir_field_to_secp255k1_fq_field(&limbs),
        Err(Error::Value(ValueError::OutOfRange))
    );
    let mut map = WitnessMap::new();
    map.insert(Witness(1), minus(1));
    let translator = ecdsa_translator(map);
    assert_eq!(
        translator.noir_field_to_secp255k1_fq_field(&limbs),
        Err(Error::Value(ValueError::OutOfRange))
    );
}

#[test]
fn a_decomposition_of_the_wrong_length_is_malformed() {
    let translator = ecdsa_translator(WitnessMap::new());
    assert_eq!(
        translator.noir_field_to_secp255k1_fp_field(&byte_witnesses(1, 31)),
        Err(Error::Structure(StructuralError::Malformed))
    );
    assert_eq!(
        translator.noir_field_to_secp255k1_fq_field(&byte_witnesses(1, 33)),
        Err(Error::Structure(StructuralError::Malformed))
    );
    assert_eq!(
        translator.noir_field_to_secp255k1_fq_field(&byte_witnesses(1, 32)).unwrap().limbs(),
        (0, 0)
    );
}

#[test]
fn an_ecdsa_call_rebuilds_signature_hash_and_key() {
    let mut signature = [0u8; 64];
    signature[..32].copy_from_slice(&counting_bytes(1));
    signature[32..].copy_from_slice(&counting_bytes(101));
    let hash = counting_bytes(200);
    let translator = ecdsa_translator(ecdsa_values(&signature, &hash, &GX_BYTES, &GY_BYTES));
    let call = ecdsa_call(&translator).unwrap();
    let (r_hi, r_lo) = le_limbs(&signature[..32]);
    let (s_hi, s_lo) = le_limbs(&signature[32..]);
    let (m_hi, m_lo) = le_limbs(&hash);
    assert_eq!(call.r, Fq::from_limbs_reduce(r_hi, r_lo));
    assert_eq!(call.r.limbs(), (r_hi, r_lo));
    assert_eq!(call.s, Fq::from_limbs_reduce(s_hi, s_lo));
    assert_eq!(call.s.limbs(), (s_hi, s_lo));
    assert_eq!(call.msg_hash, Fq::from_limbs_reduce(m_hi, m_lo));
    assert_eq!(
        call.public_key_x,
        Fp::from_limbs_reduce(
            0x79be667ef9dcbbac55a06295ce870b07,
            0x029bfcdb2dce28d959f2815b16f81798
        )
    );
    assert_eq!(
        call.public_key_y,
        Fp::from_limbs_reduce(
            0x483ada7726a3c4655da4fbfc0e1108a8,
            0xfd17b448a68554199c47d08ffb10d4b8
        )
    );
}

#[test]
fn an_ecdsa_hash_above_the_group_order_is_reduced() {
    let signature = [1u8; 64];
    let hash = [0xFFu8; 32];
    let translator = ecdsa_translator(ecdsa_values(&signature, &hash, &GX_BYTES, &GY_BYTES));
    let call = ecdsa_call(&translator).unwrap();
    assert_eq!(call.msg_hash.limbs(), (1, 0x4551231950b75fc4402da1732fc9bebe));
    assert!(call.msg_hash.limbs() < (SECP256K1_FQ_MODULUS_HI, SECP256K1_FQ_MODULUS_LO));
}

#[test]
fn an_ecdsa_key_off_the_curve_is_refused() {
    let signature = [1u8; 64];
    let hash = [2u8; 32];
    let translator = ecdsa_translator(ecdsa_values(&signature, &hash, &GY_BYTES, &GX_BYTES));
    assert_eq!(ecdsa_call(&translator), Err(Error::Value(ValueError::PublicKeyNotOnCurve)));
    let translator = ecdsa_translator(ecdsa_values(&signature, &hash, &[0u8; 32], &[0u8; 32]));
    assert_eq!(ecdsa_call(&translator), Err(Error::Value(ValueError::PublicKeyNotOnCurve)));
    let mut flipped = GY_BYTES;
    flipped[0] ^= 1;
    let translator = ecdsa_translator(ecdsa_values(&signature, &hash, &GX_BYTES, &flipped));
    assert_eq!(ecdsa_call(&translator), Err(Error::Value(ValueError::PublicKeyNotOnCurve)));
}

#[test]
fn an_ecdsa_call_with_a_wide_witness_is_a_range_error() {
    let signature = [1u8; 64];
    let hash = [2u8; 32];
    let mut values = ecdsa_values(&signature, &hash, &GX_BYTES, &GY_BYTES);
    values.insert(Witness(96), fe(256));
    let translator = ecdsa_translator(values);
    assert_eq!(ecdsa_call(&translator), Err(Error::Value(ValueError::OutOfRange)));
    let mut values = ecdsa_values(&signature, &hash, &GY_BYTES, &GX_BYTES);
    values.insert(Witness(1), fe(1000));
    let translator = ecdsa_translator(values);
    assert_eq!(ecdsa_call(&translator), Err(Error::Value(ValueError::OutOfRange)));
}

#[test]
fn an_ecdsa_call_with_inputs_of_the_wrong_length_is_malformed() {
    let signature = [1u8; 64];
    let hash = [2u8; 32];
    let translator = ecdsa_translator(ecdsa_values(&signature, &hash, &GX_BYTES, &GY_BYTES));
    let malformed = Err(Error::Structure(StructuralError::Malformed));
    assert_eq!(
        translator._add_ecdsa_secp256k1_constrain(
            &byte_witnesses(1, 31),
            &byte_witnesses(33, 64),
            &byte_witnesses(97, 32),
            &byte_witnesses(129, 32),
        ),
        malformed
    );
    assert_eq!(
        translator._add_ecdsa_secp256k1_constrain(
            &byte_witnesses(1, 32),
            &byte_witnesses(33, 63),
            &byte_witnesses(97, 32),
            &byte_witnesses(129, 32),
        ),
        malformed
    );
    assert_eq!(
        translator._add_ecdsa_secp256k1_constrain(
            &byte_witnesses(1, 32),
            &byte_witnesses(33, 64),
            &byte_witnesses(97, 33),
            &byte_witnesses(129, 32),
        ),
        malformed
    );
    assert_eq!(
        translator._add_ecdsa_secp256k1_constrain(
            &byte_witnesses(1, 32),
            &byte_witnesses(33, 64),
            &byte_witnesses(97, 32),
            &vec![],
        ),
        malformed
    );
}

#[test]
fn opcodes_are_translated_in_program_order() {
    let opcodes = vec![
        Opcode::Arithmetic(add_expression(1, 2, 3)),
        Opcode::Directive,
        Opcode::BlackBoxFuncCall(BlackBoxFuncCall::RANGE { input: Witness(1), num_bits: 8 }),
        Opcode::BlackBoxFuncCall(BlackBoxFuncCall::RANGE { input: Witness(1), num_bits: 0 }),
        Opcode::BlackBoxFuncCall(BlackBoxFuncCall::AND {
            lhs: Witness(1),
            rhs: Witness(2),
            output: Witness(4),
            num_bits: 2,
        }),
        Opcode::Arithmetic(add_expression(2, 1, 3)),
    ];
    let translator = translator(opcodes, &[(1, 3), (2, 1), (3, 4), (4, 1)]);
    let plan = translator.translate().unwrap();
    assert_eq!(plan.len(), 7);
    assert!(matches!(plan[0], Instruction::Gate { wires: (1, 2, 3), .. }));
    assert_eq!(
        plan[1],
        Instruction::Range(RangeAssignment { value: Fr::from_u128(3), limb_bit_len: 8, bit_len: 8 })
    );
    assert_eq!(
        plan[2],
        Instruction::Range(RangeAssignment { value: Fr::from_u128(3), limb_bit_len: 8, bit_len: 2 })
    );
    assert_eq!(
        plan[3],
        Instruction::Range(RangeAssignment { value: Fr::from_u128(1), limb_bit_len: 8, bit_len: 2 })
    );
    assert!(matches!(plan[4], Instruction::Gate { wires: (0, 0, 0), .. }));
    assert!(matches!(plan[5], Instruction::Gate { wires: (0, 0, 0), .. }));
    assert!(matches!(plan[6], Instruction::Gate { wires: (2, 1, 3), .. }));
}

#[test]
fn an_ecdsa_opcode_becomes_one_gadget_call() {
    let signature = [1u8; 64];
    let hash = [2u8; 32];
    let opcodes = vec![Opcode::BlackBoxFuncCall(BlackBoxFuncCall::EcdsaSecp256k1 {
        public_key_x: byte_witnesses(97, 32),
        public_key_y: byte_witnesses(129, 32),
        signature: byte_witnesses(33, 64),
        hashed_message: byte_witnesses(1, 32),
    })];
    let values = ecdsa_values(&signature, &hash, &GX_BYTES, &GY_BYTES);
    let translator = NoirHalo2Translator::new(Circuit { opcodes }, values);
    let plan = translator.translate().unwrap();
    let expected = ecdsa_call(&translator).unwrap();
    assert_eq!(plan, vec![Instruction::Ecdsa(expected)]);
}

#[test]
fn an_unsupported_opcode_is_named_in_the_error() {
    let opcodes = vec![
        Opcode::Arithmetic(add_expression(1, 2, 3)),
        Opcode::Unsupported("keccak256".to_string()),
        Opcode::Unsupported("sha256".to_string()),
    ];
    let translator = translator(opcodes, &[]);
    assert_eq!(
        translator.translate(),
        Err(Error::Structure(StructuralError::UnsupportedOpcode("keccak256".to_string())))
    );
}

#[test]
fn translation_stops_at_the_first_opcode_that_fails() {
    let two_products = Expression {
        mul_terms: vec![(fe(1), Witness(1), Witness(2)), (fe(1), Witness(3), Witness(4))],
        linear_combinations: vec![],
        q_c: FieldElement::zero(),
    };
    let opcodes = vec![
        Opcode::BlackBoxFuncCall(BlackBoxFuncCall::RANGE { input: Witness(1), num_bits: 1 }),
        Opcode::Arithmetic(two_products),
    ];
    let translator = translator(opcodes, &[(1, 2)]);
    assert_eq!(translator.translate(), Err(Error::Value(ValueError::OutOfRange)));
}

#[test]
fn a_failed_synthesis_leaves_the_sink_as_it_was() {
    let opcodes = vec![
        Opcode::Arithmetic(add_expression(1, 2, 3)),
        Opcode::Unsupported("pedersen".to_string()),
    ];
    let translator = translator(opcodes, &[(1, 3), (2, 4), (3, 7)]);
    let mut assembly = Assembly::new();
    assert_eq!(
        translator.synthesize(standard_config(), &mut assembly),
        Err(Error::Structure(StructuralError::UnsupportedOpcode("pedersen".to_string())))
    );
    assert_eq!(assembly.len(), 0);
}

#[test]
fn synthesis_writes_each_row_and_copies_repeated_witnesses() {
    let opcodes = vec![
        Opcode::Arithmetic(add_expression(1, 2, 3)),
        Opcode::BlackBoxFuncCall(BlackBoxFuncCall::RANGE { input: Witness(3), num_bits: 8 }),
        Opcode::Arithmetic(add_expression(3, 1, 4)),
    ];
    let translator = translator(opcodes, &[(1, 3), (2, 4), (3, 7), (4, 10)]);
    let mut assembly = Assembly::new();
    let plan = translator.synthesize(standard_config(), &mut assembly).unwrap();
    assert_eq!(plan.len(), 3);
    let known = |value: u128| Value::Known(Fr::from_u128(value));
    assert_eq!(
        events(&assembly),
        vec![
            Event::AssignAdvice { column: 0, offset: 0, value: known(3) },
            Event::AssignAdvice { column: 1, offset: 0, value: known(4) },
            Event::AssignAdvice { column: 2, offset: 0, value: known(7) },
            Event::AssignFixed { column: 1, offset: 0, value: known(1) },
            Event::AssignFixed { column: 2, offset: 0, value: known(1) },
            Event::AssignFixed { column: 3, offset: 0, value: Value::Known(Fr::minus_one()) },
            Event::AssignFixed { column: 0, offset: 0, value: known(0) },
            Event::AssignFixed { column: 4, offset: 0, value: known(0) },
            Event::AssignAdvice { column: 0, offset: 1, value: known(7) },
            Event::AssignAdvice { column: 1, offset: 1, value: known(3) },
            Event::AssignAdvice { column: 2, offset: 1, value: known(10) },
            Event::AssignFixed { column: 1, offset: 1, value: known(1) },
            Event::AssignFixed { column: 2, offset: 1, value: known(1) },
            Event::AssignFixed { column: 3, offset: 1, value: Value::Known(Fr::minus_one()) },
            Event::AssignFixed { column: 0, offset: 1, value: known(0) },
            Event::AssignFixed { column: 4, offset: 1, value: known(0) },
            Event::Copy { lhs: advice(2, 0), rhs: advice(0, 1) },
            Event::Copy { lhs: advice(0, 0), rhs: advice(1, 1) },
        ]
    );
}

#[test]
fn a_witness_on_two_wires_of_one_row_is_copied_within_the_row() {
    let square = Expression {
        mul_terms: vec![(fe(1), Witness(5), Witness(5))],
        linear_combinations: vec![(minus(1), Witness(6))],
        q_c: FieldElement::zero(),
    };
    let translator = translator(vec![Opcode::Arithmetic(square)], &[(5, 3), (6, 9)]);
    let mut assembly = Assembly::new();
    translator.synthesize(standard_config(), &mut assembly).unwrap();
    let all = events(&assembly);
    assert_eq!(all.len(), 9);
    assert_eq!(all[8], Event::Copy { lhs: advice(0, 0), rhs: advice(1, 0) });
}

#[test]
fn emit_appends_to_what_the_sink_has_seen() {
    let translator = translator(vec![Opcode::Arithmetic(add_expression(1, 2, 3))], &[]);
    let plan = translator.translate().unwrap();
    let mut assembly = Assembly::new();
    emit(&plan, standard_config(), &mut assembly);
    assert_eq!(assembly.len(), 8);
    emit(&plan, standard_config(), &mut assembly);
    assert_eq!(assembly.len(), 16);
    assert_eq!(assembly.event(0), assembly.event(8));
}

#[test]
fn two_passes_over_one_circuit_produce_the_same_events() {
    let opcodes = vec![
        Opcode::Arithmetic(add_expression(1, 2, 3)),
        Opcode::BlackBoxFuncCall(BlackBoxFuncCall::XOR {
            lhs: Witness(1),
            rhs: Witness(2),
            output: Witness(3),
            num_bits: 3,
        }),
        Opcode::Arithmetic(add_expression(3, 2, 1)),
    ];
    let translator = translator(opcodes, &[(1, 3), (2, 4), (3, 7)]);
    let mut first = Assembly::new();
    let mut second = Assembly::new();
    let first_plan = translator.synthesize(standard_config(), &mut first).unwrap();
    let second_plan = translator.synthesize(standard_config(), &mut second).unwrap();
    assert_eq!(first_plan, second_plan);
    assert_eq!(events(&first), events(&second));
    assert_eq!(first.len(), 5 * 8 + 3);
}

#[test]
fn every_named_witness_is_looked_for() {
    let opcodes = vec![
        Opcode::Arithmetic(Expression {
            mul_terms: vec![(fe(1), Witness(1), Witness(2))],
            linear_combinations: vec![(fe(1), Witness(3))],
            q_c: FieldElement::zero(),
        }),
        Opcode::Directive,
        Opcode::Unsupported("sha256".to_string()),
        Opcode::BlackBoxFuncCall(BlackBoxFuncCall::RANGE { input: Witness(4), num_bits: 8 }),
        Opcode::BlackBoxFuncCall(BlackBoxFuncCall::AND {
            lhs: Witness(5),
            rhs: Witness(6),
            output: Witness(7),
            num_bits: 8,
        }),
        Opcode::BlackBoxFuncCall(BlackBoxFuncCall::XOR {
            lhs: Witness(5),
            rhs: Witness(6),
            output: Witness(8),
            num_bits: 8,
        }),
    ];
    let all: Vec<(u32, u128)> = (1..=8).map(|i| (i, i as u128)).collect();
    assert!(translator(opcodes.clone(), &all).witnesses_defined());
    for missing in 1..=8u32 {
        let some: Vec<(u32, u128)> =
            all.iter().copied().filter(|(witness, _)| *witness != missing).collect();
        assert!(!translator(opcodes.clone(), &some).witnesses_defined());
    }
    assert!(translator(vec![], &[]).witnesses_defined());
}

#[test]
fn the_witnesses_of_an_ecdsa_call_are_looked_for() {
    let signature = [1u8; 64];
    let hash = [2u8; 32];
    let opcodes = vec![Opcode::BlackBoxFuncCall(BlackBoxFuncCall::EcdsaSecp256k1 {
        public_key_x: byte_witnesses(97, 32),
        public_key_y: byte_witnesses(129, 32),
        signature: byte_witnesses(33, 64),
        hashed_message: byte_witnesses(1, 32),
    })];
    let values = ecdsa_values(&signature, &hash, &GX_BYTES, &GY_BYTES);
    let complete = NoirHalo2Translator::new(Circuit { opcodes: opcodes.clone() }, values);
    assert!(complete.witnesses_defined());
    let empty = NoirHalo2Translator::new(Circuit { opcodes }, WitnessMap::new());
    assert!(!empty.witnesses_defined());
}

#[test]
fn an_expression_is_evaluated_in_the_field() {
    let gate = Expression {
        mul_terms: vec![(fe(2), Witness(5), Witness(6))],
        linear_combinations: vec![(minus(1), Witness(7)), (fe(3), Witness(5))],
        q_c: fe(4),
    };
    assert_eq!(gate.evaluate(&witnesses(&[(5, 10), (6, 20), (7, 434)])), FieldElement::zero());
    assert_eq!(gate.evaluate(&witnesses(&[(5, 10), (6, 20), (7, 430)])), fe(4));
    assert_eq!(gate.evaluate(&witnesses(&[(5, 10), (6, 20), (7, 435)])), minus(1));
    assert_eq!(gate.evaluate(&witnesses(&[(5, 10), (6, 20)])), fe(434));
    assert_eq!(gate.evaluate(&witnesses(&[])), fe(4));
    let constant = Expression { mul_terms: vec![], linear_combinations: vec![], q_c: minus(3) };
    assert_eq!(constant.evaluate(&witnesses(&[(1, 1)])), minus(3));
}

#[test]
fn products_are_taken_modulo_the_prime() {
    assert_eq!(fe(6).mul(&fe(7)), fe(42));
    assert_eq!(minus(1).mul(&minus(1)), FieldElement::one());
    assert_eq!(minus(2).mul(&fe(3)), minus(6));
    assert_eq!(fe(0).mul(&minus(1)), FieldElement::zero());
    assert_eq!(fe(1 << 100).mul(&fe(1 << 100)).limbs(), (1 << 72, 0));
}

#[test]
fn the_first_opcode_that_the_witnesses_break_is_found() {
    let opcodes = vec![
        Opcode::Arithmetic(add_expression(1, 2, 3)),
        Opcode::Directive,
        Opcode::BlackBoxFuncCall(BlackBoxFuncCall::RANGE { input: Witness(1), num_bits: 1 }),
        Opcode::Arithmetic(add_expression(3, 3, 4)),
        Opcode::Arithmetic(add_expression(1, 1, 2)),
    ];
    let good = translator(opcodes.clone(), &[(1, 1), (2, 2), (3, 3), (4, 6)]);
    assert_eq!(good.first_unsatisfied(), None);
    let flipped = translator(opcodes.clone(), &[(1, 1), (2, 2), (3, 4), (4, 6)]);
    assert_eq!(flipped.first_unsatisfied(), Some(0));
    let later = translator(opcodes.clone(), &[(1, 1), (2, 2), (3, 3), (4, 7)]);
    assert_eq!(later.first_unsatisfied(), Some(3));
    let last = translator(opcodes, &[(1, 2), (2, 1), (3, 3), (4, 6)]);
    assert_eq!(last.first_unsatisfied(), Some(4));
    assert_eq!(translator(vec![], &[]).first_unsatisfied(), None);
}

#[test]
fn satisfied_expressions_give_rows_that_evaluate_to_zero() {
    let gates = vec![
        add_expression(1, 2, 3),
        Expression {
            mul_terms: vec![(fe(3), Witness(1), Witness(2))],
            linear_combinations: vec![(minus(2), Witness(3))],
            q_c: FieldElement::zero(),
        },
        Expression {
            mul_terms: vec![(minus(1), Witness(2), Witness(2))],
            linear_combinations: vec![(fe(1), Witness(1)), (fe(2), Witness(2))],
            q_c: fe(1),
        },
    ];
    let values: [&[(u32, u128)]; 3] =
        [&[(1, 1), (2, 2), (3, 3)], &[(1, 5), (2, 7), (3, 9)], &[(1, 2), (2, 3), (3, 100)]];
    for gate in &gates {
        for each in values {
            let map = witnesses(each);
            let translator = NoirHalo2Translator::new(Circuit { opcodes: vec![] }, map.clone());
            let (_, triple) = translator.add_arithmetic_constrains(gate).unwrap();
            let expected = gate.evaluate(&map);
            assert_eq!(expected.is_zero(), gate_value(&triple) == NativeFr::zero());
            let (hi, lo) = expected.limbs();
            assert_eq!(gate_value(&triple), native(&Fr::from_limbs(hi, lo).unwrap()));
        }
    }
}

#[test]
fn every_later_cell_of_a_witness_is_copied_from_its_first_cell() {
    let opcodes = vec![
        Opcode::Arithmetic(add_expression(1, 2, 3)),
        Opcode::Arithmetic(add_expression(4, 1, 5)),
        Opcode::Arithmetic(add_expression(6, 7, 1)),
        Opcode::Arithmetic(add_expression(1, 3, 5)),
    ];
    let translator = translator(opcodes, &[]);
    let mut assembly = Assembly::new();
    translator.synthesize(standard_config(), &mut assembly).unwrap();
    let copies: Vec<(Cell, Cell)> = events(&assembly)
        .into_iter()
        .filter_map(|event| match event {
            Event::Copy { lhs, rhs } => Some((lhs, rhs)),
            _ => None,
        })
        .collect();
    assert_eq!(
        copies,
        vec![
            (advice(0, 0), advice(1, 1)),
            (advice(0, 0), advice(2, 2)),
            (advice(0, 0), advice(0, 3)),
            (advice(2, 0), advice(1, 3)),
            (advice(2, 1), advice(2, 3)),
        ]
    );
    let mut class: Vec<Cell> = vec![advice(0, 0)];
    for (lhs, rhs) in &copies {
        if class.contains(lhs) {
            class.push(*rhs);
        }
    }
    assert_eq!(class, vec![advice(0, 0), advice(1, 1), advice(2, 2), advice(0, 3)]);
}
