//! The constraint emitter: what each opcode becomes.

use crate::circuit_translator::{
    EcdsaAssignment, Instruction, NoirHalo2Translator, RangeAssignment,
};
use crate::errors::{Error, StructuralError, ValueError};
use crate::field::{
    bytes_as_nats, fr_modulus, le_bytes_value, lemma_bridge_keeps_value, limbs_from_le_bytes,
    limbs_value, noir_field_to_halo2_field, secp256k1_fp_modulus, secp256k1_fq_modulus,
    secp256k1_is_on_curve, secp256k1_on_curve, FieldElement, Fp, Fq, Fr,
};
use crate::halo2_plonk_api::{
    assemble, canonical_expression, fold_linear_terms, lemma_assembled_row_canonical,
    lemma_assembled_row_value, product_names_reserved, start_row, triple_value, NoirConstraint,
    PolyTriple, RowModel,
};
use crate::native_types::{
    canonical_values, lemma_value_of_canonical, value_of, Expression, Witness,
};
use crate::plonk::Value;
use vstd::arithmetic::div_mod::{lemma_mod_bound, lemma_mod_self_0, lemma_small_mod};
use vstd::arithmetic::power2::pow2;
use vstd::prelude::*;

verus! {

/// The native element of an integer of the circuit's field.
pub open spec fn bridged(value: nat) -> Fr {
    Fr::spec_of(value % fr_modulus())
}

/// The row that a staged record is assigned as: each wire takes the value
/// of its witness, zero where the witness has none, and every value and
/// selector crosses the bridge.
pub open spec fn staged_triple(row: RowModel, values: Seq<(Witness, FieldElement)>) -> PolyTriple<
    Fr,
> {
    PolyTriple {
        a: Value::Known(bridged(value_of(values, Witness(row.a)))),
        b: Value::Known(bridged(value_of(values, Witness(row.b)))),
        c: Value::Known(bridged(value_of(values, Witness(row.c)))),
        qm: bridged(row.qm),
        ql: bridged(row.ql),
        qr: bridged(row.qr),
        qo: bridged(row.qo),
        qc: bridged(row.qc),
    }
}

/// What a range opcode asks for: the bridged value of the witness and its
/// width, with limbs of eight bits; an error where the value does not fit.
pub open spec fn range_plan(
    witness: Witness,
    num_bits: u32,
    values: Seq<(Witness, FieldElement)>,
) -> Result<RangeAssignment, Error> {
    let value = value_of(values, witness) % fr_modulus();
    if value < pow2(num_bits as nat) {
        Ok(RangeAssignment { value: Fr::spec_of(value), limb_bit_len: 8, bit_len: num_bits as usize })
    } else {
        Err(Error::Value(ValueError::OutOfRange))
    }
}

/// Bit `i` of an integer, counted from the least significant.
pub open spec fn bit_of(value: nat, i: nat) -> nat {
    (value / pow2(i)) % 2
}

/// The row of one bit of a bitwise opcode: `a * b - c = 0` for an and,
/// `a + b - 2 * a * b - c = 0` for an exclusive or.
pub open spec fn bit_triple(a: nat, b: nat, c: nat, xor: bool) -> PolyTriple<Fr> {
    PolyTriple {
        a: Value::Known(Fr::spec_of(a)),
        b: Value::Known(Fr::spec_of(b)),
        c: Value::Known(Fr::spec_of(c)),
        qm: if xor {
            Fr::spec_of((fr_modulus() - 2) as nat)
        } else {
            Fr::spec_of(1)
        },
        ql: if xor {
            Fr::spec_of(1)
        } else {
            Fr::spec_of(0)
        },
        qr: if xor {
            Fr::spec_of(1)
        } else {
            Fr::spec_of(0)
        },
        qo: Fr::spec_of((fr_modulus() - 1) as nat),
        qc: Fr::spec_of(0),
    }
}

/// The rows of the low `num_bits` bits of three integers, least significant
/// bit first. No wire of them carries a witness.
pub open spec fn bit_rows(a: nat, b: nat, c: nat, num_bits: nat, xor: bool) -> Seq<Instruction> {
    Seq::new(
        num_bits,
        |i: int|
            Instruction::Gate {
                wires: (0u32, 0u32, 0u32),
                triple: bit_triple(
                    bit_of(a, i as nat),
                    bit_of(b, i as nat),
                    bit_of(c, i as nat),
                    xor,
                ),
            },
    )
}

/// What a bitwise opcode asks for: the range check of each operand, then
/// one row for each bit. A width of zero asks for nothing.
pub open spec fn bitwise_plan(
    lhs: Witness,
    rhs: Witness,
    output: Witness,
    num_bits: u32,
    xor: bool,
    values: Seq<(Witness, FieldElement)>,
) -> Result<Seq<Instruction>, Error> {
    if num_bits == 0 {
        Ok(Seq::empty())
    } else {
        match range_plan(lhs, num_bits, values) {
            Err(e) => Err(e),
            Ok(left) => match range_plan(rhs, num_bits, values) {
                Err(e) => Err(e),
                Ok(right) => Ok(
                    seq![Instruction::Range(left), Instruction::Range(right)] + bit_rows(
                        value_of(values, lhs) % fr_modulus(),
                        value_of(values, rhs) % fr_modulus(),
                        value_of(values, output) % fr_modulus(),
                        num_bits as nat,
                        xor,
                    ),
                ),
            },
        }
    }
}

/// Whether every entry is a byte.
pub open spec fn all_bytes(bytes: Seq<nat>) -> bool {
    forall|i: int| 0 <= i < bytes.len() ==> #[trigger] bytes[i] <= 0xFF
}

/// The values of the 32 witnesses from position `start` on.
pub open spec fn chunk_bytes(limbs: Seq<Witness>, start: int, values: Seq<(Witness, FieldElement)>)
    -> Seq<nat> {
    Seq::new(32, |i: int| value_of(values, limbs[start + i]))
}

/// What an ECDSA opcode asks for. The message hash and each coordinate of
/// the public key are 32 witnesses, the signature 64: `r`, then `s`. Every
/// witness carries one byte; 32 bytes are read least significant first and
/// reduced into their field.
pub open spec fn ecdsa_plan(
    hashed_message: Seq<Witness>,
    signature: Seq<Witness>,
    public_key_x: Seq<Witness>,
    public_key_y: Seq<Witness>,
    values: Seq<(Witness, FieldElement)>,
) -> Result<EcdsaAssignment, Error> {
    let r = chunk_bytes(signature, 0, values);
    let s = chunk_bytes(signature, 32, values);
    let m = chunk_bytes(hashed_message, 0, values);
    let x = chunk_bytes(public_key_x, 0, values);
    let y = chunk_bytes(public_key_y, 0, values);
    if hashed_message.len() != 32 || signature.len() != 64 || public_key_x.len() != 32
        || public_key_y.len() != 32 {
        Err(Error::Structure(StructuralError::Malformed))
    } else if !(all_bytes(r) && all_bytes(s) && all_bytes(m) && all_bytes(x) && all_bytes(y)) {
        Err(Error::Value(ValueError::OutOfRange))
    } else if !secp256k1_on_curve(
        le_bytes_value(x) % secp256k1_fp_modulus(),
        le_bytes_value(y) % secp256k1_fp_modulus(),
    ) {
        Err(Error::Value(ValueError::PublicKeyNotOnCurve))
    } else {
        Ok(
            EcdsaAssignment {
                r: Fq::spec_of(le_bytes_value(r) % secp256k1_fq_modulus()),
                s: Fq::spec_of(le_bytes_value(s) % secp256k1_fq_modulus()),
                msg_hash: Fq::spec_of(le_bytes_value(m) % secp256k1_fq_modulus()),
                public_key_x: Fp::spec_of(le_bytes_value(x) % secp256k1_fp_modulus()),
                public_key_y: Fp::spec_of(le_bytes_value(y) % secp256k1_fp_modulus()),
            },
        )
    }
}

/// The row that an arithmetic opcode is assigned as evaluates, under the
/// custom gate over the native field, to what its expression evaluates to
/// under the witness values. So whenever the values satisfy the expression,
/// `qm*w[a]*w[b] + ql*w[a] + qr*w[b] + qo*w[c] + qc` is zero modulo the
/// native prime.
pub proof fn lemma_emitted_row_evaluates_expression(
    gate: Expression,
    values: Seq<(Witness, FieldElement)>,
)
    requires
        canonical_expression(gate),
        canonical_values(values),
        assemble(gate) is Ok,
    ensures
        triple_value(staged_triple(assemble(gate)->Ok_0, values)) == gate.value(values),
        gate.value(values) == 0 ==> triple_value(staged_triple(assemble(gate)->Ok_0, values)) == 0,
{
    let row = assemble(gate)->Ok_0;
    lemma_assembled_row_value(gate, values);
    lemma_assembled_row_canonical(gate);
    let va = value_of(values, Witness(row.a));
    let vb = value_of(values, Witness(row.b));
    let vc = value_of(values, Witness(row.c));
    lemma_value_of_canonical(values, Witness(row.a));
    lemma_value_of_canonical(values, Witness(row.b));
    lemma_value_of_canonical(values, Witness(row.c));
    lemma_bridge_keeps_value(va);
    lemma_bridge_keeps_value(vb);
    lemma_bridge_keeps_value(vc);
    lemma_bridge_keeps_value(row.qm);
    lemma_bridge_keeps_value(row.ql);
    lemma_bridge_keeps_value(row.qr);
    lemma_bridge_keeps_value(row.qo);
    lemma_bridge_keeps_value(row.qc);
    Fr::lemma_spec_of(va);
    Fr::lemma_spec_of(vb);
    Fr::lemma_spec_of(vc);
    Fr::lemma_spec_of(row.qm);
    Fr::lemma_spec_of(row.ql);
    Fr::lemma_spec_of(row.qr);
    Fr::lemma_spec_of(row.qo);
    Fr::lemma_spec_of(row.qc);
    assert(va * row.ql + vb * row.qr + va * vb * row.qm + vc * row.qo + row.qc == row.qm * va * vb
        + (row.ql * va + row.qr * vb + row.qo * vc) + row.qc) by (nonlinear_arith);
}

/// The row of one bit holds exactly where the output bit is the and, or
/// the exclusive or, of the two operand bits.
pub proof fn lemma_bit_gate(a: nat, b: nat, c: nat, xor: bool)
    requires
        a <= 1,
        b <= 1,
        c <= 1,
    ensures
        triple_value(bit_triple(a, b, c, xor)) == 0 <==> c == if xor {
            (a + b) % 2
        } else {
            a * b
        },
{
    let r = fr_modulus();
    Fr::lemma_spec_of(0);
    Fr::lemma_spec_of(1);
    Fr::lemma_spec_of((r - 1) as nat);
    Fr::lemma_spec_of((r - 2) as nat);
    lemma_small_mod(0, r);
    lemma_small_mod(1, r);
    lemma_small_mod((r - 1) as nat, r);
    lemma_mod_self_0(r as int);
    assert((2 * r - 1) % (r as int) == r - 1) by {
        vstd::arithmetic::div_mod::lemma_mod_multiples_vanish(1, r - 1, r as int);
    }
    if a == 1 && b == 1 {
        assert(a * b == 1) by (nonlinear_arith)
            requires
                a == 1,
                b == 1,
        ;
    } else {
        assert(a * b == 0) by (nonlinear_arith)
            requires
                a == 0 || b == 0,
        ;
    }
    let ab = a * b;
    if xor {
        assert(a * 1 + b * 1 + a * b * ((r - 2) as nat) + c * ((r - 1) as nat) + 0 == a + b + ab
            * (r - 2) + c * (r - 1)) by (nonlinear_arith)
            requires
                ab == a * b,
                r >= 2,
        ;
        assert(ab * (r - 2) == if ab == 1 {
            r - 2
        } else {
            0
        }) by (nonlinear_arith)
            requires
                ab <= 1,
        ;
    } else {
        assert(a * 0 + b * 0 + a * b * 1 + c * ((r - 1) as nat) + 0 == ab + c * (r - 1))
            by (nonlinear_arith)
            requires
                ab == a * b,
                r >= 1,
        ;
    }
    assert(c * (r - 1) == if c == 1 {
        r - 1
    } else {
        0
    }) by (nonlinear_arith)
        requires
            c <= 1,
    ;
}

/// Whether the custom gate holds on every row of a sequence of
/// instructions.
pub open spec fn rows_hold(rows: Seq<Instruction>) -> bool {
    forall|i: int|
        0 <= i < rows.len() ==> match #[trigger] rows[i] {
            Instruction::Gate { wires, triple } => triple_value(triple) == 0,
            _ => true,
        }
}

/// Whether each of the low `num_bits` bits of `c` is the and, or the
/// exclusive or, of that bit of `a` and of `b`.
pub open spec fn bits_agree(a: nat, b: nat, c: nat, num_bits: nat, xor: bool) -> bool {
    forall|i: nat|
        i < num_bits ==> #[trigger] bit_of(c, i) == if xor {
            (bit_of(a, i) + bit_of(b, i)) % 2
        } else {
            bit_of(a, i) * bit_of(b, i)
        }
}

/// The rows of a bitwise opcode hold exactly where the low bits of the
/// output are the bitwise and, or exclusive or, of the low bits of the two
/// operands.
pub proof fn lemma_bit_rows_hold(a: nat, b: nat, c: nat, num_bits: nat, xor: bool)
    ensures
        rows_hold(bit_rows(a, b, c, num_bits, xor)) <==> bits_agree(a, b, c, num_bits, xor),
{
    let rows = bit_rows(a, b, c, num_bits, xor);
    if rows_hold(rows) {
        assert forall|i: nat| i < num_bits implies #[trigger] bit_of(c, i) == if xor {
            (bit_of(a, i) + bit_of(b, i)) % 2
        } else {
            bit_of(a, i) * bit_of(b, i)
        } by {
            lemma_bit_gate(bit_of(a, i), bit_of(b, i), bit_of(c, i), xor);
            assert(rows[i as int] == Instruction::Gate {
                wires: (0u32, 0u32, 0u32),
                triple: bit_triple(bit_of(a, i), bit_of(b, i), bit_of(c, i), xor),
            });
        }
    }
    if bits_agree(a, b, c, num_bits, xor) {
        assert forall|i: int| 0 <= i < rows.len() implies match #[trigger] rows[i] {
            Instruction::Gate { wires, triple } => triple_value(triple) == 0,
            _ => true,
        } by {
            let n = i as nat;
            lemma_bit_gate(bit_of(a, n), bit_of(b, n), bit_of(c, n), xor);
            assert(bit_of(c, n) == if xor {
                (bit_of(a, n) + bit_of(b, n)) % 2
            } else {
                bit_of(a, n) * bit_of(b, n)
            });
        }
    }
}

impl NoirHalo2Translator {
    /// Stages the row of an arithmetic opcode and gives it its values.
    ///
    /// The polynomial of the row's gate is, under the translator's witness
    /// values, what the expression evaluates to; so values that satisfy the
    /// expression satisfy the row.
    pub fn add_arithmetic_constrains(&self, gate: &Expression) -> (res: Result<
        (NoirConstraint, PolyTriple<Fr>),
        Error,
    >)
        ensures
            match res {
                Ok((constraint, triple)) => {
                    &&& assemble(*gate) == Ok::<RowModel, StructuralError>(constraint@)
                    &&& triple == staged_triple(constraint@, self.witness_values@)
                    &&& triple_value(triple) == gate.value(self.witness_values@)
                    &&& gate.value(self.witness_values@) == 0 ==> triple_value(triple) == 0
                },
                Err(e) => assemble(*gate) is Err && e == Error::Structure(assemble(*gate)->Err_0),
            },
    {
        let mut noir_cs = NoirConstraint::default();
        if gate.mul_terms.len() > 1 {
            return Err(Error::Structure(StructuralError::MultiMul));
        }
        if gate.mul_terms.len() == 1 {
            let mul_term = gate.mul_terms[0];
            let wl = mul_term.1.witness_index();
            let wr = mul_term.2.witness_index();
            if wl == 0 || wr == 0 {
                return Err(Error::Structure(StructuralError::Malformed));
            }
            noir_cs.qm = mul_term.0;
            noir_cs.a = wl;
            noir_cs.b = wr;
        }
        let ghost start = noir_cs@;
        let mut i: usize = 0;
        while i < gate.linear_combinations.len()
            invariant
                i <= gate.linear_combinations.len(),
                gate.mul_terms@.len() <= 1,
                !product_names_reserved(*gate),
                start == start_row(*gate),
                fold_linear_terms(start, gate.linear_combinations@.take(i as int)) == Ok::<
                    RowModel,
                    StructuralError,
                >(noir_cs@),
            decreases gate.linear_combinations.len() - i,
        {
            let term = gate.linear_combinations[i];
            let ghost before = gate.linear_combinations@.take(i as int);
            let ghost after = gate.linear_combinations@.take(i + 1);
            proof {
                assert(after.drop_last() =~= before);
                assert(after.last() == term);
            }
            match noir_cs.set_linear_term(term.0, term.1.witness_index()) {
                Ok(()) => {},
                Err(e) => {
                    proof {
                        lemma_fold_error_extends(
                            start,
                            gate.linear_combinations@,
                            i + 1,
                        );
                    }
                    return Err(Error::Structure(e));
                },
            }
            i = i + 1;
        }
        proof {
            assert(gate.linear_combinations@.take(i as int) =~= gate.linear_combinations@);
        }
        noir_cs.qc = gate.q_c;

        let a = noir_field_to_halo2_field(self.witness_values.get_or_zero(Witness(noir_cs.a)));
        let b = noir_field_to_halo2_field(self.witness_values.get_or_zero(Witness(noir_cs.b)));
        let c = noir_field_to_halo2_field(self.witness_values.get_or_zero(Witness(noir_cs.c)));
        let qm = noir_field_to_halo2_field(noir_cs.qm);
        let ql = noir_field_to_halo2_field(noir_cs.ql);
        let qr = noir_field_to_halo2_field(noir_cs.qr);
        let qo = noir_field_to_halo2_field(noir_cs.qo);
        let qc = noir_field_to_halo2_field(noir_cs.qc);
        let triple = PolyTriple::new(Value::Known(a), Value::Known(b), Value::Known(c), qm, ql, qr, qo, qc);
        proof {
            let values = self.witness_values@;
            let row = noir_cs@;
            lemma_assembled_row_value(*gate, values);
            let va = value_of(values, Witness(row.a));
            let vb = value_of(values, Witness(row.b));
            let vc = value_of(values, Witness(row.c));
            lemma_bridge_keeps_value(va);
            lemma_bridge_keeps_value(vb);
            lemma_bridge_keeps_value(vc);
            lemma_bridge_keeps_value(row.qm);
            lemma_bridge_keeps_value(row.ql);
            lemma_bridge_keeps_value(row.qr);
            lemma_bridge_keeps_value(row.qo);
            lemma_bridge_keeps_value(row.qc);
            assert(va * row.ql + vb * row.qr + va * vb * row.qm + vc * row.qo + row.qc == row.qm
                * va * vb + (row.ql * va + row.qr * vb + row.qo * vc) + row.qc)
                by (nonlinear_arith);
        }
        Ok((noir_cs, triple))
    }

    /// Prepares the range check of `witness` at `num_bits` bits, with limbs
    /// of eight bits.
    pub fn add_range_constrain(&self, witness: Witness, num_bits: u32) -> (res: Result<
        RangeAssignment,
        Error,
    >)
        requires
            num_bits > 0,
        ensures
            res == range_plan(witness, num_bits, self.witness_values@),
    {
        let input = noir_field_to_halo2_field(self.witness_values.get_or_zero(witness));
        if input.fits_in_bits(num_bits) {
            let limb_bit_len: usize = 8;
            let bit_len = num_bits as usize;
            Ok(RangeAssignment { value: input, limb_bit_len, bit_len })
        } else {
            Err(Error::Value(ValueError::OutOfRange))
        }
    }
}

impl NoirHalo2Translator {
    /// Prepares a bitwise opcode: the range checks of the two operands at
    /// `num_bits` bits, then one row for each bit, whose three wires hold
    /// that bit of the two operands and of the output.
    pub fn add_bitwise_constrain(
        &self,
        lhs: Witness,
        rhs: Witness,
        output: Witness,
        num_bits: u32,
        xor: bool,
    ) -> (res: Result<Vec<Instruction>, Error>)
        ensures
            match res {
                Ok(rows) => bitwise_plan(lhs, rhs, output, num_bits, xor, self.witness_values@)
                    == Ok::<Seq<Instruction>, Error>(rows@),
                Err(e) => bitwise_plan(lhs, rhs, output, num_bits, xor, self.witness_values@)
                    == Err::<Seq<Instruction>, Error>(e),
            },
    {
        let mut rows: Vec<Instruction> = Vec::new();
        if num_bits == 0 {
            assert(rows@ =~= Seq::<Instruction>::empty());
            return Ok(rows);
        }
        let left = match self.add_range_constrain(lhs, num_bits) {
            Ok(left) => left,
            Err(e) => {
                return Err(e);
            },
        };
        let right = match self.add_range_constrain(rhs, num_bits) {
            Ok(right) => right,
            Err(e) => {
                return Err(e);
            },
        };
        rows.push(Instruction::Range(left));
        rows.push(Instruction::Range(right));
        let a = left.value;
        let b = right.value;
        let c = noir_field_to_halo2_field(self.witness_values.get_or_zero(output));
        let qm = if xor {
            Fr::minus_two()
        } else {
            Fr::one()
        };
        let ql = if xor {
            Fr::one()
        } else {
            Fr::zero()
        };
        let qo = Fr::minus_one();
        let ghost values = self.witness_values@;
        let ghost va = value_of(values, lhs) % fr_modulus();
        let ghost vb = value_of(values, rhs) % fr_modulus();
        let ghost vc = value_of(values, output) % fr_modulus();
        proof {
            lemma_mod_bound(value_of(values, lhs) as int, fr_modulus() as int);
            lemma_mod_bound(value_of(values, rhs) as int, fr_modulus() as int);
            lemma_mod_bound(value_of(values, output) as int, fr_modulus() as int);
            Fr::lemma_spec_of(va);
            Fr::lemma_spec_of(vb);
            Fr::lemma_spec_of(vc);
        }
        let ghost head = seq![Instruction::Range(left), Instruction::Range(right)];
        let mut i: u32 = 0;
        assert(rows@ =~= head + bit_rows(va, vb, vc, 0, xor));
        while i < num_bits
            invariant
                i <= num_bits,
                a@ == va,
                b@ == vb,
                c@ == vc,
                qm == bit_triple(0, 0, 0, xor).qm,
                ql == bit_triple(0, 0, 0, xor).ql,
                qo == bit_triple(0, 0, 0, xor).qo,
                rows@ == head + bit_rows(va, vb, vc, i as nat, xor),
            decreases num_bits - i,
        {
            let bit_a = bit_element(a.bit(i));
            let bit_b = bit_element(b.bit(i));
            let bit_c = bit_element(c.bit(i));
            let triple = PolyTriple::new(
                Value::Known(bit_a),
                Value::Known(bit_b),
                Value::Known(bit_c),
                qm,
                ql,
                ql,
                qo,
                Fr::zero(),
            );
            rows.push(Instruction::Gate { wires: (0, 0, 0), triple });
            proof {
                assert(triple == bit_triple(
                    bit_of(va, i as nat),
                    bit_of(vb, i as nat),
                    bit_of(vc, i as nat),
                    xor,
                ));
                assert(rows@ =~= head + bit_rows(va, vb, vc, (i + 1) as nat, xor));
            }
            i = i + 1;
        }
        Ok(rows)
    }

    /// Reads the 32 witnesses of `limbs` from position `start` on as bytes,
    /// least significant first. `None` where one of them is no byte.
    fn bytes_to_limbs(&self, limbs: &Vec<Witness>, start: usize) -> (res: Option<(u128, u128)>)
        requires
            start + 32 <= limbs.len(),
        ensures
            match res {
                Some((hi, lo)) => all_bytes(chunk_bytes(limbs@, start as int, self.witness_values@))
                    && limbs_value(hi, lo) == le_bytes_value(
                    chunk_bytes(limbs@, start as int, self.witness_values@),
                ),
                None => !all_bytes(chunk_bytes(limbs@, start as int, self.witness_values@)),
            },
    {
        let ghost bytes = chunk_bytes(limbs@, start as int, self.witness_values@);
        let mut packed = [0u8; 32];
        let mut i: usize = 0;
        while i < 32
            invariant
                i <= 32,
                start + 32 <= limbs.len(),
                bytes == chunk_bytes(limbs@, start as int, self.witness_values@),
                forall|j: int|
                    0 <= j < i ==> #[trigger] bytes[j] <= 0xFF && packed@[j] as nat == bytes[j],
            decreases 32 - i,
        {
            let value = self.witness_values.get_or_zero(limbs[start + i]);
            let (value_hi, value_lo) = value.limbs();
            assert(bytes[i as int] == limbs_value(value_hi, value_lo));
            if value_hi != 0 || value_lo > 0xFF {
                assert(bytes[i as int] > 0xFF);
                return None;
            }
            packed[i] = value_lo as u8;
            i = i + 1;
        }
        proof {
            assert(bytes_as_nats(packed@) =~= bytes);
        }
        Some(limbs_from_le_bytes(&packed))
    }

    /// Packs 32 byte witnesses, least significant first, into an element of
    /// the secp256k1 base field.
    pub fn noir_field_to_secp255k1_fp_field(&self, limbs: &Vec<Witness>) -> (res: Result<Fp, Error>)
        ensures
            res == if limbs@.len() != 32 {
                Err::<Fp, Error>(Error::Structure(StructuralError::Malformed))
            } else if !all_bytes(chunk_bytes(limbs@, 0, self.witness_values@)) {
                Err(Error::Value(ValueError::OutOfRange))
            } else {
                Ok(
                    Fp::spec_of(
                        le_bytes_value(chunk_bytes(limbs@, 0, self.witness_values@))
                            % secp256k1_fp_modulus(),
                    ),
                )
            },
    {
        if limbs.len() != 32 {
            return Err(Error::Structure(StructuralError::Malformed));
        }
        match self.bytes_to_limbs(limbs, 0) {
            Some((hi, lo)) => Ok(Fp::from_limbs_reduce(hi, lo)),
            None => Err(Error::Value(ValueError::OutOfRange)),
        }
    }

    /// Packs 32 byte witnesses, least significant first, into an element of
    /// the secp256k1 scalar field.
    pub fn noir_field_to_secp255k1_fq_field(&self, limbs: &Vec<Witness>) -> (res: Result<Fq, Error>)
        ensures
            res == if limbs@.len() != 32 {
                Err::<Fq, Error>(Error::Structure(StructuralError::Malformed))
            } else if !all_bytes(chunk_bytes(limbs@, 0, self.witness_values@)) {
                Err(Error::Value(ValueError::OutOfRange))
            } else {
                Ok(
                    Fq::spec_of(
                        le_bytes_value(chunk_bytes(limbs@, 0, self.witness_values@))
                            % secp256k1_fq_modulus(),
                    ),
                )
            },
    {
        if limbs.len() != 32 {
            return Err(Error::Structure(StructuralError::Malformed));
        }
        match self.bytes_to_limbs(limbs, 0) {
            Some((hi, lo)) => Ok(Fq::from_limbs_reduce(hi, lo)),
            None => Err(Error::Value(ValueError::OutOfRange)),
        }
    }

    /// Prepares an ECDSA opcode: rebuilds `r`, `s` and the message hash in
    /// the scalar field and the public key in the base field, and checks
    /// that the key is a point of the curve.
    pub fn _add_ecdsa_secp256k1_constrain(
        &self,
        hashed_message: &Vec<Witness>,
        signature: &Vec<Witness>,
        public_key_x: &Vec<Witness>,
        public_key_y: &Vec<Witness>,
    ) -> (res: Result<EcdsaAssignment, Error>)
        ensures
            res == ecdsa_plan(
                hashed_message@,
                signature@,
                public_key_x@,
                public_key_y@,
                self.witness_values@,
            ),
    {
        if hashed_message.len() != 32 || signature.len() != 64 || public_key_x.len() != 32
            || public_key_y.len() != 32 {
            return Err(Error::Structure(StructuralError::Malformed));
        }
        let r = self.bytes_to_limbs(signature, 0);
        let s = self.bytes_to_limbs(signature, 32);
        let m = self.bytes_to_limbs(hashed_message, 0);
        let x = self.bytes_to_limbs(public_key_x, 0);
        let y = self.bytes_to_limbs(public_key_y, 0);
        match (r, s, m, x, y) {
            (Some(r), Some(s), Some(m), Some(x), Some(y)) => {
                let public_key_x = Fp::from_limbs_reduce(x.0, x.1);
                let public_key_y = Fp::from_limbs_reduce(y.0, y.1);
                if !secp256k1_is_on_curve(&public_key_x, &public_key_y) {
                    return Err(Error::Value(ValueError::PublicKeyNotOnCurve));
                }
                Ok(
                    EcdsaAssignment {
                        r: Fq::from_limbs_reduce(r.0, r.1),
                        s: Fq::from_limbs_reduce(s.0, s.1),
                        msg_hash: Fq::from_limbs_reduce(m.0, m.1),
                        public_key_x,
                        public_key_y,
                    },
                )
            },
            _ => Err(Error::Value(ValueError::OutOfRange)),
        }
    }
}

/// The native element of one bit.
fn bit_element(bit: bool) -> (element: Fr)
    ensures
        element == Fr::spec_of(
            if bit {
                1
            } else {
                0
            },
        ),
{
    if bit {
        Fr::one()
    } else {
        Fr::zero()
    }
}

/// Once a term has no place in the row, no later term mends it.
pub proof fn lemma_fold_error_extends(
    start: RowModel,
    terms: Seq<(FieldElement, Witness)>,
    upto: int,
)
    requires
        0 <= upto <= terms.len(),
        fold_linear_terms(start, terms.take(upto)) is Err,
    ensures
        fold_linear_terms(start, terms) == fold_linear_terms(start, terms.take(upto)),
    decreases terms.len() - upto,
{
    if upto == terms.len() {
        assert(terms.take(upto) =~= terms);
    } else {
        assert(terms.take(upto + 1).drop_last() =~= terms.take(upto));
        lemma_fold_error_extends(start, terms, upto + 1);
    }
}

} // verus!
