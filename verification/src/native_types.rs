//! The circuit as the translator reads it: witnesses, their values,
//! expressions and opcodes.

use crate::field::{acir_modulus, FieldElement};
use vstd::arithmetic::div_mod::{lemma_add_mod_noop, lemma_mul_mod_noop_left, lemma_small_mod};
use vstd::prelude::*;

verus! {

/// The index of a witness. Index zero is reserved and names no witness.
#[derive(Clone, Copy, Debug, PartialEq, Eq, Structural)]
pub struct Witness(pub u32);

impl Witness {
    pub fn witness_index(&self) -> (index: u32)
        ensures
            index == self.0,
    {
        self.0
    }
}

/// The value stored for `witness` in `entries`, where there is one.
pub open spec fn lookup(entries: Seq<(Witness, FieldElement)>, witness: Witness) -> Option<
    FieldElement,
>
    decreases entries.len(),
{
    if entries.len() == 0 {
        None
    } else {
        match lookup(entries.drop_last(), witness) {
            Some(value) => Some(value),
            None => if entries.last().0 == witness {
                Some(entries.last().1)
            } else {
                None
            },
        }
    }
}

/// The position of the entry of `witness` in `entries`, where there is one.
pub open spec fn position_of(entries: Seq<(Witness, FieldElement)>, witness: Witness) -> Option<
    int,
>
    decreases entries.len(),
{
    if entries.len() == 0 {
        None
    } else {
        match position_of(entries.drop_last(), witness) {
            Some(i) => Some(i),
            None => if entries.last().0 == witness {
                Some(entries.len() - 1)
            } else {
                None
            },
        }
    }
}

/// The integer of the value stored for `witness`, zero where none is.
pub open spec fn value_of(entries: Seq<(Witness, FieldElement)>, witness: Witness) -> nat {
    match lookup(entries, witness) {
        Some(value) => value@,
        None => 0,
    }
}

/// Whether every value is below the prime of the circuit's field, as the
/// values of every map built from field elements are.
pub open spec fn canonical_values(entries: Seq<(Witness, FieldElement)>) -> bool {
    forall|i: int| 0 <= i < entries.len() ==> (#[trigger] entries[i]).1@ < acir_modulus()
}

/// A witness of canonical values reads as an integer below the prime.
pub proof fn lemma_value_of_canonical(entries: Seq<(Witness, FieldElement)>, witness: Witness)
    requires
        canonical_values(entries),
    ensures
        value_of(entries, witness) < acir_modulus(),
    decreases entries.len(),
{
    if entries.len() > 0 {
        assert forall|i: int| 0 <= i < entries.drop_last().len() implies (
        #[trigger] entries.drop_last()[i]).1@ < acir_modulus() by {
            assert(entries.drop_last()[i] == entries[i]);
        }
        lemma_value_of_canonical(entries.drop_last(), witness);
        assert(entries[entries.len() - 1] == entries.last());
    }
}

/// No witness has two entries.
pub open spec fn keys_unique(entries: Seq<(Witness, FieldElement)>) -> bool {
    forall|i: int, j: int|
        0 <= i < j < entries.len() ==> (#[trigger] entries[i]).0 != (#[trigger] entries[j]).0
}

/// A lookup that finds nothing has passed over every entry.
pub proof fn lemma_lookup_none(entries: Seq<(Witness, FieldElement)>, witness: Witness)
    ensures
        lookup(entries, witness) is None <==> forall|i: int|
            0 <= i < entries.len() ==> (#[trigger] entries[i]).0 != witness,
    decreases entries.len(),
{
    if entries.len() > 0 {
        lemma_lookup_none(entries.drop_last(), witness);
        if lookup(entries, witness) is None {
            assert forall|i: int| 0 <= i < entries.len() implies (#[trigger] entries[i]).0
                != witness by {
                if i < entries.len() - 1 {
                    assert(entries.drop_last()[i] == entries[i]);
                }
            }
        } else {
            if lookup(entries.drop_last(), witness) is Some {
                let i = choose|i: int|
                    0 <= i < entries.drop_last().len() && (#[trigger] entries.drop_last()[i]).0
                        == witness;
                assert(entries[i] == entries.drop_last()[i]);
            }
        }
    }
}

/// A witness has a position exactly where it has a value.
pub proof fn lemma_position_none(entries: Seq<(Witness, FieldElement)>, witness: Witness)
    ensures
        position_of(entries, witness) is None <==> lookup(entries, witness) is None,
    decreases entries.len(),
{
    if entries.len() > 0 {
        lemma_position_none(entries.drop_last(), witness);
    }
}

/// A lookup finds the entry of its witness, wherever no earlier entry has
/// the same witness.
pub proof fn lemma_lookup_at(entries: Seq<(Witness, FieldElement)>, i: int)
    requires
        0 <= i < entries.len(),
        forall|j: int| 0 <= j < i ==> (#[trigger] entries[j]).0 != entries[i].0,
    ensures
        lookup(entries, entries[i].0) == Some(entries[i].1),
        position_of(entries, entries[i].0) == Some(i),
    decreases entries.len(),
{
    lemma_position_none(entries.drop_last(), entries[i].0);
    let witness = entries[i].0;
    if i == entries.len() - 1 {
        lemma_lookup_none(entries.drop_last(), witness);
        assert forall|j: int| 0 <= j < entries.drop_last().len() implies (
        #[trigger] entries.drop_last()[j]).0 != witness by {
            assert(entries.drop_last()[j] == entries[j]);
        }
    } else {
        assert(entries.drop_last()[i] == entries[i]);
        assert forall|j: int| 0 <= j < i implies (#[trigger] entries.drop_last()[j]).0
            != entries.drop_last()[i].0 by {
            assert(entries.drop_last()[j] == entries[j]);
        }
        lemma_lookup_at(entries.drop_last(), i);
    }
}

/// The values of the witnesses, in the order in which they were declared.
#[derive(Clone, Debug, PartialEq, Eq)]
pub struct WitnessMap {
    entries: Vec<(Witness, FieldElement)>,
}

impl WitnessMap {
    /// No witness has two entries. Every map built by `new` and `insert`
    /// is well formed.
    pub open spec fn well_formed(&self) -> bool {
        keys_unique(self@)
    }

    /// The entries in insertion order.
    pub closed spec fn view(&self) -> Seq<(Witness, FieldElement)> {
        self.entries@
    }

    pub fn new() -> (map: WitnessMap)
        ensures
            map@ == Seq::<(Witness, FieldElement)>::empty(),
            map.well_formed(),
    {
        WitnessMap { entries: Vec::new() }
    }

    pub fn len(&self) -> (n: usize)
        ensures
            n == self@.len(),
    {
        self.entries.len()
    }

    /// The position of `witness` among the entries.
    fn position(&self, witness: Witness) -> (found: Option<usize>)
        ensures
            match found {
                Some(i) => i < self@.len() && self@[i as int].0 == witness && lookup(
                    self@,
                    witness,
                ) == Some(self@[i as int].1) && position_of(self@, witness) == Some(i as int)
                    && forall|j: int| 0 <= j < i ==> (#[trigger] self@[j]).0 != witness,
                None => lookup(self@, witness) is None && forall|j: int|
                    0 <= j < self@.len() ==> (#[trigger] self@[j]).0 != witness,
            },
    {
        let mut i: usize = 0;
        while i < self.entries.len()
            invariant
                i <= self.entries.len(),
                forall|j: int| 0 <= j < i ==> (#[trigger] self.entries@[j]).0 != witness,
            decreases self.entries.len() - i,
        {
            if self.entries[i].0 == witness {
                proof {
                    lemma_lookup_at(self.entries@, i as int);
                }
                return Some(i);
            }
            i = i + 1;
        }
        proof {
            lemma_lookup_none(self.entries@, witness);
        }
        None
    }

    /// The value stored for `witness`.
    pub fn get(&self, witness: &Witness) -> (value: Option<FieldElement>)
        ensures
            value == lookup(self@, *witness),
    {
        match self.position(*witness) {
            Some(i) => Some(self.entries[i].1),
            None => None,
        }
    }

    /// The value at ordinal position `index`, counted from zero in
    /// insertion order.
    pub fn get_index(&self, index: u32) -> (value: Option<FieldElement>)
        ensures
            value == if index < self@.len() {
                Some(self@[index as int].1)
            } else {
                None
            },
    {
        if (index as usize) < self.entries.len() {
            Some(self.entries[index as usize].1)
        } else {
            None
        }
    }

    /// The value stored for `witness`, or zero where none is.
    pub fn get_or_zero(&self, witness: Witness) -> (value: FieldElement)
        ensures
            value@ == value_of(self@, witness),
    {
        match self.get(&witness) {
            Some(value) => value,
            None => FieldElement::zero(),
        }
    }

    /// Stores `value` for `witness`. A witness that has an entry keeps its
    /// place and hands its earlier value back; a new witness goes last.
    pub fn insert(&mut self, witness: Witness, value: FieldElement) -> (earlier: Option<
        FieldElement,
    >)
        ensures
            earlier == lookup(old(self)@, witness),
            lookup(final(self)@, witness) == Some(value),
            forall|other: Witness|
                other != witness ==> lookup(final(self)@, other) == lookup(old(self)@, other),
            earlier is None ==> final(self)@ == old(self)@.push((witness, value)),
            earlier is Some ==> position_of(old(self)@, witness) is Some && final(self)@ == old(
                self,
            )@.update(position_of(old(self)@, witness)->0, (witness, value)),
            old(self).well_formed() ==> final(self).well_formed(),
    {
        match self.position(witness) {
            Some(i) => {
                let earlier = self.entries[i].1;
                let ghost before = self.entries@;
                self.entries[i] = (witness, value);
                proof {
                    let after = self.entries@;
                    assert(after == before.update(i as int, (witness, value)));
                    assert forall|j: int| 0 <= j < i implies (#[trigger] after[j]).0
                        != after[i as int].0 by {
                        assert(after[j] == before[j]);
                    }
                    lemma_lookup_at(after, i as int);
                    assert forall|other: Witness| other != witness implies lookup(after, other)
                        == lookup(before, other) by {
                        lemma_lookup_update(before, i as int, value, other);
                    }
                }
                Some(earlier)
            },
            None => {
                let ghost before = self.entries@;
                self.entries.push((witness, value));
                proof {
                    assert(self.entries@.drop_last() =~= before);
                    assert forall|other: Witness| other != witness implies lookup(
                        self.entries@,
                        other,
                    ) == lookup(before, other) by {}
                }
                None
            },
        }
    }
}

/// Replacing the value of one entry leaves the lookups of other witnesses.
pub proof fn lemma_lookup_update(
    entries: Seq<(Witness, FieldElement)>,
    i: int,
    value: FieldElement,
    other: Witness,
)
    requires
        0 <= i < entries.len(),
        other != entries[i].0,
    ensures
        lookup(entries.update(i, (entries[i].0, value)), other) == lookup(entries, other),
    decreases entries.len(),
{
    let updated = entries.update(i, (entries[i].0, value));
    if i == entries.len() - 1 {
        assert(updated.drop_last() =~= entries.drop_last());
    } else {
        assert(updated.drop_last() =~= entries.drop_last().update(
            i,
            (entries.drop_last()[i].0, value),
        ));
        lemma_lookup_update(entries.drop_last(), i, value, other);
    }
}

/// A polynomial of degree two over witnesses:
/// the sum of `coeff * w_a * w_b` over `mul_terms`, of `coeff * w` over
/// `linear_combinations`, and of `q_c`.
#[derive(Clone, Debug, PartialEq, Eq)]
pub struct Expression {
    pub mul_terms: Vec<(FieldElement, Witness, Witness)>,
    pub linear_combinations: Vec<(FieldElement, Witness)>,
    pub q_c: FieldElement,
}

/// The sum of the multiplication terms under an assignment, as an integer.
pub open spec fn mul_terms_value(
    terms: Seq<(FieldElement, Witness, Witness)>,
    values: Seq<(Witness, FieldElement)>,
) -> nat
    decreases terms.len(),
{
    if terms.len() == 0 {
        0
    } else {
        let (coeff, lhs, rhs) = terms.last();
        mul_terms_value(terms.drop_last(), values) + coeff@ * value_of(values, lhs) * value_of(
            values,
            rhs,
        )
    }
}

/// The sum of the linear terms under an assignment, as an integer.
pub open spec fn linear_terms_value(
    terms: Seq<(FieldElement, Witness)>,
    values: Seq<(Witness, FieldElement)>,
) -> nat
    decreases terms.len(),
{
    if terms.len() == 0 {
        0
    } else {
        let (coeff, witness) = terms.last();
        linear_terms_value(terms.drop_last(), values) + coeff@ * value_of(values, witness)
    }
}

impl Expression {
    /// What the expression evaluates to under an assignment, in the
    /// circuit's scalar field.
    pub open spec fn value(&self, values: Seq<(Witness, FieldElement)>) -> nat {
        (mul_terms_value(self.mul_terms@, values) + linear_terms_value(
            self.linear_combinations@,
            values,
        ) + self.q_c@) % acir_modulus()
    }

    /// Evaluates the expression under the values of a witness map, a
    /// witness without a value counting as zero.
    pub fn evaluate(&self, values: &WitnessMap) -> (result: FieldElement)
        ensures
            result@ == self.value(values@),
    {
        let ghost p = acir_modulus() as int;
        let mut products = FieldElement::zero();
        let mut i: usize = 0;
        proof {
            lemma_small_mod(0, acir_modulus());
            assert(self.mul_terms@.take(0) =~= Seq::<(FieldElement, Witness, Witness)>::empty());
        }
        while i < self.mul_terms.len()
            invariant
                i <= self.mul_terms.len(),
                p == acir_modulus(),
                products@ == mul_terms_value(self.mul_terms@.take(i as int), values@) % (
                p as nat),
            decreases self.mul_terms.len() - i,
        {
            let term = self.mul_terms[i];
            let lhs = values.get_or_zero(term.1);
            let rhs = values.get_or_zero(term.2);
            let product = term.0.mul(&lhs).mul(&rhs);
            let ghost sofar = mul_terms_value(self.mul_terms@.take(i as int), values@) as int;
            let ghost this = (term.0@ * lhs@ * rhs@) as int;
            proof {
                assert(self.mul_terms@.take(i + 1).drop_last() =~= self.mul_terms@.take(i as int));
                assert(self.mul_terms@.take(i + 1).last() == term);
                lemma_mul_mod_noop_left((term.0@ * lhs@) as int, rhs@ as int, p);
                lemma_add_mod_noop(sofar, this, p);
                lemma_add_mod_noop(sofar % p, this % p, p);
                lemma_small_mod(products@, p as nat);
                lemma_small_mod(product@, p as nat);
            }
            products = products.add(&product);
            i = i + 1;
        }
        let mut linear = FieldElement::zero();
        let mut j: usize = 0;
        proof {
            assert(self.mul_terms@.take(i as int) =~= self.mul_terms@);
            assert(self.linear_combinations@.take(0) =~= Seq::<(FieldElement, Witness)>::empty());
        }
        while j < self.linear_combinations.len()
            invariant
                j <= self.linear_combinations.len(),
                p == acir_modulus(),
                linear@ == linear_terms_value(self.linear_combinations@.take(j as int), values@) % (
                p as nat),
            decreases self.linear_combinations.len() - j,
        {
            let term = self.linear_combinations[j];
            let value = values.get_or_zero(term.1);
            let product = term.0.mul(&value);
            let ghost sofar = linear_terms_value(
                self.linear_combinations@.take(j as int),
                values@,
            ) as int;
            let ghost this = (term.0@ * value@) as int;
            proof {
                assert(self.linear_combinations@.take(j + 1).drop_last()
                    =~= self.linear_combinations@.take(j as int));
                assert(self.linear_combinations@.take(j + 1).last() == term);
                lemma_add_mod_noop(sofar, this, p);
                lemma_add_mod_noop(sofar % p, this % p, p);
                lemma_small_mod(linear@, p as nat);
                lemma_small_mod(product@, p as nat);
            }
            linear = linear.add(&product);
            j = j + 1;
        }
        let (_, _) = self.q_c.limbs();
        let ghost m = mul_terms_value(self.mul_terms@, values@) as int;
        let ghost l = linear_terms_value(self.linear_combinations@, values@) as int;
        proof {
            assert(self.linear_combinations@.take(j as int) =~= self.linear_combinations@);
            lemma_add_mod_noop(m, l, p);
            lemma_add_mod_noop(m + l, self.q_c@ as int, p);
            lemma_small_mod(self.q_c@, p as nat);
            lemma_add_mod_noop((m % p + l % p) % p, self.q_c@ as int, p);
        }
        products.add(&linear).add(&self.q_c)
    }
}

/// A call of a gadget.
#[derive(Clone, Debug, PartialEq, Eq)]
pub enum BlackBoxFuncCall {
    /// `input` lies in `[0, 2^num_bits)`.
    RANGE { input: Witness, num_bits: u32 },
    /// `output` is the bitwise and of the two operands, `num_bits` wide.
    AND { lhs: Witness, rhs: Witness, output: Witness, num_bits: u32 },
    /// `output` is the bitwise exclusive or of the two operands, `num_bits`
    /// wide.
    XOR { lhs: Witness, rhs: Witness, output: Witness, num_bits: u32 },
    /// An ECDSA signature over secp256k1, every witness carrying one byte.
    EcdsaSecp256k1 {
        public_key_x: Vec<Witness>,
        public_key_y: Vec<Witness>,
        signature: Vec<Witness>,
        hashed_message: Vec<Witness>,
    },
}

/// One step of a circuit.
#[derive(Clone, Debug, PartialEq, Eq)]
pub enum Opcode {
    /// The expression is zero.
    Arithmetic(Expression),
    BlackBoxFuncCall(BlackBoxFuncCall),
    /// A hint for witness generation; it constrains nothing.
    Directive,
    /// An opcode the translator has no row for, by its name.
    Unsupported(String),
}

/// A circuit: its opcodes in program order.
#[derive(Clone, Debug, PartialEq, Eq)]
pub struct Circuit {
    pub opcodes: Vec<Opcode>,
}

} // verus!
