//! A model of the custom gate: the staging record of one row, the row as it is assigned,
//! the column layout, and the chip that writes rows into a sink.

use crate::errors::StructuralError;
use crate::field::{acir_modulus, fr_modulus, FieldElement, Fr};
use crate::native_types::{linear_terms_value, mul_terms_value, value_of, Expression, Witness};
use crate::plonk::{Any, Assignment, Cell, Column, Event, Value};
use vstd::arithmetic::div_mod::{lemma_add_mod_noop, lemma_mod_bound, lemma_mul_mod_noop_left};
use vstd::prelude::*;

verus! {

/// The staging record of one row: the selector coefficients and the witness
/// that each wire carries. A wire that carries zero is unassigned.
#[derive(Clone, Copy, Debug, PartialEq, Eq)]
pub struct NoirConstraint {
    pub a: u32,
    pub b: u32,
    pub c: u32,
    pub qm: FieldElement,
    pub ql: FieldElement,
    pub qr: FieldElement,
    pub qo: FieldElement,
    pub qc: FieldElement,
}

/// A staging record by the integers of its selectors.
pub struct RowModel {
    pub a: u32,
    pub b: u32,
    pub c: u32,
    pub qm: nat,
    pub ql: nat,
    pub qr: nat,
    pub qo: nat,
    pub qc: nat,
}

impl RowModel {
    /// The row with no wire assigned and every selector zero.
    pub open spec fn empty() -> RowModel {
        RowModel { a: 0, b: 0, c: 0, qm: 0, ql: 0, qr: 0, qo: 0, qc: 0 }
    }

    /// An unassigned wire has a zero selector, and a product has both of
    /// its wires.
    pub open spec fn well_formed(self) -> bool {
        &&& self.a == 0 ==> self.ql == 0
        &&& self.b == 0 ==> self.qr == 0
        &&& self.c == 0 ==> self.qo == 0
        &&& self.qm != 0 ==> self.a != 0 && self.b != 0
    }

    /// The row after one linear term `coeff * witness` is folded in. A
    /// witness that a wire already carries adds to that wire's selector;
    /// another takes the first free wire among `a`, `b`, `c`; with none
    /// free the term has no place.
    pub open spec fn set_linear_term(self, coeff: nat, witness: u32) -> Result<
        RowModel,
        StructuralError,
    > {
        if witness == 0 {
            Err(StructuralError::Malformed)
        } else if self.a == witness {
            Ok(RowModel { ql: (self.ql + coeff) % acir_modulus(), ..self })
        } else if self.b == witness {
            Ok(RowModel { qr: (self.qr + coeff) % acir_modulus(), ..self })
        } else if self.c == witness {
            Ok(RowModel { qo: (self.qo + coeff) % acir_modulus(), ..self })
        } else if self.a == 0 {
            Ok(RowModel { a: witness, ql: coeff, ..self })
        } else if self.b == 0 {
            Ok(RowModel { b: witness, qr: coeff, ..self })
        } else if self.c == 0 {
            Ok(RowModel { c: witness, qo: coeff, ..self })
        } else {
            Err(StructuralError::TooManyLinearTerms)
        }
    }

    /// The product term of the row under an assignment.
    pub open spec fn product_value(self, values: Seq<(Witness, FieldElement)>) -> nat {
        self.qm * value_of(values, Witness(self.a)) * value_of(values, Witness(self.b))
    }

    /// The three linear terms of the row under an assignment.
    pub open spec fn linear_value(self, values: Seq<(Witness, FieldElement)>) -> nat {
        self.ql * value_of(values, Witness(self.a)) + self.qr * value_of(values, Witness(self.b))
            + self.qo * value_of(values, Witness(self.c))
    }

    /// The polynomial `qm*a*b + ql*a + qr*b + qo*c + qc` of the row
    /// under an assignment, in the circuit's scalar field.
    pub open spec fn value(self, values: Seq<(Witness, FieldElement)>) -> nat {
        (self.product_value(values) + self.linear_value(values) + self.qc) % acir_modulus()
    }
}

/// The row after the linear terms are folded in one by one, in order, or
/// the error of the first term that has no place.
pub open spec fn fold_linear_terms(start: RowModel, terms: Seq<(FieldElement, Witness)>) -> Result<
    RowModel,
    StructuralError,
>
    decreases terms.len(),
{
    if terms.len() == 0 {
        Ok(start)
    } else {
        match fold_linear_terms(start, terms.drop_last()) {
            Ok(row) => row.set_linear_term(terms.last().0@, terms.last().1.0),
            Err(e) => Err(e),
        }
    }
}

/// The row before any linear term: the product of the expression, if it has
/// one, on wires `a` and `b`.
pub open spec fn start_row(gate: Expression) -> RowModel {
    if gate.mul_terms@.len() == 1 {
        RowModel {
            a: gate.mul_terms@[0].1.0,
            b: gate.mul_terms@[0].2.0,
            qm: gate.mul_terms@[0].0@,
            ..RowModel::empty()
        }
    } else {
        RowModel::empty()
    }
}

/// Whether the product of the expression names the reserved witness.
pub open spec fn product_names_reserved(gate: Expression) -> bool {
    gate.mul_terms@.len() == 1 && (gate.mul_terms@[0].1.0 == 0 || gate.mul_terms@[0].2.0 == 0)
}

/// The row that an expression is staged as: its one product, if it has one,
/// on wires `a` and `b`; its linear terms folded in; its constant in `qc`.
pub open spec fn assemble(gate: Expression) -> Result<RowModel, StructuralError> {
    if gate.mul_terms@.len() > 1 {
        Err(StructuralError::MultiMul)
    } else if product_names_reserved(gate) {
        Err(StructuralError::Malformed)
    } else {
        match fold_linear_terms(start_row(gate), gate.linear_combinations@) {
            Ok(row) => Ok(RowModel { qc: gate.q_c@, ..row }),
            Err(e) => Err(e),
        }
    }
}

/// Folding a term into a well-formed row adds the term to what the row's
/// linear part evaluates to, keeps the product, and keeps the row well
/// formed.
pub proof fn lemma_set_linear_term_value(
    row: RowModel,
    coeff: nat,
    witness: u32,
    values: Seq<(Witness, FieldElement)>,
)
    requires
        row.well_formed(),
        row.set_linear_term(coeff, witness) is Ok,
    ensures
        row.set_linear_term(coeff, witness)->Ok_0.well_formed(),
        row.set_linear_term(coeff, witness)->Ok_0.linear_value(values) % acir_modulus() == (
        row.linear_value(values) + coeff * value_of(values, Witness(witness))) % acir_modulus(),
        row.set_linear_term(coeff, witness)->Ok_0.product_value(values) == row.product_value(
            values,
        ),
        row.set_linear_term(coeff, witness)->Ok_0.qc == row.qc,
{
    let after = row.set_linear_term(coeff, witness)->Ok_0;
    let p = acir_modulus() as int;
    let v = value_of(values, Witness(witness)) as int;
    let va = value_of(values, Witness(row.a)) as int;
    let vb = value_of(values, Witness(row.b)) as int;
    let vc = value_of(values, Witness(row.c)) as int;
    let ql = row.ql as int;
    let qr = row.qr as int;
    let qo = row.qo as int;
    let x = coeff as int;
    if row.a == witness {
        lemma_mul_mod_noop_left(ql + x, v, p);
        lemma_add_mod_noop(((ql + x) % p) * v, qr * vb + qo * vc, p);
        lemma_add_mod_noop((ql + x) * v, qr * vb + qo * vc, p);
        assert((ql + x) * v + (qr * vb + qo * vc) == ql * v + qr * vb + qo * vc + x * v)
            by (nonlinear_arith);
    } else if row.b == witness {
        lemma_mul_mod_noop_left(qr + x, v, p);
        lemma_add_mod_noop(((qr + x) % p) * v, ql * va + qo * vc, p);
        lemma_add_mod_noop((qr + x) * v, ql * va + qo * vc, p);
        assert((qr + x) * v + (ql * va + qo * vc) == ql * va + qr * v + qo * vc + x * v)
            by (nonlinear_arith);
        assert(ql * va + ((qr + x) % p) * v + qo * vc == ((qr + x) % p) * v + (ql * va + qo
            * vc));
    } else if row.c == witness {
        lemma_mul_mod_noop_left(qo + x, v, p);
        lemma_add_mod_noop(((qo + x) % p) * v, ql * va + qr * vb, p);
        lemma_add_mod_noop((qo + x) * v, ql * va + qr * vb, p);
        assert((qo + x) * v + (ql * va + qr * vb) == ql * va + qr * vb + qo * v + x * v)
            by (nonlinear_arith);
        assert(ql * va + qr * vb + ((qo + x) % p) * v == ((qo + x) % p) * v + (ql * va + qr
            * vb));
    } else if row.a == 0 {
        assert(ql * va == 0) by (nonlinear_arith)
            requires
                ql == 0,
        ;
        assert(row.qm * value_of(values, Witness(row.a)) * value_of(values, Witness(row.b))
            == 0) by (nonlinear_arith)
            requires
                row.qm == 0,
        ;
        assert(after.qm * value_of(values, Witness(after.a)) * value_of(
            values,
            Witness(after.b),
        ) == 0) by (nonlinear_arith)
            requires
                after.qm == 0,
        ;
    } else if row.b == 0 {
        assert(qr * vb == 0) by (nonlinear_arith)
            requires
                qr == 0,
        ;
        assert(row.qm * value_of(values, Witness(row.a)) * value_of(values, Witness(row.b))
            == 0) by (nonlinear_arith)
            requires
                row.qm == 0,
        ;
        assert(after.qm * value_of(values, Witness(after.a)) * value_of(
            values,
            Witness(after.b),
        ) == 0) by (nonlinear_arith)
            requires
                after.qm == 0,
        ;
    } else {
        assert(qo * vc == 0) by (nonlinear_arith)
            requires
                qo == 0,
        ;
    }
}

/// Folding a sequence of terms into a well-formed row adds their sum to
/// what the row's linear part evaluates to.
pub proof fn lemma_fold_linear_terms_value(
    start: RowModel,
    terms: Seq<(FieldElement, Witness)>,
    values: Seq<(Witness, FieldElement)>,
)
    requires
        start.well_formed(),
        fold_linear_terms(start, terms) is Ok,
    ensures
        fold_linear_terms(start, terms)->Ok_0.well_formed(),
        fold_linear_terms(start, terms)->Ok_0.linear_value(values) % acir_modulus() == (
        start.linear_value(values) + linear_terms_value(terms, values)) % acir_modulus(),
        fold_linear_terms(start, terms)->Ok_0.product_value(values) == start.product_value(
            values,
        ),
        fold_linear_terms(start, terms)->Ok_0.qc == start.qc,
    decreases terms.len(),
{
    if terms.len() > 0 {
        let before = fold_linear_terms(start, terms.drop_last())->Ok_0;
        lemma_fold_linear_terms_value(start, terms.drop_last(), values);
        let coeff = terms.last().0@;
        let witness = terms.last().1;
        lemma_set_linear_term_value(before, coeff, witness.0, values);
        let p = acir_modulus() as int;
        let term = (coeff * value_of(values, witness)) as int;
        let sofar = (start.linear_value(values) + linear_terms_value(terms.drop_last(), values))
            as int;
        lemma_add_mod_noop(before.linear_value(values) as int, term, p);
        lemma_add_mod_noop(sofar, term, p);
    }
}

/// The staged row of an expression evaluates, under every assignment, to
/// what the expression evaluates to: an assignment that makes the expression
/// zero makes the polynomial of its row zero.
pub proof fn lemma_assembled_row_value(gate: Expression, values: Seq<(Witness, FieldElement)>)
    requires
        assemble(gate) is Ok,
    ensures
        assemble(gate)->Ok_0.value(values) == gate.value(values),
        assemble(gate)->Ok_0.well_formed(),
{
    let start = start_row(gate);
    let folded = fold_linear_terms(start, gate.linear_combinations@)->Ok_0;
    let row = assemble(gate)->Ok_0;
    let p = acir_modulus() as int;
    lemma_fold_linear_terms_value(start, gate.linear_combinations@, values);
    assert(start.linear_value(values) == 0) by (nonlinear_arith)
        requires
            start.ql == 0,
            start.qr == 0,
            start.qo == 0,
            start.linear_value(values) == start.ql * value_of(values, Witness(start.a)) + start.qr
                * value_of(values, Witness(start.b)) + start.qo * value_of(
                values,
                Witness(start.c),
            ),
    ;
    assert(start.product_value(values) == mul_terms_value(gate.mul_terms@, values)) by {
        if gate.mul_terms@.len() == 1 {
            assert(gate.mul_terms@.drop_last().len() == 0);
            assert(mul_terms_value(gate.mul_terms@.drop_last(), values) == 0);
            assert(gate.mul_terms@.last() == gate.mul_terms@[0]);
        } else {
            assert(0 * value_of(values, Witness(0)) * value_of(values, Witness(0)) == 0)
                by (nonlinear_arith);
        }
    }
    let product = row.product_value(values) as int;
    let constant = gate.q_c@ as int;
    assert(row.product_value(values) == folded.product_value(values));
    assert(row.linear_value(values) == folded.linear_value(values));
    lemma_add_mod_noop(folded.linear_value(values) as int, product + constant, p);
    lemma_add_mod_noop(
        linear_terms_value(gate.linear_combinations@, values) as int,
        product + constant,
        p,
    );
}

/// Whether every coefficient of an expression is below the prime of the
/// circuit's field, as the coefficients of every expression built from
/// field elements are.
pub open spec fn canonical_expression(gate: Expression) -> bool {
    &&& forall|i: int|
        0 <= i < gate.mul_terms@.len() ==> (#[trigger] gate.mul_terms@[i]).0@ < acir_modulus()
    &&& forall|i: int|
        0 <= i < gate.linear_combinations@.len() ==> (#[trigger] gate.linear_combinations@[i]).0@
            < acir_modulus()
    &&& gate.q_c@ < acir_modulus()
}

impl RowModel {
    /// Whether every selector is below the prime of the circuit's field.
    pub open spec fn canonical(self) -> bool {
        &&& self.qm < acir_modulus()
        &&& self.ql < acir_modulus()
        &&& self.qr < acir_modulus()
        &&& self.qo < acir_modulus()
        &&& self.qc < acir_modulus()
    }
}

/// Folding canonical coefficients into a canonical row leaves it canonical.
pub proof fn lemma_fold_keeps_canonical(start: RowModel, terms: Seq<(FieldElement, Witness)>)
    requires
        start.canonical(),
        forall|i: int| 0 <= i < terms.len() ==> (#[trigger] terms[i]).0@ < acir_modulus(),
        fold_linear_terms(start, terms) is Ok,
    ensures
        fold_linear_terms(start, terms)->Ok_0.canonical(),
    decreases terms.len(),
{
    if terms.len() > 0 {
        let before = fold_linear_terms(start, terms.drop_last())->Ok_0;
        assert forall|i: int| 0 <= i < terms.drop_last().len() implies (
        #[trigger] terms.drop_last()[i]).0@ < acir_modulus() by {
            assert(terms.drop_last()[i] == terms[i]);
        }
        lemma_fold_keeps_canonical(start, terms.drop_last());
        let coeff = terms.last().0@;
        assert(terms[terms.len() - 1] == terms.last());
        lemma_mod_bound((before.ql + coeff) as int, acir_modulus() as int);
        lemma_mod_bound((before.qr + coeff) as int, acir_modulus() as int);
        lemma_mod_bound((before.qo + coeff) as int, acir_modulus() as int);
    }
}

/// The staged row of a canonical expression is canonical.
pub proof fn lemma_assembled_row_canonical(gate: Expression)
    requires
        canonical_expression(gate),
        assemble(gate) is Ok,
    ensures
        assemble(gate)->Ok_0.canonical(),
{
    lemma_fold_keeps_canonical(start_row(gate), gate.linear_combinations@);
}

impl NoirConstraint {
    /// The record by the integers of its selectors.
    pub open spec fn view(&self) -> RowModel {
        RowModel {
            a: self.a,
            b: self.b,
            c: self.c,
            qm: self.qm@,
            ql: self.ql@,
            qr: self.qr@,
            qo: self.qo@,
            qc: self.qc@,
        }
    }

    /// Folds the linear term `x * witness` into the record. On an error the
    /// record is as it was.
    pub fn set_linear_term(&mut self, x: FieldElement, witness: u32) -> (res: Result<
        (),
        StructuralError,
    >)
        ensures
            match res {
                Ok(()) => old(self)@.set_linear_term(x@, witness) == Ok::<
                    RowModel,
                    StructuralError,
                >(final(self)@),
                Err(e) => old(self)@.set_linear_term(x@, witness) == Err::<
                    RowModel,
                    StructuralError,
                >(e) && *final(self) == *old(self),
            },
    {
        if witness == 0 {
            Err(StructuralError::Malformed)
        } else if self.a == witness {
            self.ql = self.ql.add(&x);
            Ok(())
        } else if self.b == witness {
            self.qr = self.qr.add(&x);
            Ok(())
        } else if self.c == witness {
            self.qo = self.qo.add(&x);
            Ok(())
        } else if self.a == 0 {
            self.a = witness;
            self.ql = x;
            Ok(())
        } else if self.b == 0 {
            self.b = witness;
            self.qr = x;
            Ok(())
        } else if self.c == 0 {
            self.c = witness;
            self.qo = x;
            Ok(())
        } else {
            Err(StructuralError::TooManyLinearTerms)
        }
    }
}

impl Default for NoirConstraint {
    /// The record with no wire assigned and every selector zero.
    fn default() -> (row: NoirConstraint)
        ensures
            row@ == RowModel::empty(),
    {
        NoirConstraint {
            a: 0,
            b: 0,
            c: 0,
            qm: FieldElement::zero(),
            ql: FieldElement::zero(),
            qr: FieldElement::zero(),
            qo: FieldElement::zero(),
            qc: FieldElement::zero(),
        }
    }
}

/// One row as it is assigned: the values of the three wires and the five
/// selector coefficients.
#[derive(Copy, Clone, Debug, PartialEq, Eq)]
pub struct PolyTriple<F> {
    pub a: Value<F>,
    pub b: Value<F>,
    pub c: Value<F>,
    pub qm: F,
    pub ql: F,
    pub qr: F,
    pub qo: F,
    pub qc: F,
}

impl<F> PolyTriple<F> {
    pub fn new(a: Value<F>, b: Value<F>, c: Value<F>, qm: F, ql: F, qr: F, qo: F, qc: F) -> (triple:
        PolyTriple<F>)
        ensures
            triple == (PolyTriple { a, b, c, qm, ql, qr, qo, qc }),
    {
        PolyTriple { a, b, c, qm, ql, qr, qo, qc }
    }
}

/// The integer of a wire value; an unknown value counts as zero.
pub open spec fn known(value: Value<Fr>) -> nat {
    match value {
        Value::Known(v) => v@,
        Value::Unknown => 0,
    }
}

/// The custom gate `a*sl + b*sr + a*b*sm + c*so + sc` in the native field.
pub open spec fn gate_polynomial(
    a: nat,
    b: nat,
    c: nat,
    sl: nat,
    sr: nat,
    so: nat,
    sm: nat,
    sc: nat,
) -> nat {
    (a * sl + b * sr + a * b * sm + c * so + sc) % fr_modulus()
}

/// What the custom gate evaluates to on a row.
pub open spec fn triple_value(triple: PolyTriple<Fr>) -> nat {
    gate_polynomial(
        known(triple.a),
        known(triple.b),
        known(triple.c),
        triple.ql@,
        triple.qr@,
        triple.qo@,
        triple.qm@,
        triple.qc@,
    )
}

/// The custom gate over three advice and five fixed columns, read at the
/// current rotation.
#[derive(Clone, Copy, Debug, PartialEq, Eq, Structural)]
pub struct Gate {
    pub a: usize,
    pub b: usize,
    pub c: usize,
    pub sl: usize,
    pub sr: usize,
    pub so: usize,
    pub sm: usize,
    pub sc: usize,
}

impl Gate {
    /// Whether this gate holds on a row, given what each advice and each
    /// fixed column holds there.
    pub open spec fn holds(self, advice: spec_fn(usize) -> nat, fixed: spec_fn(usize) -> nat)
        -> bool {
        gate_polynomial(
            advice(self.a),
            advice(self.b),
            advice(self.c),
            fixed(self.sl),
            fixed(self.sr),
            fixed(self.so),
            fixed(self.sm),
            fixed(self.sc),
        ) == 0
    }
}

/// A row satisfies the custom gate of a layout exactly where the polynomial
/// of its values and selectors is zero.
pub proof fn lemma_row_holds(
    config: PlonkConfig,
    triple: PolyTriple<Fr>,
    advice: spec_fn(usize) -> nat,
    fixed: spec_fn(usize) -> nat,
)
    requires
        advice(config.a) == known(triple.a),
        advice(config.b) == known(triple.b),
        advice(config.c) == known(triple.c),
        fixed(config.sl) == triple.ql@,
        fixed(config.sr) == triple.qr@,
        fixed(config.so) == triple.qo@,
        fixed(config.sm) == triple.qm@,
        fixed(config.sc) == triple.qc@,
    ensures
        config.gate().holds(advice, fixed) <==> triple_value(triple) == 0,
{
}

/// The description of a table while it is configured: how many advice and
/// fixed columns it has, which columns take part in copy constraints, and
/// its gates.
#[derive(Clone, Debug, PartialEq, Eq)]
pub struct ConstraintSystem {
    pub num_advice_columns: usize,
    pub num_fixed_columns: usize,
    pub permutation: Vec<Column>,
    pub gates: Vec<Gate>,
}

impl ConstraintSystem {
    pub fn new() -> (meta: ConstraintSystem)
        ensures
            meta.num_advice_columns == 0,
            meta.num_fixed_columns == 0,
            meta.permutation@.len() == 0,
            meta.gates@.len() == 0,
    {
        ConstraintSystem {
            num_advice_columns: 0,
            num_fixed_columns: 0,
            permutation: Vec::new(),
            gates: Vec::new(),
        }
    }

    /// Allocates the next advice column.
    pub fn advice_column(&mut self) -> (index: usize)
        requires
            old(self).num_advice_columns < usize::MAX,
        ensures
            index == old(self).num_advice_columns,
            final(self).num_advice_columns == index + 1,
            final(self).num_fixed_columns == old(self).num_fixed_columns,
            final(self).permutation == old(self).permutation,
            final(self).gates == old(self).gates,
    {
        let index = self.num_advice_columns;
        self.num_advice_columns = index + 1;
        index
    }

    /// Allocates the next fixed column.
    pub fn fixed_column(&mut self) -> (index: usize)
        requires
            old(self).num_fixed_columns < usize::MAX,
        ensures
            index == old(self).num_fixed_columns,
            final(self).num_fixed_columns == index + 1,
            final(self).num_advice_columns == old(self).num_advice_columns,
            final(self).permutation == old(self).permutation,
            final(self).gates == old(self).gates,
    {
        let index = self.num_fixed_columns;
        self.num_fixed_columns = index + 1;
        index
    }

    /// Lets `column` take part in copy constraints.
    pub fn enable_equality(&mut self, column: Column)
        ensures
            final(self).permutation@ == old(self).permutation@.push(column),
            final(self).num_advice_columns == old(self).num_advice_columns,
            final(self).num_fixed_columns == old(self).num_fixed_columns,
            final(self).gates == old(self).gates,
    {
        self.permutation.push(column);
    }

    /// Adds a gate.
    pub fn create_gate(&mut self, gate: Gate)
        ensures
            final(self).gates@ == old(self).gates@.push(gate),
            final(self).num_advice_columns == old(self).num_advice_columns,
            final(self).num_fixed_columns == old(self).num_fixed_columns,
            final(self).permutation == old(self).permutation,
    {
        self.gates.push(gate);
    }
}

/// The columns of the translator's table: three advice wires and five fixed
/// selectors, by their indices.
#[derive(Clone, Copy, Debug, PartialEq, Eq, Structural)]
pub struct PlonkConfig {
    pub a: usize,
    pub b: usize,
    pub c: usize,
    pub sl: usize,
    pub sr: usize,
    pub so: usize,
    pub sm: usize,
    pub sc: usize,
}

impl PlonkConfig {
    /// The custom gate over the columns of this layout.
    pub open spec fn gate(self) -> Gate {
        Gate {
            a: self.a,
            b: self.b,
            c: self.c,
            sl: self.sl,
            sr: self.sr,
            so: self.so,
            sm: self.sm,
            sc: self.sc,
        }
    }

    /// The layout that `configure` gives a table with no column yet.
    pub open spec fn standard() -> PlonkConfig {
        PlonkConfig { a: 0, b: 1, c: 2, sl: 1, sr: 2, so: 3, sm: 0, sc: 4 }
    }

    /// The advice cell of wire `column` in `row`.
    pub open spec fn advice_cell(column: usize, row: usize) -> Cell {
        Cell { column: Column { column_type: Any::Advice, index: column }, row }
    }

    /// Allocates three advice columns, each with equality enabled, then the
    /// fixed columns `sm`, `sl`, `sr`, `so`, `sc` in that order, and adds
    /// the custom gate over them.
    pub fn configure(meta: &mut ConstraintSystem) -> (config: PlonkConfig)
        requires
            old(meta).num_advice_columns <= usize::MAX - 3,
            old(meta).num_fixed_columns <= usize::MAX - 5,
        ensures
            config.a == old(meta).num_advice_columns,
            config.b == config.a + 1,
            config.c == config.a + 2,
            config.sm == old(meta).num_fixed_columns,
            config.sl == config.sm + 1,
            config.sr == config.sm + 2,
            config.so == config.sm + 3,
            config.sc == config.sm + 4,
            final(meta).num_advice_columns == old(meta).num_advice_columns + 3,
            final(meta).num_fixed_columns == old(meta).num_fixed_columns + 5,
            final(meta).permutation@ == old(meta).permutation@.push(
                Column { column_type: Any::Advice, index: config.a },
            ).push(Column { column_type: Any::Advice, index: config.b }).push(
                Column { column_type: Any::Advice, index: config.c },
            ),
            final(meta).gates@ == old(meta).gates@.push(config.gate()),
    {
        let a = meta.advice_column();
        let b = meta.advice_column();
        let c = meta.advice_column();

        meta.enable_equality(Column { column_type: Any::Advice, index: a });
        meta.enable_equality(Column { column_type: Any::Advice, index: b });
        meta.enable_equality(Column { column_type: Any::Advice, index: c });

        let sm = meta.fixed_column();
        let sl = meta.fixed_column();
        let sr = meta.fixed_column();
        let so = meta.fixed_column();
        let sc = meta.fixed_column();

        meta.create_gate(Gate { a, b, c, sl, sr, so, sm, sc });

        PlonkConfig { a, b, c, sl, sr, so, sm, sc }
    }
}

/// The first of three values, where they are known.
pub open spec fn first_of(value: Value<(Fr, Fr, Fr)>) -> Value<Fr> {
    match value {
        Value::Known(v) => Value::Known(v.0),
        Value::Unknown => Value::Unknown,
    }
}

/// The second of three values, where they are known.
pub open spec fn second_of(value: Value<(Fr, Fr, Fr)>) -> Value<Fr> {
    match value {
        Value::Known(v) => Value::Known(v.1),
        Value::Unknown => Value::Unknown,
    }
}

/// The third of three values, where they are known.
pub open spec fn third_of(value: Value<(Fr, Fr, Fr)>) -> Value<Fr> {
    match value {
        Value::Known(v) => Value::Known(v.2),
        Value::Unknown => Value::Unknown,
    }
}

/// The three advice assignments of a row, wire `a` first.
pub open spec fn advice_events(
    config: PlonkConfig,
    offset: usize,
    a: Value<Fr>,
    b: Value<Fr>,
    c: Value<Fr>,
) -> Seq<Event> {
    seq![
        Event::AssignAdvice { column: config.a, offset, value: a },
        Event::AssignAdvice { column: config.b, offset, value: b },
        Event::AssignAdvice { column: config.c, offset, value: c },
    ]
}

/// The events of a row with the four selectors `sl`, `sr`, `so`, `sm`
/// filled, in that order, after the three wires.
pub open spec fn simple_row_events(
    config: PlonkConfig,
    offset: usize,
    value: Value<(Fr, Fr, Fr)>,
    sl: Fr,
    sr: Fr,
    so: Fr,
    sm: Fr,
) -> Seq<Event> {
    advice_events(config, offset, first_of(value), second_of(value), third_of(value)) + seq![
        Event::AssignFixed { column: config.sl, offset, value: Value::Known(sl) },
        Event::AssignFixed { column: config.sr, offset, value: Value::Known(sr) },
        Event::AssignFixed { column: config.so, offset, value: Value::Known(so) },
        Event::AssignFixed { column: config.sm, offset, value: Value::Known(sm) },
    ]
}

/// The events of a full row: the three wires, then the selectors `sl`,
/// `sr`, `so`, `sm`, `sc`.
pub open spec fn poly_events(config: PlonkConfig, offset: usize, triple: PolyTriple<Fr>) -> Seq<
    Event,
> {
    advice_events(config, offset, triple.a, triple.b, triple.c) + seq![
        Event::AssignFixed { column: config.sl, offset, value: Value::Known(triple.ql) },
        Event::AssignFixed { column: config.sr, offset, value: Value::Known(triple.qr) },
        Event::AssignFixed { column: config.so, offset, value: Value::Known(triple.qo) },
        Event::AssignFixed { column: config.sm, offset, value: Value::Known(triple.qm) },
        Event::AssignFixed { column: config.sc, offset, value: Value::Known(triple.qc) },
    ]
}

/// The three advice cells of a row.
pub open spec fn row_cells(config: PlonkConfig, offset: usize) -> (Cell, Cell, Cell) {
    (
        PlonkConfig::advice_cell(config.a, offset),
        PlonkConfig::advice_cell(config.b, offset),
        PlonkConfig::advice_cell(config.c, offset),
    )
}

/// The instructions of the three-wire chip. Each writes one row at `offset`
/// into a sink and hands back the cells of the three wires.
pub trait StandardCs {
    spec fn config(&self) -> PlonkConfig;

    /// A row with `so = sm = 1` and `sl = sr = 0`.
    fn raw_multiply<S: Assignment>(
        &self,
        layouter: &mut S,
        offset: usize,
        value: Value<(Fr, Fr, Fr)>,
    ) -> (cells: (Cell, Cell, Cell))
        requires
            old(layouter).inv(),
        ensures
            final(layouter).inv(),
            final(layouter).events() == old(layouter).events() + simple_row_events(
                self.config(),
                offset,
                value,
                Fr::spec_of(0),
                Fr::spec_of(0),
                Fr::spec_of(1),
                Fr::spec_of(1),
            ),
            cells == row_cells(self.config(), offset),
    ;

    /// A row with `sl = sr = so = 1` and `sm = 0`.
    fn raw_add<S: Assignment>(
        &self,
        layouter: &mut S,
        offset: usize,
        value: Value<(Fr, Fr, Fr)>,
    ) -> (cells: (Cell, Cell, Cell))
        requires
            old(layouter).inv(),
        ensures
            final(layouter).inv(),
            final(layouter).events() == old(layouter).events() + simple_row_events(
                self.config(),
                offset,
                value,
                Fr::spec_of(1),
                Fr::spec_of(1),
                Fr::spec_of(1),
                Fr::spec_of(0),
            ),
            cells == row_cells(self.config(), offset),
    ;

    /// A row with all five selectors taken from `value`.
    fn raw_poly<S: Assignment>(&self, layouter: &mut S, offset: usize, value: PolyTriple<Fr>) -> (cells:
        (Cell, Cell, Cell))
        requires
            old(layouter).inv(),
        ensures
            final(layouter).inv(),
            final(layouter).events() == old(layouter).events() + poly_events(
                self.config(),
                offset,
                value,
            ),
            cells == row_cells(self.config(), offset),
    ;

    /// A copy constraint between two cells.
    fn copy<S: Assignment>(&self, layouter: &mut S, a: Cell, b: Cell)
        requires
            old(layouter).inv(),
        ensures
            final(layouter).inv(),
            final(layouter).events() == old(layouter).events().push(Event::Copy { lhs: a, rhs: b }),
    ;
}

/// The three-wire chip over a column layout.
#[derive(Clone, Copy, Debug, PartialEq, Eq)]
pub struct StandardPlonk {
    pub config: PlonkConfig,
}

impl StandardPlonk {
    pub fn new(config: PlonkConfig) -> (chip: StandardPlonk)
        ensures
            chip.config == config,
    {
        StandardPlonk { config }
    }

    /// Writes the three wires of a row.
    fn assign_wires<S: Assignment>(
        &self,
        layouter: &mut S,
        offset: usize,
        a: Value<Fr>,
        b: Value<Fr>,
        c: Value<Fr>,
    )
        requires
            old(layouter).inv(),
        ensures
            final(layouter).inv(),
            final(layouter).events() == old(layouter).events() + advice_events(
                self.config,
                offset,
                a,
                b,
                c,
            ),
    {
        layouter.assign_advice(self.config.a, offset, a);
        layouter.assign_advice(self.config.b, offset, b);
        layouter.assign_advice(self.config.c, offset, c);
        assert(layouter.events() =~= old(layouter).events() + advice_events(
            self.config,
            offset,
            a,
            b,
            c,
        ));
    }

    /// Writes a row whose selector `sc` is left alone.
    fn simple_row<S: Assignment>(
        &self,
        layouter: &mut S,
        offset: usize,
        value: Value<(Fr, Fr, Fr)>,
        sl: Fr,
        sr: Fr,
        so: Fr,
        sm: Fr,
    )
        requires
            old(layouter).inv(),
        ensures
            final(layouter).inv(),
            final(layouter).events() == old(layouter).events() + simple_row_events(
                self.config,
                offset,
                value,
                sl,
                sr,
                so,
                sm,
            ),
    {
        let (a, b, c) = match value {
            Value::Known(v) => (Value::Known(v.0), Value::Known(v.1), Value::Known(v.2)),
            Value::Unknown => (Value::Unknown, Value::Unknown, Value::Unknown),
        };
        self.assign_wires(layouter, offset, a, b, c);
        layouter.assign_fixed(self.config.sl, offset, Value::Known(sl));
        layouter.assign_fixed(self.config.sr, offset, Value::Known(sr));
        layouter.assign_fixed(self.config.so, offset, Value::Known(so));
        layouter.assign_fixed(self.config.sm, offset, Value::Known(sm));
        assert(layouter.events() =~= old(layouter).events() + simple_row_events(
            self.config,
            offset,
            value,
            sl,
            sr,
            so,
            sm,
        ));
    }
}

impl StandardCs for StandardPlonk {
    open spec fn config(&self) -> PlonkConfig {
        self.config
    }

    fn raw_multiply<S: Assignment>(
        &self,
        layouter: &mut S,
        offset: usize,
        value: Value<(Fr, Fr, Fr)>,
    ) -> (cells: (Cell, Cell, Cell)) {
        self.simple_row(layouter, offset, value, Fr::zero(), Fr::zero(), Fr::one(), Fr::one());
        self.cells(offset)
    }

    fn raw_add<S: Assignment>(
        &self,
        layouter: &mut S,
        offset: usize,
        value: Value<(Fr, Fr, Fr)>,
    ) -> (cells: (Cell, Cell, Cell)) {
        self.simple_row(layouter, offset, value, Fr::one(), Fr::one(), Fr::one(), Fr::zero());
        self.cells(offset)
    }

    fn raw_poly<S: Assignment>(&self, layouter: &mut S, offset: usize, value: PolyTriple<Fr>) -> (cells:
        (Cell, Cell, Cell)) {
        self.assign_wires(layouter, offset, value.a, value.b, value.c);
        layouter.assign_fixed(self.config.sl, offset, Value::Known(value.ql));
        layouter.assign_fixed(self.config.sr, offset, Value::Known(value.qr));
        layouter.assign_fixed(self.config.so, offset, Value::Known(value.qo));
        layouter.assign_fixed(self.config.sm, offset, Value::Known(value.qm));
        layouter.assign_fixed(self.config.sc, offset, Value::Known(value.qc));
        assert(layouter.events() =~= old(layouter).events() + poly_events(
            self.config,
            offset,
            value,
        ));
        self.cells(offset)
    }

    fn copy<S: Assignment>(&self, layouter: &mut S, a: Cell, b: Cell) {
        layouter.copy(a.column, a.row, b.column, b.row);
    }
}

impl StandardPlonk {
    /// The three advice cells of the row at `offset`.
    pub fn cells(&self, offset: usize) -> (cells: (Cell, Cell, Cell))
        ensures
            cells == row_cells(self.config, offset),
    {
        (
            Cell { column: Column { column_type: Any::Advice, index: self.config.a }, row: offset },
            Cell { column: Column { column_type: Any::Advice, index: self.config.b }, row: offset },
            Cell { column: Column { column_type: Any::Advice, index: self.config.c }, row: offset },
        )
    }
}

} // verus!
