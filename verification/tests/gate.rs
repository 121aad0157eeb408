use noir_halo2_backend::errors::StructuralError;
use noir_halo2_backend::field::{FieldElement, Fr, ACIR_MODULUS_HI, ACIR_MODULUS_LO};
use noir_halo2_backend::halo2_plonk_api::{
    ConstraintSystem, Gate, NoirConstraint, PlonkConfig, PolyTriple, StandardCs, StandardPlonk,
};
use noir_halo2_backend::plonk::{Any, Assembly, Assignment, Cell, Column, Event, Value};

fn fe(value: u128) -> FieldElement {
    FieldElement::from_u128(value)
}

fn advice(index: usize, row: usize) -> Cell {
    Cell { column: Column { column_type: Any::Advice, index }, row }
}

fn events(assembly: &Assembly) -> Vec<Event> {
    (0..assembly.len()).map(|i| assembly.event(i).unwrap()).collect()
}

fn standard_chip() -> StandardPlonk {
    let mut cs = ConstraintSystem::new();
    StandardPlonk::new(PlonkConfig::configure(&mut cs))
}

#[test]
fn a_fresh_record_has_no_wire_and_no_coefficient() {
    let row = NoirConstraint::default();
    assert_eq!((row.a, row.b, row.c), (0, 0, 0));
    assert_eq!(row.qm, FieldElement::zero());
    assert_eq!(row.ql, FieldElement::zero());
    assert_eq!(row.qr, FieldElement::zero());
    assert_eq!(row.qo, FieldElement::zero());
    assert_eq!(row.qc, FieldElement::zero());
}

#[test]
fn linear_terms_take_the_free_wires_in_order() {
    let mut row = NoirConstraint::default();
    assert_eq!(row.set_linear_term(fe(5), 10), Ok(()));
    assert_eq!((row.a, row.b, row.c), (10, 0, 0));
    assert_eq!(row.ql, fe(5));
    assert_eq!(row.set_linear_term(fe(6), 20), Ok(()));
    assert_eq!((row.a, row.b, row.c), (10, 20, 0));
    assert_eq!(row.qr, fe(6));
    assert_eq!(row.set_linear_term(fe(7), 30), Ok(()));
    assert_eq!((row.a, row.b, row.c), (10, 20, 30));
    assert_eq!(row.qo, fe(7));
    assert_eq!(row.ql, fe(5));
    assert_eq!(row.qr, fe(6));
    assert_eq!(row.qm, FieldElement::zero());
    assert_eq!(row.qc, FieldElement::zero());
}

#[test]
fn a_repeated_witness_adds_to_its_selector() {
    let mut row = NoirConstraint::default();
    row.set_linear_term(fe(5), 10).unwrap();
    row.set_linear_term(fe(6), 20).unwrap();
    row.set_linear_term(fe(7), 30).unwrap();
    row.set_linear_term(fe(100), 20).unwrap();
    row.set_linear_term(fe(1000), 30).unwrap();
    row.set_linear_term(fe(10000), 10).unwrap();
    assert_eq!((row.a, row.b, row.c), (10, 20, 30));
    assert_eq!(row.ql, fe(10005));
    assert_eq!(row.qr, fe(106));
    assert_eq!(row.qo, fe(1007));
}

#[test]
fn a_repeated_witness_adds_modulo_the_prime() {
    let minus_one = FieldElement::from_limbs(ACIR_MODULUS_HI, ACIR_MODULUS_LO - 1).unwrap();
    let mut row = NoirConstraint::default();
    row.set_linear_term(minus_one, 4).unwrap();
    row.set_linear_term(fe(3), 4).unwrap();
    assert_eq!((row.a, row.b, row.c), (4, 0, 0));
    assert_eq!(row.ql, fe(2));
}

#[test]
fn a_fourth_witness_has_no_place() {
    let mut row = NoirConstraint::default();
    row.set_linear_term(fe(5), 10).unwrap();
    row.set_linear_term(fe(6), 20).unwrap();
    row.set_linear_term(fe(7), 30).unwrap();
    let before = row;
    assert_eq!(row.set_linear_term(fe(8), 40), Err(StructuralError::TooManyLinearTerms));
    assert_eq!(row, before);
}

#[test]
fn the_reserved_witness_is_refused() {
    let mut row = NoirConstraint::default();
    assert_eq!(row.set_linear_term(fe(8), 0), Err(StructuralError::Malformed));
    assert_eq!(row, NoirConstraint::default());
}

#[test]
fn a_term_on_a_product_wire_adds_to_that_wire() {
    let mut row = NoirConstraint::default();
    row.a = 7;
    row.b = 8;
    row.qm = fe(2);
    row.set_linear_term(fe(3), 8).unwrap();
    row.set_linear_term(fe(4), 9).unwrap();
    row.set_linear_term(fe(5), 7).unwrap();
    assert_eq!((row.a, row.b, row.c), (7, 8, 9));
    assert_eq!((row.ql, row.qr, row.qo, row.qm), (fe(5), fe(3), fe(4), fe(2)));
}

#[test]
fn poly_triple_new_keeps_its_arguments() {
    let triple = PolyTriple::new(
        Value::Known(1u8),
        Value::Unknown,
        Value::Known(3u8),
        4u8,
        5u8,
        6u8,
        7u8,
        8u8,
    );
    assert_eq!(triple.a, Value::Known(1));
    assert_eq!(triple.b, Value::Unknown);
    assert_eq!(triple.c, Value::Known(3));
    assert_eq!((triple.qm, triple.ql, triple.qr, triple.qo, triple.qc), (4, 5, 6, 7, 8));
}

#[test]
fn configure_allocates_three_wires_and_five_selectors() {
    let mut cs = ConstraintSystem::new();
    let config = PlonkConfig::configure(&mut cs);
    assert_eq!((config.a, config.b, config.c), (0, 1, 2));
    assert_eq!((config.sm, config.sl, config.sr, config.so, config.sc), (0, 1, 2, 3, 4));
    assert_eq!(cs.num_advice_columns, 3);
    assert_eq!(cs.num_fixed_columns, 5);
    assert_eq!(
        cs.permutation,
        vec![
            Column { column_type: Any::Advice, index: 0 },
            Column { column_type: Any::Advice, index: 1 },
            Column { column_type: Any::Advice, index: 2 },
        ]
    );
    assert_eq!(cs.gates, vec![Gate { a: 0, b: 1, c: 2, sl: 1, sr: 2, so: 3, sm: 0, sc: 4 }]);
}

#[test]
fn configure_continues_after_the_columns_that_exist() {
    let mut cs = ConstraintSystem::new();
    assert_eq!(cs.advice_column(), 0);
    assert_eq!(cs.fixed_column(), 0);
    assert_eq!(cs.fixed_column(), 1);
    cs.enable_equality(Column { column_type: Any::Fixed, index: 1 });
    let config = PlonkConfig::configure(&mut cs);
    assert_eq!((config.a, config.b, config.c), (1, 2, 3));
    assert_eq!((config.sm, config.sl, config.sr, config.so, config.sc), (2, 3, 4, 5, 6));
    assert_eq!(cs.num_advice_columns, 4);
    assert_eq!(cs.num_fixed_columns, 7);
    assert_eq!(cs.permutation.len(), 4);
    assert_eq!(cs.gates.len(), 1);
}

#[test]
fn raw_poly_assigns_wires_then_selectors() {
    let chip = standard_chip();
    let mut assembly = Assembly::new();
    let triple = PolyTriple::new(
        Value::Known(Fr::from_u128(1)),
        Value::Known(Fr::from_u128(2)),
        Value::Known(Fr::from_u128(3)),
        Fr::from_u128(4),
        Fr::from_u128(5),
        Fr::from_u128(6),
        Fr::from_u128(7),
        Fr::from_u128(8),
    );
    let cells = chip.raw_poly(&mut assembly, 9, triple);
    assert_eq!(cells, (advice(0, 9), advice(1, 9), advice(2, 9)));
    assert_eq!(
        events(&assembly),
        vec![
            Event::AssignAdvice { column: 0, offset: 9, value: Value::Known(Fr::from_u128(1)) },
            Event::AssignAdvice { column: 1, offset: 9, value: Value::Known(Fr::from_u128(2)) },
            Event::AssignAdvice { column: 2, offset: 9, value: Value::Known(Fr::from_u128(3)) },
            Event::AssignFixed { column: 1, offset: 9, value: Value::Known(Fr::from_u128(5)) },
            Event::AssignFixed { column: 2, offset: 9, value: Value::Known(Fr::from_u128(6)) },
            Event::AssignFixed { column: 3, offset: 9, value: Value::Known(Fr::from_u128(7)) },
            Event::AssignFixed { column: 0, offset: 9, value: Value::Known(Fr::from_u128(4)) },
            Event::AssignFixed { column: 4, offset: 9, value: Value::Known(Fr::from_u128(8)) },
        ]
    );
}

#[test]
fn raw_multiply_sets_the_product_and_output_selectors() {
    let chip = standard_chip();
    let mut assembly = Assembly::new();
    let value = Value::Known((Fr::from_u128(2), Fr::from_u128(3), Fr::from_u128(6)));
    let cells = chip.raw_multiply(&mut assembly, 0, value);
    assert_eq!(cells, (advice(0, 0), advice(1, 0), advice(2, 0)));
    assert_eq!(
        events(&assembly),
        vec![
            Event::AssignAdvice { column: 0, offset: 0, value: Value::Known(Fr::from_u128(2)) },
            Event::AssignAdvice { column: 1, offset: 0, value: Value::Known(Fr::from_u128(3)) },
            Event::AssignAdvice { column: 2, offset: 0, value: Value::Known(Fr::from_u128(6)) },
            Event::AssignFixed { column: 1, offset: 0, value: Value::Known(Fr::zero()) },
            Event::AssignFixed { column: 2, offset: 0, value: Value::Known(Fr::zero()) },
            Event::AssignFixed { column: 3, offset: 0, value: Value::Known(Fr::one()) },
            Event::AssignFixed { column: 0, offset: 0, value: Value::Known(Fr::one()) },
        ]
    );
}

#[test]
fn raw_add_sets_the_three_linear_selectors() {
    let chip = standard_chip();
    let mut assembly = Assembly::new();
    let cells = chip.raw_add(&mut assembly, 4, Value::Unknown);
    assert_eq!(cells, (advice(0, 4), advice(1, 4), advice(2, 4)));
    assert_eq!(
        events(&assembly),
        vec![
            Event::AssignAdvice { column: 0, offset: 4, value: Value::Unknown },
            Event::AssignAdvice { column: 1, offset: 4, value: Value::Unknown },
            Event::AssignAdvice { column: 2, offset: 4, value: Value::Unknown },
            Event::AssignFixed { column: 1, offset: 4, value: Value::Known(Fr::one()) },
            Event::AssignFixed { column: 2, offset: 4, value: Value::Known(Fr::one()) },
            Event::AssignFixed { column: 3, offset: 4, value: Value::Known(Fr::one()) },
            Event::AssignFixed { column: 0, offset: 4, value: Value::Known(Fr::zero()) },
        ]
    );
}

#[test]
fn copy_records_one_constraint_between_two_cells() {
    let chip = standard_chip();
    let mut assembly = Assembly::new();
    chip.copy(&mut assembly, advice(0, 1), advice(2, 5));
    assert_eq!(events(&assembly), vec![Event::Copy { lhs: advice(0, 1), rhs: advice(2, 5) }]);
}

#[test]
fn the_recording_sink_keeps_every_call_in_order() {
    let mut assembly = Assembly::new();
    assert_eq!(assembly.len(), 0);
    assert_eq!(assembly.event(0), None);
    assembly.enable_selector(3);
    assert_eq!(assembly.query_instance(1, 2), Value::Unknown);
    assembly.fill_from_row(2, 7, Value::Known(Fr::one()));
    assembly.copy(
        Column { column_type: Any::Advice, index: 0 },
        1,
        Column { column_type: Any::Instance, index: 0 },
        0,
    );
    assert_eq!(
        events(&assembly),
        vec![
            Event::EnableSelector { offset: 3 },
            Event::QueryInstance { column: 1, offset: 2 },
            Event::FillFromRow { column: 2, offset: 7, value: Value::Known(Fr::one()) },
            Event::Copy {
                lhs: advice(0, 1),
                rhs: Cell { column: Column { column_type: Any::Instance, index: 0 }, row: 0 },
            },
        ]
    );
    assert_eq!(assembly.event(4), None);
}
