//! The translator: a circuit with the values of its witnesses, and what it
//! asks of the backend.

use crate::constrains::{bitwise_plan, ecdsa_plan, range_plan, staged_triple};
use crate::errors::{Error, StructuralError};
use crate::field::{FieldElement, Fp, Fq, Fr};
use crate::halo2_plonk_api::{
    assemble, poly_events, row_cells, PlonkConfig, PolyTriple, StandardCs, StandardPlonk,
};
use crate::native_types::{
    lookup, BlackBoxFuncCall, Circuit, Expression, Opcode, Witness, WitnessMap,
};
use crate::plonk::{
    connected, copies, lemma_connected_grows, lemma_connected_is_equivalence, lemma_copies_push,
    lemma_max_offset_after, max_offset, touches, Any, Assignment, Cell, Event,
};
use std::collections::HashMap;
use vstd::prelude::*;

verus! {

/// A circuit and the values of its witnesses. Nothing in it changes between
/// the sizing pass and the proving pass.
#[derive(Clone, Debug, PartialEq, Eq)]
pub struct NoirHalo2Translator {
    pub circuit: Circuit,
    pub witness_values: WitnessMap,
}

impl NoirHalo2Translator {
    pub fn new(circuit: Circuit, witness_values: WitnessMap) -> (translator: NoirHalo2Translator)
        ensures
            translator.circuit == circuit,
            translator.witness_values == witness_values,
    {
        NoirHalo2Translator { circuit, witness_values }
    }
}

/// A call of the range sub-chip: `value` is decomposed into limbs of
/// `limb_bit_len` bits, `bit_len` bits in all.
#[derive(Clone, Copy, Debug, PartialEq, Eq)]
pub struct RangeAssignment {
    pub value: Fr,
    pub limb_bit_len: usize,
    pub bit_len: usize,
}

/// A call of the ECDSA gadget: the signature `(r, s)`, the message hash and
/// the public key, which is a point of the curve.
#[derive(Clone, Copy, Debug, PartialEq, Eq)]
pub struct EcdsaAssignment {
    pub r: Fq,
    pub s: Fq,
    pub msg_hash: Fq,
    pub public_key_x: Fp,
    pub public_key_y: Fp,
}

/// One thing the translator asks of the backend.
#[derive(Clone, Copy, Debug, PartialEq, Eq)]
pub enum Instruction {
    /// One row of the custom gate. `wires` names the witness that each of
    /// the three wires carries, zero for a wire that carries none.
    Gate { wires: (u32, u32, u32), triple: PolyTriple<Fr> },
    Range(RangeAssignment),
    Ecdsa(EcdsaAssignment),
}

/// What one opcode asks of the backend.
///
/// An arithmetic opcode asks for one row; a range opcode for one range
/// check, or for nothing where its width is zero; a bitwise opcode for two
/// range checks and a row for each bit; an ECDSA opcode for one gadget
/// call; a directive for nothing. Any other opcode is an error that names
/// it.
pub open spec fn opcode_plan(opcode: Opcode, values: Seq<(Witness, FieldElement)>) -> Result<
    Seq<Instruction>,
    Error,
> {
    match opcode {
        Opcode::Arithmetic(gate) => match assemble(gate) {
            Ok(row) => Ok(
                seq![
                    Instruction::Gate {
                        wires: (row.a, row.b, row.c),
                        triple: staged_triple(row, values),
                    },
                ],
            ),
            Err(e) => Err(Error::Structure(e)),
        },
        Opcode::BlackBoxFuncCall(call) => match call {
            BlackBoxFuncCall::RANGE { input, num_bits } => if num_bits == 0 {
                Ok(Seq::empty())
            } else {
                match range_plan(input, num_bits, values) {
                    Ok(range) => Ok(seq![Instruction::Range(range)]),
                    Err(e) => Err(e),
                }
            },
            BlackBoxFuncCall::AND { lhs, rhs, output, num_bits } => bitwise_plan(
                lhs,
                rhs,
                output,
                num_bits,
                false,
                values,
            ),
            BlackBoxFuncCall::XOR { lhs, rhs, output, num_bits } => bitwise_plan(
                lhs,
                rhs,
                output,
                num_bits,
                true,
                values,
            ),
            BlackBoxFuncCall::EcdsaSecp256k1 {
                public_key_x,
                public_key_y,
                signature,
                hashed_message,
            } => match ecdsa_plan(
                hashed_message@,
                signature@,
                public_key_x@,
                public_key_y@,
                values,
            ) {
                Ok(ecdsa) => Ok(seq![Instruction::Ecdsa(ecdsa)]),
                Err(e) => Err(e),
            },
        },
        Opcode::Directive => Ok(Seq::empty()),
        Opcode::Unsupported(name) => Err(
            Error::Structure(StructuralError::UnsupportedOpcode(name)),
        ),
    }
}

/// What a sequence of opcodes asks of the backend, in program order, or the
/// error of the first opcode that has one.
pub open spec fn circuit_plan(opcodes: Seq<Opcode>, values: Seq<(Witness, FieldElement)>) -> Result<
    Seq<Instruction>,
    Error,
>
    decreases opcodes.len(),
{
    if opcodes.len() == 0 {
        Ok(Seq::empty())
    } else {
        match circuit_plan(opcodes.drop_last(), values) {
            Err(e) => Err(e),
            Ok(before) => match opcode_plan(opcodes.last(), values) {
                Err(e) => Err(e),
                Ok(these) => Ok(before + these),
            },
        }
    }
}

/// Once an opcode has failed, the opcodes after it change nothing.
pub proof fn lemma_plan_error_extends(
    opcodes: Seq<Opcode>,
    values: Seq<(Witness, FieldElement)>,
    upto: int,
)
    requires
        0 <= upto <= opcodes.len(),
        circuit_plan(opcodes.take(upto), values) is Err,
    ensures
        circuit_plan(opcodes, values) == circuit_plan(opcodes.take(upto), values),
    decreases opcodes.len() - upto,
{
    if upto == opcodes.len() {
        assert(opcodes.take(upto) =~= opcodes);
    } else {
        assert(opcodes.take(upto + 1).drop_last() =~= opcodes.take(upto));
        lemma_plan_error_extends(opcodes, values, upto + 1);
    }
}

/// The events after a wire that carries `witness` is placed in `cell`: the
/// first cell of a witness is remembered, and every later one is copied
/// from it.
pub open spec fn link_events(
    events: Seq<Event>,
    anchors: Map<u32, Cell>,
    witness: u32,
    cell: Cell,
) -> Seq<Event> {
    if witness != 0 && anchors.contains_key(witness) {
        events.push(Event::Copy { lhs: anchors[witness], rhs: cell })
    } else {
        events
    }
}

/// The first cells of the witnesses after a wire that carries `witness` is
/// placed in `cell`.
pub open spec fn link_anchors(anchors: Map<u32, Cell>, witness: u32, cell: Cell) -> Map<
    u32,
    Cell,
> {
    if witness != 0 && !anchors.contains_key(witness) {
        anchors.insert(witness, cell)
    } else {
        anchors
    }
}

/// The table as it grows: the events so far, the number of rows, and the
/// first cell of each witness.
pub struct Layout {
    pub events: Seq<Event>,
    pub rows: nat,
    pub anchors: Map<u32, Cell>,
}

/// The layout after one more row: its three wires are assigned, then its
/// five selectors, then the copy constraints of its wires are recorded,
/// wire `a` first.
pub open spec fn place_row(
    config: PlonkConfig,
    layout: Layout,
    wires: (u32, u32, u32),
    triple: PolyTriple<Fr>,
) -> Layout {
    let row = layout.rows as usize;
    let cells = row_cells(config, row);
    let events0 = layout.events + poly_events(config, row, triple);
    let events1 = link_events(events0, layout.anchors, wires.0, cells.0);
    let anchors1 = link_anchors(layout.anchors, wires.0, cells.0);
    let events2 = link_events(events1, anchors1, wires.1, cells.1);
    let anchors2 = link_anchors(anchors1, wires.1, cells.1);
    let events3 = link_events(events2, anchors2, wires.2, cells.2);
    let anchors3 = link_anchors(anchors2, wires.2, cells.2);
    Layout { events: events3, rows: layout.rows + 1, anchors: anchors3 }
}

/// The layout of a plan: each row instruction takes the next row, in plan
/// order; a gadget call takes no row of this table.
pub open spec fn lay_out(config: PlonkConfig, plan: Seq<Instruction>) -> Layout
    decreases plan.len(),
{
    if plan.len() == 0 {
        Layout { events: Seq::empty(), rows: 0, anchors: Map::empty() }
    } else {
        let before = lay_out(config, plan.drop_last());
        match plan.last() {
            Instruction::Gate { wires, triple } => place_row(config, before, wires, triple),
            _ => before,
        }
    }
}

/// The wires placed so far, each with its cell, after one more wire that
/// carries `witness` is placed in `cell`. A wire that carries no witness is
/// left out.
pub open spec fn add_wire(wires: Seq<(Cell, u32)>, witness: u32, cell: Cell) -> Seq<(Cell, u32)> {
    if witness != 0 {
        wires.push((cell, witness))
    } else {
        wires
    }
}

/// The cells of a layout that carry a witness, each with its witness, in
/// the order in which they were placed.
pub open spec fn wire_cells(config: PlonkConfig, plan: Seq<Instruction>) -> Seq<(Cell, u32)>
    decreases plan.len(),
{
    if plan.len() == 0 {
        Seq::empty()
    } else {
        let before = wire_cells(config, plan.drop_last());
        match plan.last() {
            Instruction::Gate { wires, triple } => {
                let row = lay_out(config, plan.drop_last()).rows as usize;
                let cells = row_cells(config, row);
                add_wire(
                    add_wire(add_wire(before, wires.0, cells.0), wires.1, cells.1),
                    wires.2,
                    cells.2,
                )
            },
            _ => before,
        }
    }
}

/// Every wire placed so far is connected to the first cell of its witness.
pub open spec fn anchored(
    constraints: Seq<(Cell, Cell)>,
    anchors: Map<u32, Cell>,
    wires: Seq<(Cell, u32)>,
) -> bool {
    forall|i: int|
        0 <= i < wires.len() ==> anchors.contains_key((#[trigger] wires[i]).1) && connected(
            constraints,
            wires[i].0,
            anchors[wires[i].1],
        )
}

/// Placing one more wire keeps every wire connected to the first cell of
/// its witness.
proof fn lemma_link_keeps_anchored(
    events: Seq<Event>,
    anchors: Map<u32, Cell>,
    wires: Seq<(Cell, u32)>,
    witness: u32,
    cell: Cell,
)
    requires
        anchored(copies(events), anchors, wires),
    ensures
        anchored(
            copies(link_events(events, anchors, witness, cell)),
            link_anchors(anchors, witness, cell),
            add_wire(wires, witness, cell),
        ),
{
    let after_events = link_events(events, anchors, witness, cell);
    let after_anchors = link_anchors(anchors, witness, cell);
    let after_wires = add_wire(wires, witness, cell);
    if witness != 0 {
        if anchors.contains_key(witness) {
            let anchor = anchors[witness];
            lemma_copies_push(events, Event::Copy { lhs: anchor, rhs: cell });
            lemma_connected_grows(copies(events), anchor, cell);
            lemma_connected_is_equivalence(copies(after_events));
            assert forall|i: int| 0 <= i < after_wires.len() implies after_anchors.contains_key(
                (#[trigger] after_wires[i]).1,
            ) && connected(copies(after_events), after_wires[i].0, after_anchors[after_wires[i].1]) by {
                if i < wires.len() {
                    assert(after_wires[i] == wires[i]);
                    assert(connected(copies(events), wires[i].0, anchors[wires[i].1]));
                } else {
                    assert(connected(copies(after_events), anchor, cell));
                }
            }
        } else {
            lemma_connected_is_equivalence(copies(events));
            assert forall|i: int| 0 <= i < after_wires.len() implies after_anchors.contains_key(
                (#[trigger] after_wires[i]).1,
            ) && connected(copies(after_events), after_wires[i].0, after_anchors[after_wires[i].1]) by {
                if i < wires.len() {
                    assert(after_wires[i] == wires[i]);
                    assert(anchors.contains_key(wires[i].1));
                } else {
                    assert(connected(copies(events), cell, cell));
                }
            }
        }
    }
}

/// The assignments of a row add no copy constraint.
proof fn lemma_poly_events_add_no_copy(
    events: Seq<Event>,
    config: PlonkConfig,
    row: usize,
    triple: PolyTriple<Fr>,
)
    ensures
        copies(events + poly_events(config, row, triple)) == copies(events),
{
    let more = poly_events(config, row, triple);
    let e1 = events.push(more[0]);
    let e2 = e1.push(more[1]);
    let e3 = e2.push(more[2]);
    let e4 = e3.push(more[3]);
    let e5 = e4.push(more[4]);
    let e6 = e5.push(more[5]);
    let e7 = e6.push(more[6]);
    let e8 = e7.push(more[7]);
    assert(e8 =~= events + more);
    lemma_copies_push(events, more[0]);
    lemma_copies_push(e1, more[1]);
    lemma_copies_push(e2, more[2]);
    lemma_copies_push(e3, more[3]);
    lemma_copies_push(e4, more[4]);
    lemma_copies_push(e5, more[5]);
    lemma_copies_push(e6, more[6]);
    lemma_copies_push(e7, more[7]);
}

/// In the layout of a plan every wire is connected to the first cell of its
/// witness.
pub proof fn lemma_layout_anchored(config: PlonkConfig, plan: Seq<Instruction>)
    ensures
        anchored(
            copies(lay_out(config, plan).events),
            lay_out(config, plan).anchors,
            wire_cells(config, plan),
        ),
    decreases plan.len(),
{
    if plan.len() > 0 {
        let before = lay_out(config, plan.drop_last());
        let wires_before = wire_cells(config, plan.drop_last());
        lemma_layout_anchored(config, plan.drop_last());
        match plan.last() {
            Instruction::Gate { wires, triple } => {
                let row = before.rows as usize;
                let cells = row_cells(config, row);
                let events0 = before.events + poly_events(config, row, triple);
                lemma_poly_events_add_no_copy(before.events, config, row, triple);
                lemma_link_keeps_anchored(events0, before.anchors, wires_before, wires.0, cells.0);
                let events1 = link_events(events0, before.anchors, wires.0, cells.0);
                let anchors1 = link_anchors(before.anchors, wires.0, cells.0);
                let wires1 = add_wire(wires_before, wires.0, cells.0);
                lemma_link_keeps_anchored(events1, anchors1, wires1, wires.1, cells.1);
                let events2 = link_events(events1, anchors1, wires.1, cells.1);
                let anchors2 = link_anchors(anchors1, wires.1, cells.1);
                let wires2 = add_wire(wires1, wires.1, cells.1);
                lemma_link_keeps_anchored(events2, anchors2, wires2, wires.2, cells.2);
            },
            _ => {},
        }
    }
}

/// Two cells of a layout that carry the same witness are connected by the
/// copy constraints that the layout records.
pub proof fn lemma_same_witness_connected(
    config: PlonkConfig,
    plan: Seq<Instruction>,
    i: int,
    j: int,
)
    requires
        0 <= i < wire_cells(config, plan).len(),
        0 <= j < wire_cells(config, plan).len(),
        wire_cells(config, plan)[i].1 == wire_cells(config, plan)[j].1,
    ensures
        connected(
            copies(lay_out(config, plan).events),
            wire_cells(config, plan)[i].0,
            wire_cells(config, plan)[j].0,
        ),
{
    let layout = lay_out(config, plan);
    let wires = wire_cells(config, plan);
    lemma_layout_anchored(config, plan);
    lemma_connected_is_equivalence(copies(layout.events));
    let anchor = layout.anchors[wires[i].1];
    assert(connected(copies(layout.events), wires[i].0, anchor));
    assert(connected(copies(layout.events), wires[j].0, anchor));
    assert(connected(copies(layout.events), anchor, wires[j].0));
}

/// Whether two cells are wires of one witness.
pub open spec fn joins_one_witness(wires: Seq<(Cell, u32)>, l: Cell, r: Cell) -> bool {
    exists|witness: u32| #[trigger] wires.contains((l, witness)) && wires.contains((r, witness))
}

/// Every first cell is a wire of its witness, and the two ends of every
/// copy constraint are wires of one witness.
pub open spec fn sourced(
    constraints: Seq<(Cell, Cell)>,
    anchors: Map<u32, Cell>,
    wires: Seq<(Cell, u32)>,
) -> bool {
    &&& forall|witness: u32| #[trigger]
        anchors.contains_key(witness) ==> wires.contains((anchors[witness], witness))
    &&& forall|k: int|
        0 <= k < constraints.len() ==> joins_one_witness(
            wires,
            (#[trigger] constraints[k]).0,
            constraints[k].1,
        )
}

/// A wire that was placed stays placed when one more is.
proof fn lemma_wire_stays(wires: Seq<(Cell, u32)>, witness: u32, cell: Cell, wire: (Cell, u32))
    requires
        wires.contains(wire),
    ensures
        add_wire(wires, witness, cell).contains(wire),
{
    let i = choose|i: int| 0 <= i < wires.len() && wires[i] == wire;
    if witness != 0 {
        assert(wires.push((cell, witness))[i] == wire);
    }
}

/// Placing one more wire keeps every copy constraint between wires of one
/// witness.
proof fn lemma_link_keeps_sourced(
    events: Seq<Event>,
    anchors: Map<u32, Cell>,
    wires: Seq<(Cell, u32)>,
    witness: u32,
    cell: Cell,
)
    requires
        sourced(copies(events), anchors, wires),
    ensures
        sourced(
            copies(link_events(events, anchors, witness, cell)),
            link_anchors(anchors, witness, cell),
            add_wire(wires, witness, cell),
        ),
{
    let before = copies(events);
    let after = copies(link_events(events, anchors, witness, cell));
    let after_anchors = link_anchors(anchors, witness, cell);
    let after_wires = add_wire(wires, witness, cell);
    if witness != 0 {
        assert(after_wires[wires.len() as int] == (cell, witness));
        assert(after_wires.contains((cell, witness)));
        if anchors.contains_key(witness) {
            lemma_copies_push(events, Event::Copy { lhs: anchors[witness], rhs: cell });
        }
    }
    assert forall|w: u32| #[trigger] after_anchors.contains_key(w) implies after_wires.contains(
        (after_anchors[w], w),
    ) by {
        if anchors.contains_key(w) {
            lemma_wire_stays(wires, witness, cell, (anchors[w], w));
        }
    }
    assert forall|k: int| 0 <= k < after.len() implies joins_one_witness(
        after_wires,
        (#[trigger] after[k]).0,
        after[k].1,
    ) by {
        if k < before.len() {
            assert(after[k] == before[k]);
            assert(joins_one_witness(wires, before[k].0, before[k].1));
            let w = choose|w: u32| #[trigger]
                wires.contains((before[k].0, w)) && wires.contains((before[k].1, w));
            lemma_wire_stays(wires, witness, cell, (before[k].0, w));
            lemma_wire_stays(wires, witness, cell, (before[k].1, w));
        } else {
            lemma_wire_stays(wires, witness, cell, (anchors[witness], witness));
        }
    }
}

/// In the layout of a plan the two ends of every copy constraint are wires
/// of one witness.
pub proof fn lemma_layout_sourced(config: PlonkConfig, plan: Seq<Instruction>)
    ensures
        sourced(
            copies(lay_out(config, plan).events),
            lay_out(config, plan).anchors,
            wire_cells(config, plan),
        ),
    decreases plan.len(),
{
    if plan.len() > 0 {
        let before = lay_out(config, plan.drop_last());
        let wires_before = wire_cells(config, plan.drop_last());
        lemma_layout_sourced(config, plan.drop_last());
        match plan.last() {
            Instruction::Gate { wires, triple } => {
                let row = before.rows as usize;
                let cells = row_cells(config, row);
                let events0 = before.events + poly_events(config, row, triple);
                lemma_poly_events_add_no_copy(before.events, config, row, triple);
                lemma_link_keeps_sourced(events0, before.anchors, wires_before, wires.0, cells.0);
                let events1 = link_events(events0, before.anchors, wires.0, cells.0);
                let anchors1 = link_anchors(before.anchors, wires.0, cells.0);
                let wires1 = add_wire(wires_before, wires.0, cells.0);
                lemma_link_keeps_sourced(events1, anchors1, wires1, wires.1, cells.1);
                let events2 = link_events(events1, anchors1, wires.1, cells.1);
                let anchors2 = link_anchors(anchors1, wires.1, cells.1);
                let wires2 = add_wire(wires1, wires.1, cells.1);
                lemma_link_keeps_sourced(events2, anchors2, wires2, wires.2, cells.2);
            },
            _ => {},
        }
    }
}

/// The number of rows that a plan takes in the table: one for each row
/// instruction.
pub open spec fn gate_rows(plan: Seq<Instruction>) -> nat
    decreases plan.len(),
{
    if plan.len() == 0 {
        0
    } else {
        gate_rows(plan.drop_last()) + match plan.last() {
            Instruction::Gate { wires, triple } => 1nat,
            _ => 0nat,
        }
    }
}

/// The last row that a plan takes, zero where it takes none.
pub open spec fn last_row(plan: Seq<Instruction>) -> nat {
    if gate_rows(plan) == 0 {
        0
    } else {
        (gate_rows(plan) - 1) as nat
    }
}

/// The largest offset of `class` after the eight assignments of a row.
proof fn lemma_reach_after_row(
    events: Seq<Event>,
    config: PlonkConfig,
    row: usize,
    triple: PolyTriple<Fr>,
    class: Any,
)
    ensures
        max_offset(touches(events + poly_events(config, row, triple)), class) == if class
            != Any::Instance && row > max_offset(touches(events), class) {
            row as nat
        } else {
            max_offset(touches(events), class)
        },
{
    let more = poly_events(config, row, triple);
    let e1 = events.push(more[0]);
    let e2 = e1.push(more[1]);
    let e3 = e2.push(more[2]);
    let e4 = e3.push(more[3]);
    let e5 = e4.push(more[4]);
    let e6 = e5.push(more[5]);
    let e7 = e6.push(more[6]);
    let e8 = e7.push(more[7]);
    assert(e8 =~= events + more);
    lemma_max_offset_after(events, more[0], class);
    lemma_max_offset_after(e1, more[1], class);
    lemma_max_offset_after(e2, more[2], class);
    lemma_max_offset_after(e3, more[3], class);
    lemma_max_offset_after(e4, more[4], class);
    lemma_max_offset_after(e5, more[5], class);
    lemma_max_offset_after(e6, more[6], class);
    lemma_max_offset_after(e7, more[7], class);
}

/// Every first cell is an advice cell of a row that the table has.
pub open spec fn anchors_within(anchors: Map<u32, Cell>, rows: nat) -> bool {
    forall|witness: u32| #[trigger]
        anchors.contains_key(witness) ==> anchors[witness].column.column_type == Any::Advice
            && anchors[witness].row < rows
}

/// Placing a wire of a row that the table has reaches no new offset.
proof fn lemma_reach_after_link(
    events: Seq<Event>,
    anchors: Map<u32, Cell>,
    witness: u32,
    cell: Cell,
    rows: nat,
    class: Any,
)
    requires
        anchors_within(anchors, rows),
        cell.column.column_type == Any::Advice,
        cell.row < rows,
        max_offset(touches(events), Any::Advice) == rows - 1,
    ensures
        anchors_within(link_anchors(anchors, witness, cell), rows),
        max_offset(touches(link_events(events, anchors, witness, cell)), class) == max_offset(
            touches(events),
            class,
        ),
{
    if witness != 0 && anchors.contains_key(witness) {
        lemma_max_offset_after(events, Event::Copy { lhs: anchors[witness], rhs: cell }, class);
    }
}

/// The layout of a plan takes one row for each row instruction, from row
/// zero; it reaches no instance cell, and in the advice and in the fixed
/// columns it reaches its last row and no further.
pub proof fn lemma_layout_reach(config: PlonkConfig, plan: Seq<Instruction>)
    requires
        plan.len() <= usize::MAX,
    ensures
        lay_out(config, plan).rows == gate_rows(plan),
        gate_rows(plan) <= plan.len(),
        anchors_within(lay_out(config, plan).anchors, gate_rows(plan)),
        max_offset(touches(lay_out(config, plan).events), Any::Instance) == 0,
        max_offset(touches(lay_out(config, plan).events), Any::Advice) == last_row(plan),
        max_offset(touches(lay_out(config, plan).events), Any::Fixed) == last_row(plan),
    decreases plan.len(),
{
    if plan.len() > 0 {
        let before = lay_out(config, plan.drop_last());
        lemma_layout_reach(config, plan.drop_last());
        match plan.last() {
            Instruction::Gate { wires, triple } => {
                let row = before.rows as usize;
                let rows = before.rows + 1;
                let cells = row_cells(config, row);
                let events0 = before.events + poly_events(config, row, triple);
                lemma_reach_after_row(before.events, config, row, triple, Any::Instance);
                lemma_reach_after_row(before.events, config, row, triple, Any::Advice);
                lemma_reach_after_row(before.events, config, row, triple, Any::Fixed);
                let anchors0 = before.anchors;
                assert(anchors_within(anchors0, rows));
                lemma_reach_after_link(events0, anchors0, wires.0, cells.0, rows, Any::Instance);
                lemma_reach_after_link(events0, anchors0, wires.0, cells.0, rows, Any::Advice);
                lemma_reach_after_link(events0, anchors0, wires.0, cells.0, rows, Any::Fixed);
                let events1 = link_events(events0, anchors0, wires.0, cells.0);
                let anchors1 = link_anchors(anchors0, wires.0, cells.0);
                lemma_reach_after_link(events1, anchors1, wires.1, cells.1, rows, Any::Instance);
                lemma_reach_after_link(events1, anchors1, wires.1, cells.1, rows, Any::Advice);
                lemma_reach_after_link(events1, anchors1, wires.1, cells.1, rows, Any::Fixed);
                let events2 = link_events(events1, anchors1, wires.1, cells.1);
                let anchors2 = link_anchors(anchors1, wires.1, cells.1);
                lemma_reach_after_link(events2, anchors2, wires.2, cells.2, rows, Any::Instance);
                lemma_reach_after_link(events2, anchors2, wires.2, cells.2, rows, Any::Advice);
                lemma_reach_after_link(events2, anchors2, wires.2, cells.2, rows, Any::Fixed);
            },
            _ => {},
        }
    }
}

/// A sizing pass and a proving pass that write the layout of one plan into
/// sinks that have seen the same events see the same events afterwards, and
/// so visit the same multiset of column class and offset.
pub proof fn lemma_passes_visit_same_cells<D: Assignment, R: Assignment>(
    dry_before: D,
    dry_after: D,
    real_before: R,
    real_after: R,
    config: PlonkConfig,
    plan: Seq<Instruction>,
)
    requires
        dry_before.events() == real_before.events(),
        dry_after.events() == dry_before.events() + lay_out(config, plan).events,
        real_after.events() == real_before.events() + lay_out(config, plan).events,
    ensures
        dry_after.events() == real_after.events(),
        touches(dry_after.events()).to_multiset() == touches(real_after.events()).to_multiset(),
{
}

/// Records the copy constraint of one wire, or remembers its cell.
fn link_wire<S: Assignment>(
    chip: &StandardPlonk,
    layouter: &mut S,
    anchors: &mut HashMap<u32, Cell>,
    witness: u32,
    cell: Cell,
)
    requires
        old(layouter).inv(),
    ensures
        final(layouter).inv(),
        final(layouter).events() == link_events(
            old(layouter).events(),
            old(anchors)@,
            witness,
            cell,
        ),
        final(anchors)@ == link_anchors(old(anchors)@, witness, cell),
{
    broadcast use vstd::std_specs::hash::group_hash_axioms;

    if witness != 0 {
        let anchor = match anchors.get(&witness) {
            Some(anchor) => Some(*anchor),
            None => None,
        };
        match anchor {
            Some(anchor) => {
                chip.copy(layouter, anchor, cell);
            },
            None => {
                anchors.insert(witness, cell);
            },
        }
    }
}

/// Writes the rows of a plan into a sink, one row after another from row
/// zero, with the copy constraints of their wires.
pub fn emit<S: Assignment>(plan: &Vec<Instruction>, config: PlonkConfig, layouter: &mut S)
    requires
        old(layouter).inv(),
    ensures
        final(layouter).inv(),
        final(layouter).events() == old(layouter).events() + lay_out(config, plan@).events,
{
    let chip = StandardPlonk::new(config);
    let mut anchors: HashMap<u32, Cell> = HashMap::new();
    let mut row: usize = 0;
    let mut i: usize = 0;
    let ghost start = layouter.events();
    proof {
        assert(plan@.take(0) =~= Seq::<Instruction>::empty());
        assert(layouter.events() =~= start + lay_out(config, plan@.take(0)).events);
        assert(anchors@ =~= Map::<u32, Cell>::empty());
    }
    while i < plan.len()
        invariant
            i <= plan.len(),
            chip.config == config,
            layouter.inv(),
            layouter.events() == start + lay_out(config, plan@.take(i as int)).events,
            row == lay_out(config, plan@.take(i as int)).rows,
            row <= i,
            anchors@ == lay_out(config, plan@.take(i as int)).anchors,
        decreases plan.len() - i,
    {
        let ghost before = lay_out(config, plan@.take(i as int));
        proof {
            assert(plan@.take(i + 1).drop_last() =~= plan@.take(i as int));
            assert(plan@.take(i + 1).last() == plan@[i as int]);
        }
        match plan[i] {
            Instruction::Gate { wires, triple } => {
                let cells = chip.raw_poly(layouter, row, triple);
                proof {
                    assert(layouter.events() =~= start + (before.events + poly_events(
                        config,
                        row,
                        triple,
                    )));
                }
                let ghost events0 = before.events + poly_events(config, row, triple);
                let ghost anchors0 = anchors@;
                link_wire(&chip, layouter, &mut anchors, wires.0, cells.0);
                let ghost events1 = link_events(events0, anchors0, wires.0, cells.0);
                let ghost anchors1 = anchors@;
                proof {
                    assert(layouter.events() =~= start + events1);
                }
                link_wire(&chip, layouter, &mut anchors, wires.1, cells.1);
                let ghost events2 = link_events(events1, anchors1, wires.1, cells.1);
                let ghost anchors2 = anchors@;
                proof {
                    assert(layouter.events() =~= start + events2);
                }
                link_wire(&chip, layouter, &mut anchors, wires.2, cells.2);
                proof {
                    let events3 = link_events(events2, anchors2, wires.2, cells.2);
                    assert(layouter.events() =~= start + events3);
                }
                row = row + 1;
            },
            _ => {},
        }
        i = i + 1;
    }
    proof {
        assert(plan@.take(i as int) =~= plan@);
    }
}

/// Whether every witness of a sequence has a value.
pub open spec fn all_present(witnesses: Seq<Witness>, values: Seq<(Witness, FieldElement)>) -> bool {
    forall|i: int| 0 <= i < witnesses.len() ==> lookup(values, #[trigger] witnesses[i]) is Some
}

/// Whether every witness that an expression names has a value.
pub open spec fn expression_defined(gate: Expression, values: Seq<(Witness, FieldElement)>) -> bool {
    &&& forall|i: int|
        0 <= i < gate.mul_terms@.len() ==> lookup(values, (#[trigger] gate.mul_terms@[i]).1) is Some
            && lookup(values, gate.mul_terms@[i].2) is Some
    &&& forall|i: int|
        0 <= i < gate.linear_combinations@.len() ==> lookup(
            values,
            (#[trigger] gate.linear_combinations@[i]).1,
        ) is Some
}

/// Whether every witness that an opcode names has a value. A directive and
/// an opcode without translation name none.
pub open spec fn opcode_defined(opcode: Opcode, values: Seq<(Witness, FieldElement)>) -> bool {
    match opcode {
        Opcode::Arithmetic(gate) => expression_defined(gate, values),
        Opcode::BlackBoxFuncCall(call) => match call {
            BlackBoxFuncCall::RANGE { input, num_bits } => lookup(values, input) is Some,
            BlackBoxFuncCall::AND { lhs, rhs, output, num_bits } => lookup(values, lhs) is Some
                && lookup(values, rhs) is Some && lookup(values, output) is Some,
            BlackBoxFuncCall::XOR { lhs, rhs, output, num_bits } => lookup(values, lhs) is Some
                && lookup(values, rhs) is Some && lookup(values, output) is Some,
            BlackBoxFuncCall::EcdsaSecp256k1 {
                public_key_x,
                public_key_y,
                signature,
                hashed_message,
            } => all_present(public_key_x@, values) && all_present(public_key_y@, values)
                && all_present(signature@, values) && all_present(hashed_message@, values),
        },
        Opcode::Directive => true,
        Opcode::Unsupported(name) => true,
    }
}

/// Whether the witness values satisfy an opcode as far as its expression
/// says: an arithmetic opcode is satisfied where its expression is zero;
/// every other opcode makes no such claim.
pub open spec fn opcode_satisfied(opcode: Opcode, values: Seq<(Witness, FieldElement)>) -> bool {
    match opcode {
        Opcode::Arithmetic(gate) => gate.value(values) == 0,
        _ => true,
    }
}

impl NoirHalo2Translator {
    /// What the circuit asks of the backend under its witness values.
    pub open spec fn plan(&self) -> Result<Seq<Instruction>, Error> {
        circuit_plan(self.circuit.opcodes@, self.witness_values@)
    }

    /// Whether each of `witnesses` has a value.
    fn all_present(&self, witnesses: &Vec<Witness>) -> (present: bool)
        ensures
            present == all_present(witnesses@, self.witness_values@),
    {
        let mut i: usize = 0;
        while i < witnesses.len()
            invariant
                i <= witnesses.len(),
                forall|j: int|
                    0 <= j < i ==> lookup(self.witness_values@, #[trigger] witnesses@[j]) is Some,
            decreases witnesses.len() - i,
        {
            if self.witness_values.get(&witnesses[i]).is_none() {
                return false;
            }
            i = i + 1;
        }
        true
    }

    /// Whether every witness that `gate` names has a value.
    fn expression_defined(&self, gate: &Expression) -> (defined: bool)
        ensures
            defined == expression_defined(*gate, self.witness_values@),
    {
        let mut i: usize = 0;
        while i < gate.mul_terms.len()
            invariant
                i <= gate.mul_terms.len(),
                forall|j: int|
                    0 <= j < i ==> lookup(
                        self.witness_values@,
                        (#[trigger] gate.mul_terms@[j]).1,
                    ) is Some && lookup(self.witness_values@, gate.mul_terms@[j].2) is Some,
            decreases gate.mul_terms.len() - i,
        {
            let term = gate.mul_terms[i];
            if self.witness_values.get(&term.1).is_none() || self.witness_values.get(
                &term.2,
            ).is_none() {
                return false;
            }
            i = i + 1;
        }
        let mut i: usize = 0;
        while i < gate.linear_combinations.len()
            invariant
                i <= gate.linear_combinations.len(),
                forall|j: int|
                    0 <= j < gate.mul_terms@.len() ==> lookup(
                        self.witness_values@,
                        (#[trigger] gate.mul_terms@[j]).1,
                    ) is Some && lookup(self.witness_values@, gate.mul_terms@[j].2) is Some,
                forall|j: int|
                    0 <= j < i ==> lookup(
                        self.witness_values@,
                        (#[trigger] gate.linear_combinations@[j]).1,
                    ) is Some,
            decreases gate.linear_combinations.len() - i,
        {
            let term = gate.linear_combinations[i];
            if self.witness_values.get(&term.1).is_none() {
                return false;
            }
            i = i + 1;
        }
        true
    }

    /// Whether every witness that `opcode` names has a value.
    fn opcode_defined(&self, opcode: &Opcode) -> (defined: bool)
        ensures
            defined == opcode_defined(*opcode, self.witness_values@),
    {
        match opcode {
            Opcode::Arithmetic(gate) => self.expression_defined(gate),
            Opcode::BlackBoxFuncCall(call) => match call {
                BlackBoxFuncCall::RANGE { input, num_bits } => self.witness_values.get(
                    input,
                ).is_some(),
                BlackBoxFuncCall::AND { lhs, rhs, output, num_bits } => self.witness_values.get(
                    lhs,
                ).is_some() && self.witness_values.get(rhs).is_some() && self.witness_values.get(
                    output,
                ).is_some(),
                BlackBoxFuncCall::XOR { lhs, rhs, output, num_bits } => self.witness_values.get(
                    lhs,
                ).is_some() && self.witness_values.get(rhs).is_some() && self.witness_values.get(
                    output,
                ).is_some(),
                BlackBoxFuncCall::EcdsaSecp256k1 {
                    public_key_x,
                    public_key_y,
                    signature,
                    hashed_message,
                } => self.all_present(public_key_x) && self.all_present(public_key_y)
                    && self.all_present(signature) && self.all_present(hashed_message),
            },
            Opcode::Directive => true,
            Opcode::Unsupported(name) => true,
        }
    }

    /// Whether every witness that the circuit names has a value. Where one
    /// has none the translation still succeeds and reads it as zero.
    pub fn witnesses_defined(&self) -> (defined: bool)
        ensures
            defined == forall|i: int|
                0 <= i < self.circuit.opcodes@.len() ==> opcode_defined(
                    #[trigger] self.circuit.opcodes@[i],
                    self.witness_values@,
                ),
    {
        let mut i: usize = 0;
        while i < self.circuit.opcodes.len()
            invariant
                i <= self.circuit.opcodes.len(),
                forall|j: int|
                    0 <= j < i ==> opcode_defined(
                        #[trigger] self.circuit.opcodes@[j],
                        self.witness_values@,
                    ),
            decreases self.circuit.opcodes.len() - i,
        {
            if !self.opcode_defined(&self.circuit.opcodes[i]) {
                return false;
            }
            i = i + 1;
        }
        true
    }

    /// The position of the first arithmetic opcode whose expression is not
    /// zero under the witness values, or `None` where each is zero.
    pub fn first_unsatisfied(&self) -> (found: Option<usize>)
        ensures
            match found {
                Some(i) => {
                    &&& i < self.circuit.opcodes@.len()
                    &&& !opcode_satisfied(self.circuit.opcodes@[i as int], self.witness_values@)
                    &&& forall|j: int|
                        0 <= j < i ==> opcode_satisfied(
                            #[trigger] self.circuit.opcodes@[j],
                            self.witness_values@,
                        )
                },
                None => forall|j: int|
                    0 <= j < self.circuit.opcodes@.len() ==> opcode_satisfied(
                        #[trigger] self.circuit.opcodes@[j],
                        self.witness_values@,
                    ),
            },
    {
        let mut i: usize = 0;
        while i < self.circuit.opcodes.len()
            invariant
                i <= self.circuit.opcodes.len(),
                forall|j: int|
                    0 <= j < i ==> opcode_satisfied(
                        #[trigger] self.circuit.opcodes@[j],
                        self.witness_values@,
                    ),
            decreases self.circuit.opcodes.len() - i,
        {
            match &self.circuit.opcodes[i] {
                Opcode::Arithmetic(gate) => {
                    if !gate.evaluate(&self.witness_values).is_zero() {
                        return Some(i);
                    }
                },
                _ => {},
            }
            i = i + 1;
        }
        None
    }

    /// What one opcode asks of the backend.
    fn translate_opcode(&self, opcode: &Opcode) -> (res: Result<Vec<Instruction>, Error>)
        ensures
            match res {
                Ok(these) => opcode_plan(*opcode, self.witness_values@) == Ok::<
                    Seq<Instruction>,
                    Error,
                >(these@),
                Err(e) => opcode_plan(*opcode, self.witness_values@) == Err::<
                    Seq<Instruction>,
                    Error,
                >(e),
            },
    {
        let mut these: Vec<Instruction> = Vec::new();
        match opcode {
            Opcode::Arithmetic(gate) => {
                match self.add_arithmetic_constrains(gate) {
                    Ok((constraint, triple)) => {
                        these.push(
                            Instruction::Gate {
                                wires: (constraint.a, constraint.b, constraint.c),
                                triple,
                            },
                        );
                        assert(these@ =~= seq![
                            Instruction::Gate {
                                wires: (constraint.a, constraint.b, constraint.c),
                                triple,
                            },
                        ]);
                        Ok(these)
                    },
                    Err(e) => Err(e),
                }
            },
            Opcode::BlackBoxFuncCall(call) => {
                match call {
                    BlackBoxFuncCall::RANGE { input, num_bits } => {
                        if *num_bits == 0 {
                            assert(these@ =~= Seq::<Instruction>::empty());
                            Ok(these)
                        } else {
                            match self.add_range_constrain(*input, *num_bits) {
                                Ok(range) => {
                                    these.push(Instruction::Range(range));
                                    assert(these@ =~= seq![Instruction::Range(range)]);
                                    Ok(these)
                                },
                                Err(e) => Err(e),
                            }
                        }
                    },
                    BlackBoxFuncCall::AND { lhs, rhs, output, num_bits } => {
                        self.add_bitwise_constrain(*lhs, *rhs, *output, *num_bits, false)
                    },
                    BlackBoxFuncCall::XOR { lhs, rhs, output, num_bits } => {
                        self.add_bitwise_constrain(*lhs, *rhs, *output, *num_bits, true)
                    },
                    BlackBoxFuncCall::EcdsaSecp256k1 {
                        public_key_x,
                        public_key_y,
                        signature,
                        hashed_message,
                    } => {
                        match self._add_ecdsa_secp256k1_constrain(
                            hashed_message,
                            signature,
                            public_key_x,
                            public_key_y,
                        ) {
                            Ok(ecdsa) => {
                                these.push(Instruction::Ecdsa(ecdsa));
                                assert(these@ =~= seq![Instruction::Ecdsa(ecdsa)]);
                                Ok(these)
                            },
                            Err(e) => Err(e),
                        }
                    },
                }
            },
            Opcode::Directive => {
                assert(these@ =~= Seq::<Instruction>::empty());
                Ok(these)
            },
            Opcode::Unsupported(name) => Err(
                Error::Structure(StructuralError::UnsupportedOpcode(name.clone())),
            ),
        }
    }

    /// Translates the circuit in one pass in program order, and stops at
    /// the first opcode that fails.
    pub fn translate(&self) -> (res: Result<Vec<Instruction>, Error>)
        ensures
            match res {
                Ok(plan) => self.plan() == Ok::<Seq<Instruction>, Error>(plan@),
                Err(e) => self.plan() == Err::<Seq<Instruction>, Error>(e),
            },
    {
        let mut plan: Vec<Instruction> = Vec::new();
        let mut i: usize = 0;
        proof {
            assert(self.circuit.opcodes@.take(0) =~= Seq::<Opcode>::empty());
            assert(plan@ =~= Seq::<Instruction>::empty());
        }
        while i < self.circuit.opcodes.len()
            invariant
                i <= self.circuit.opcodes.len(),
                circuit_plan(self.circuit.opcodes@.take(i as int), self.witness_values@) == Ok::<
                    Seq<Instruction>,
                    Error,
                >(plan@),
            decreases self.circuit.opcodes.len() - i,
        {
            proof {
                assert(self.circuit.opcodes@.take(i + 1).drop_last() =~= self.circuit.opcodes@.take(
                    i as int,
                ));
                assert(self.circuit.opcodes@.take(i + 1).last() == self.circuit.opcodes@[i as int]);
            }
            match self.translate_opcode(&self.circuit.opcodes[i]) {
                Ok(mut these) => {
                    plan.append(&mut these);
                },
                Err(e) => {
                    proof {
                        lemma_plan_error_extends(
                            self.circuit.opcodes@,
                            self.witness_values@,
                            i + 1,
                        );
                    }
                    return Err(e);
                },
            }
            i = i + 1;
        }
        proof {
            assert(self.circuit.opcodes@.take(i as int) =~= self.circuit.opcodes@);
        }
        Ok(plan)
    }

    /// Translates the circuit and writes its rows into the sink. Where an
    /// opcode fails the sink is left as it was.
    pub fn synthesize<S: Assignment>(&self, config: PlonkConfig, layouter: &mut S) -> (res: Result<
        Vec<Instruction>,
        Error,
    >)
        requires
            old(layouter).inv(),
        ensures
            final(layouter).inv(),
            match res {
                Ok(plan) => {
                    &&& self.plan() == Ok::<Seq<Instruction>, Error>(plan@)
                    &&& final(layouter).events() == old(layouter).events() + lay_out(
                        config,
                        plan@,
                    ).events
                },
                Err(e) => {
                    &&& self.plan() == Err::<Seq<Instruction>, Error>(e)
                    &&& final(layouter).events() == old(layouter).events()
                },
            },
    {
        match self.translate() {
            Ok(plan) => {
                emit(&plan, config, layouter);
                Ok(plan)
            },
            Err(e) => Err(e),
        }
    }
}

} // verus!
