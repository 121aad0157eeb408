//! The backend's assignment protocol: column classes, cells, the events a
//! synthesis pass produces, and the sink capability that consumes them.

use crate::field::Fr;
use vstd::prelude::*;

verus! {

/// The class of a column.
#[derive(Clone, Copy, Debug, PartialEq, Eq, Structural)]
pub enum Any {
    Instance,
    Advice,
    Fixed,
}

/// A column: its class and its index among the columns of that class.
#[derive(Clone, Copy, Debug, PartialEq, Eq, Structural)]
pub struct Column {
    pub column_type: Any,
    pub index: usize,
}

/// A cell of the table: a column and an absolute row.
#[derive(Clone, Copy, Debug, PartialEq, Eq, Structural)]
pub struct Cell {
    pub column: Column,
    pub row: usize,
}

/// A value that a pass may or may not know.
#[derive(Clone, Copy, Debug, PartialEq, Eq)]
pub enum Value<V> {
    Known(V),
    Unknown,
}

/// One call made on a sink during synthesis.
#[derive(Clone, Copy, Debug, PartialEq, Eq)]
pub enum Event {
    EnableSelector { offset: usize },
    QueryInstance { column: usize, offset: usize },
    AssignAdvice { column: usize, offset: usize, value: Value<Fr> },
    AssignFixed { column: usize, offset: usize, value: Value<Fr> },
    Copy { lhs: Cell, rhs: Cell },
    FillFromRow { column: usize, offset: usize, value: Value<Fr> },
}

/// The `(class, offset)` pairs that a sequence of events visits, in order.
/// A selector counts as a fixed cell; a copy visits both of its endpoints.
pub open spec fn touches(events: Seq<Event>) -> Seq<(Any, usize)>
    decreases events.len(),
{
    if events.len() == 0 {
        Seq::empty()
    } else {
        let before = touches(events.drop_last());
        match events.last() {
            Event::EnableSelector { offset } => before.push((Any::Fixed, offset)),
            Event::QueryInstance { column, offset } => before.push((Any::Instance, offset)),
            Event::AssignAdvice { column, offset, value } => before.push((Any::Advice, offset)),
            Event::AssignFixed { column, offset, value } => before.push((Any::Fixed, offset)),
            Event::Copy { lhs, rhs } => before.push((lhs.column.column_type, lhs.row)).push(
                (rhs.column.column_type, rhs.row),
            ),
            Event::FillFromRow { column, offset, value } => before.push((Any::Fixed, offset)),
        }
    }
}

/// The largest offset visited in `class`, zero where none was.
pub open spec fn max_offset(visited: Seq<(Any, usize)>, class: Any) -> nat
    decreases visited.len(),
{
    if visited.len() == 0 {
        0
    } else {
        let before = max_offset(visited.drop_last(), class);
        let (c, offset) = visited.last();
        if c == class && offset > before {
            offset as nat
        } else {
            before
        }
    }
}

/// What `touches` is after one more event.
pub proof fn lemma_touches_push(events: Seq<Event>, event: Event)
    ensures
        touches(events.push(event)) == match event {
            Event::EnableSelector { offset } => touches(events).push((Any::Fixed, offset)),
            Event::QueryInstance { column, offset } => touches(events).push((Any::Instance, offset)),
            Event::AssignAdvice { column, offset, value } => touches(events).push(
                (Any::Advice, offset),
            ),
            Event::AssignFixed { column, offset, value } => touches(events).push(
                (Any::Fixed, offset),
            ),
            Event::Copy { lhs, rhs } => touches(events).push(
                (lhs.column.column_type, lhs.row),
            ).push((rhs.column.column_type, rhs.row)),
            Event::FillFromRow { column, offset, value } => touches(events).push(
                (Any::Fixed, offset),
            ),
        },
{
    assert(events.push(event).drop_last() =~= events);
}

/// What `max_offset` is after one more visit.
pub proof fn lemma_max_offset_push(visited: Seq<(Any, usize)>, visit: (Any, usize), class: Any)
    ensures
        max_offset(visited.push(visit), class) == if visit.0 == class && visit.1 > max_offset(
            visited,
            class,
        ) {
            visit.1 as nat
        } else {
            max_offset(visited, class)
        },
{
    assert(visited.push(visit).drop_last() =~= visited);
}

/// What the largest offset of a class is after one more event.
pub proof fn lemma_max_offset_after(seen: Seq<Event>, event: Event, class: Any)
    ensures
        max_offset(touches(seen.push(event)), class) == match event {
            Event::EnableSelector { offset } => if class == Any::Fixed && offset > max_offset(
                touches(seen),
                class,
            ) {
                offset as nat
            } else {
                max_offset(touches(seen), class)
            },
            Event::QueryInstance { column, offset } => if class == Any::Instance && offset
                > max_offset(touches(seen), class) {
                offset as nat
            } else {
                max_offset(touches(seen), class)
            },
            Event::AssignAdvice { column, offset, value } => if class == Any::Advice && offset
                > max_offset(touches(seen), class) {
                offset as nat
            } else {
                max_offset(touches(seen), class)
            },
            Event::AssignFixed { column, offset, value } => if class == Any::Fixed && offset
                > max_offset(touches(seen), class) {
                offset as nat
            } else {
                max_offset(touches(seen), class)
            },
            Event::FillFromRow { column, offset, value } => if class == Any::Fixed && offset
                > max_offset(touches(seen), class) {
                offset as nat
            } else {
                max_offset(touches(seen), class)
            },
            Event::Copy { lhs, rhs } => {
                let first = if lhs.column.column_type == class && lhs.row > max_offset(
                    touches(seen),
                    class,
                ) {
                    lhs.row as nat
                } else {
                    max_offset(touches(seen), class)
                };
                if rhs.column.column_type == class && rhs.row > first {
                    rhs.row as nat
                } else {
                    first
                }
            },
        },
{
    lemma_touches_push(seen, event);
    let before = touches(seen);
    match event {
        Event::EnableSelector { offset } => {
            lemma_max_offset_push(before, (Any::Fixed, offset), class);
        },
        Event::QueryInstance { column, offset } => {
            lemma_max_offset_push(before, (Any::Instance, offset), class);
        },
        Event::AssignAdvice { column, offset, value } => {
            lemma_max_offset_push(before, (Any::Advice, offset), class);
        },
        Event::AssignFixed { column, offset, value } => {
            lemma_max_offset_push(before, (Any::Fixed, offset), class);
        },
        Event::FillFromRow { column, offset, value } => {
            lemma_max_offset_push(before, (Any::Fixed, offset), class);
        },
        Event::Copy { lhs, rhs } => {
            let l = (lhs.column.column_type, lhs.row);
            let r = (rhs.column.column_type, rhs.row);
            lemma_max_offset_push(before, l, class);
            lemma_max_offset_push(before.push(l), r, class);
        },
    }
}

/// The copy constraints among a sequence of events, in order.
pub open spec fn copies(events: Seq<Event>) -> Seq<(Cell, Cell)>
    decreases events.len(),
{
    if events.len() == 0 {
        Seq::empty()
    } else {
        match events.last() {
            Event::Copy { lhs, rhs } => copies(events.drop_last()).push((lhs, rhs)),
            _ => copies(events.drop_last()),
        }
    }
}

/// Whether the copy constraints force two cells to hold one value: the
/// least relation that holds of every cell with itself and of the two ends
/// of every constraint, and that is symmetric and transitive.
pub open spec fn connected(constraints: Seq<(Cell, Cell)>, x: Cell, y: Cell) -> bool
    decreases constraints.len(),
{
    if constraints.len() == 0 {
        x == y
    } else {
        let before = constraints.drop_last();
        let (l, r) = constraints.last();
        ||| connected(before, x, y)
        ||| connected(before, x, l) && connected(before, r, y)
        ||| connected(before, x, r) && connected(before, l, y)
    }
}

/// What `connected` says of two cells once one more constraint is recorded.
proof fn lemma_connected_unfold(constraints: Seq<(Cell, Cell)>, x: Cell, y: Cell)
    requires
        constraints.len() > 0,
    ensures
        connected(constraints, x, y) == {
            let before = constraints.drop_last();
            let (l, r) = constraints.last();
            ||| connected(before, x, y)
            ||| connected(before, x, l) && connected(before, r, y)
            ||| connected(before, x, r) && connected(before, l, y)
        },
{
}

/// The relation that a set of copy constraints records is an equivalence:
/// reflexive, symmetric and transitive.
pub proof fn lemma_connected_is_equivalence(constraints: Seq<(Cell, Cell)>)
    ensures
        forall|x: Cell| #[trigger] connected(constraints, x, x),
        forall|x: Cell, y: Cell| #[trigger]
            connected(constraints, x, y) ==> connected(constraints, y, x),
        forall|x: Cell, y: Cell, z: Cell|
            #[trigger] connected(constraints, x, y) && #[trigger] connected(constraints, y, z)
                ==> connected(constraints, x, z),
    decreases constraints.len(),
{
    if constraints.len() > 0 {
        lemma_connected_is_equivalence(constraints.drop_last());
        assert forall|x: Cell| #[trigger] connected(constraints, x, x) by {
            lemma_connected_unfold(constraints, x, x);
        }
        assert forall|x: Cell, y: Cell| #[trigger]
            connected(constraints, x, y) implies connected(constraints, y, x) by {
            lemma_connected_unfold(constraints, x, y);
            lemma_connected_unfold(constraints, y, x);
        }
        assert forall|x: Cell, y: Cell, z: Cell|
            #[trigger] connected(constraints, x, y) && #[trigger] connected(
                constraints,
                y,
                z,
            ) implies connected(constraints, x, z) by {
            lemma_connected_unfold(constraints, x, y);
            lemma_connected_unfold(constraints, y, z);
            lemma_connected_unfold(constraints, x, z);
        }
    }
}

/// An event that is no copy leaves the copy constraints as they are, and a
/// copy adds its two ends.
pub proof fn lemma_copies_push(events: Seq<Event>, event: Event)
    ensures
        copies(events.push(event)) == match event {
            Event::Copy { lhs, rhs } => copies(events).push((lhs, rhs)),
            _ => copies(events),
        },
{
    assert(events.push(event).drop_last() =~= events);
}

/// The two ends of every recorded constraint are connected, and so are any
/// two cells that were connected before further constraints were recorded.
pub proof fn lemma_connected_grows(constraints: Seq<(Cell, Cell)>, l: Cell, r: Cell)
    ensures
        connected(constraints.push((l, r)), l, r),
        forall|x: Cell, y: Cell| #[trigger]
            connected(constraints, x, y) ==> connected(constraints.push((l, r)), x, y),
{
    assert(constraints.push((l, r)).drop_last() =~= constraints);
    lemma_connected_is_equivalence(constraints);
    assert(connected(constraints, l, l));
    assert(connected(constraints, r, r));
}

/// The sink capability that synthesis is written against. A sink is told of
/// every selector, assignment, query and copy; `events` is what it has been
/// told so far.
pub trait Assignment {
    spec fn events(&self) -> Seq<Event>;

    spec fn inv(&self) -> bool;

    fn enable_selector(&mut self, offset: usize)
        requires
            old(self).inv(),
        ensures
            final(self).inv(),
            final(self).events() == old(self).events().push(Event::EnableSelector { offset }),
    ;

    fn query_instance(&mut self, column: usize, offset: usize) -> (value: Value<Fr>)
        requires
            old(self).inv(),
        ensures
            final(self).inv(),
            final(self).events() == old(self).events().push(
                Event::QueryInstance { column, offset },
            ),
    ;

    fn assign_advice(&mut self, column: usize, offset: usize, value: Value<Fr>)
        requires
            old(self).inv(),
        ensures
            final(self).inv(),
            final(self).events() == old(self).events().push(
                Event::AssignAdvice { column, offset, value },
            ),
    ;

    fn assign_fixed(&mut self, column: usize, offset: usize, value: Value<Fr>)
        requires
            old(self).inv(),
        ensures
            final(self).inv(),
            final(self).events() == old(self).events().push(
                Event::AssignFixed { column, offset, value },
            ),
    ;

    fn copy(&mut self, lhs: Column, offset_lhs: usize, rhs: Column, offset_rhs: usize)
        requires
            old(self).inv(),
        ensures
            final(self).inv(),
            final(self).events() == old(self).events().push(
                Event::Copy {
                    lhs: Cell { column: lhs, row: offset_lhs },
                    rhs: Cell { column: rhs, row: offset_rhs },
                },
            ),
    ;

    fn fill_from_row(&mut self, column: usize, offset: usize, value: Value<Fr>)
        requires
            old(self).inv(),
        ensures
            final(self).inv(),
            final(self).events() == old(self).events().push(
                Event::FillFromRow { column, offset, value },
            ),
    ;
}

/// The producing sink: it keeps every event, values included, in the order
/// in which synthesis made the calls.
#[derive(Clone, Debug, PartialEq, Eq)]
pub struct Assembly {
    events: Vec<Event>,
}

impl Assembly {
    /// The events recorded, in order.
    pub open spec fn view(&self) -> Seq<Event> {
        self.events()
    }

    /// An assembly that has seen nothing.
    pub fn new() -> (assembly: Assembly)
        ensures
            assembly@ == Seq::<Event>::empty(),
            assembly.inv(),
    {
        Assembly { events: Vec::new() }
    }

    /// The number of events recorded.
    pub fn len(&self) -> (n: usize)
        ensures
            n == self@.len(),
    {
        self.events.len()
    }

    /// The `i`-th event recorded, where there is one.
    pub fn event(&self, i: usize) -> (event: Option<Event>)
        ensures
            event == if i < self@.len() {
                Some(self@[i as int])
            } else {
                None
            },
    {
        if i < self.events.len() {
            Some(self.events[i])
        } else {
            None
        }
    }
}

impl Assignment for Assembly {
    closed spec fn events(&self) -> Seq<Event> {
        self.events@
    }

    open spec fn inv(&self) -> bool {
        true
    }

    fn enable_selector(&mut self, offset: usize) {
        self.events.push(Event::EnableSelector { offset });
    }

    fn query_instance(&mut self, column: usize, offset: usize) -> (value: Value<Fr>) {
        self.events.push(Event::QueryInstance { column, offset });
        Value::Unknown
    }

    fn assign_advice(&mut self, column: usize, offset: usize, value: Value<Fr>) {
        self.events.push(Event::AssignAdvice { column, offset, value });
    }

    fn assign_fixed(&mut self, column: usize, offset: usize, value: Value<Fr>) {
        self.events.push(Event::AssignFixed { column, offset, value });
    }

    fn copy(&mut self, lhs: Column, offset_lhs: usize, rhs: Column, offset_rhs: usize) {
        self.events.push(
            Event::Copy {
                lhs: Cell { column: lhs, row: offset_lhs },
                rhs: Cell { column: rhs, row: offset_rhs },
            },
        );
    }

    fn fill_from_row(&mut self, column: usize, offset: usize, value: Value<Fr>) {
        self.events.push(Event::FillFromRow { column, offset, value });
    }
}

} // verus!
