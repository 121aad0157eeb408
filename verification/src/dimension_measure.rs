//! Sizing: a sink that records only how far each column class was reached,
//! and the power of two that holds what it recorded.

use crate::circuit_translator::{
    last_row, lay_out, lemma_layout_reach, Instruction, NoirHalo2Translator,
};
use crate::errors::Error;
use crate::field::Fr;
use crate::halo2_plonk_api::{ConstraintSystem, PlonkConfig};
use crate::plonk::{
    lemma_max_offset_after, max_offset, touches, Any, Assignment, Column, Event, Value,
};
use core::ops::RangeInclusive;
use vstd::arithmetic::power2::{
    lemma2_to64, lemma_pow2_strictly_increases, lemma_pow2_unfold, pow2,
};
use vstd::prelude::*;

verus! {

/// The sink of the dry pass. It keeps no value: only, for each column class,
/// the largest offset that any call has named.
pub struct DimensionMeasurement {
    instance: u64,
    advice: u64,
    fixed: u64,
    seen: Ghost<Seq<Event>>,
}

/// What a dry pass measured, with the rows the backend reserves for blinding.
#[derive(Clone, Debug, PartialEq, Eq)]
pub struct Dimension {
    pub blinding_factor: u64,
    pub instance: u64,
    pub advice: u64,
    pub fixed: u64,
}

impl Dimension {
    /// The largest of the three column maxima.
    pub open spec fn largest_column(&self) -> nat {
        if self.instance >= self.advice && self.instance >= self.fixed {
            self.instance as nat
        } else if self.advice >= self.fixed {
            self.advice as nat
        } else {
            self.fixed as nat
        }
    }

    /// The rows the table must hold: the largest column maximum and the
    /// blinding rows.
    pub open spec fn rows(&self) -> nat {
        self.largest_column() + self.blinding_factor as nat
    }

    pub fn new(blinding_factor: u64, instance: u64, advice: u64, fixed: u64) -> (dimension:
        Dimension)
        ensures
            dimension == (Dimension { blinding_factor, instance, advice, fixed }),
    {
        Dimension { blinding_factor, instance, advice, fixed }
    }

    /// The exponent of the smallest power of two that holds `rows()`, and at
    /// least one.
    pub fn k(&self) -> (k: u32)
        ensures
            1 <= k <= 65,
            pow2(k as nat) >= self.rows(),
            k > 1 ==> pow2((k - 1) as nat) < self.rows(),
    {
        let mut largest = self.instance;
        if self.advice > largest {
            largest = self.advice;
        }
        if self.fixed > largest {
            largest = self.fixed;
        }
        let rows: u128 = largest as u128 + self.blinding_factor as u128;
        let mut k: u32 = 1;
        let mut power: u128 = 2;
        proof {
            lemma2_to64();
        }
        while power < rows
            invariant
                1 <= k <= 65,
                power == pow2(k as nat),
                rows == self.rows(),
                rows < 0x2_0000_0000_0000_0000,
                k > 1 ==> pow2((k - 1) as nat) < rows,
            decreases 66 - k,
        {
            proof {
                lemma2_to64();
                lemma_pow2_unfold(65);
                lemma_pow2_unfold((k + 1) as nat);
                if k >= 65 {
                    if k > 65 {
                        lemma_pow2_strictly_increases(65, k as nat);
                    }
                }
            }
            power = power * 2;
            k = k + 1;
        }
        k
    }

    /// What `k` promises names one exponent only: of the exponents from one
    /// on whose power of two holds `rows()`, it is the least.
    pub proof fn lemma_k_is_least(&self, k: u32, other: nat)
        requires
            k >= 1,
            pow2(k as nat) >= self.rows(),
            k > 1 ==> pow2((k - 1) as nat) < self.rows(),
            other >= 1,
            pow2(other) >= self.rows(),
        ensures
            other >= k,
    {
        if other < k {
            if other < k - 1 {
                lemma_pow2_strictly_increases(other, (k - 1) as nat);
            }
        }
    }

    /// The advice rows from zero to the largest one reached, both included.
    pub fn _advice_range(&self) -> (range: RangeInclusive<usize>)
        ensures
            range@.start == 0,
            range@.end == self.advice as usize,
            range@.exhausted == false,
    {
        RangeInclusive::new(0, self.advice as usize)
    }
}

impl DimensionMeasurement {
    /// The largest instance offset named so far.
    pub closed spec fn instance(&self) -> nat {
        self.instance as nat
    }

    /// The largest advice offset named so far.
    pub closed spec fn advice(&self) -> nat {
        self.advice as nat
    }

    /// The largest fixed offset named so far.
    pub closed spec fn fixed(&self) -> nat {
        self.fixed as nat
    }

    /// Each maximum is the largest offset among the cells of its class that
    /// the calls so far have visited.
    pub open spec fn well_formed(&self) -> bool {
        &&& self.instance() == max_offset(touches(self.events()), Any::Instance)
        &&& self.advice() == max_offset(touches(self.events()), Any::Advice)
        &&& self.fixed() == max_offset(touches(self.events()), Any::Fixed)
    }

    /// A sink that no call has reached.
    pub fn new() -> (measurement: DimensionMeasurement)
        ensures
            measurement.well_formed(),
            measurement.events() == Seq::<Event>::empty(),
            measurement.instance() == 0,
            measurement.advice() == 0,
            measurement.fixed() == 0,
    {
        DimensionMeasurement { instance: 0, advice: 0, fixed: 0, seen: Ghost(Seq::empty()) }
    }

    /// Raises the maximum of `column`'s class to `offset` where `offset` is
    /// larger, and leaves the other two as they are.
    fn update(&mut self, column: Any, offset: usize)
        ensures
            final(self).events() == old(self).events(),
            final(self).instance() == if column == Any::Instance && offset > old(self).instance() {
                offset as nat
            } else {
                old(self).instance()
            },
            final(self).advice() == if column == Any::Advice && offset > old(self).advice() {
                offset as nat
            } else {
                old(self).advice()
            },
            final(self).fixed() == if column == Any::Fixed && offset > old(self).fixed() {
                offset as nat
            } else {
                old(self).fixed()
            },
    {
        let offset = offset as u64;
        match column {
            Any::Instance => {
                if offset > self.instance {
                    self.instance = offset;
                }
            },
            Any::Advice => {
                if offset > self.advice {
                    self.advice = offset;
                }
            },
            Any::Fixed => {
                if offset > self.fixed {
                    self.fixed = offset;
                }
            },
        }
    }

    /// Notes one more call in the ghost record of what this sink has seen.
    fn note(&mut self, Ghost(event): Ghost<Event>)
        ensures
            final(self).events() == old(self).events().push(event),
            final(self).instance() == old(self).instance(),
            final(self).advice() == old(self).advice(),
            final(self).fixed() == old(self).fixed(),
    {
        self.seen = Ghost(self.seen@.push(event));
    }

    /// Runs the synthesis of `circuit` on a sink that keeps no value, and
    /// reports how far each column class was reached. `blinding_factor` is
    /// the number of rows that the backend reserves for blinding.
    ///
    /// The rows are those of the translator's own table, laid out by
    /// `PlonkConfig::configure` on a table with no column yet: no instance
    /// cell, and advice and fixed cells up to the last row of the plan. An
    /// error of the synthesis is handed on as it is.
    pub fn measure(circuit: &NoirHalo2Translator, blinding_factor: u64) -> (res: Result<
        Dimension,
        Error,
    >)
        ensures
            match res {
                Ok(dimension) => {
                    &&& circuit.plan() is Ok
                    &&& dimension.blinding_factor == blinding_factor
                    &&& dimension.instance == 0
                    &&& dimension.advice == last_row(circuit.plan()->Ok_0)
                    &&& dimension.fixed == last_row(circuit.plan()->Ok_0)
                },
                Err(e) => circuit.plan() == Err::<Seq<Instruction>, Error>(e),
            },
    {
        let mut cs = ConstraintSystem::new();
        let config = PlonkConfig::configure(&mut cs);
        let mut measurement = DimensionMeasurement::new();
        match circuit.synthesize(config, &mut measurement) {
            Ok(plan) => {
                proof {
                    assert(measurement.events() =~= lay_out(config, plan@).events);
                    lemma_layout_reach(config, plan@);
                }
                Ok(measurement.dimension(blinding_factor))
            },
            Err(e) => Err(e),
        }
    }

    /// The maxima with the blinding rows that the backend asks for.
    pub fn dimension(&self, blinding_factor: u64) -> (dimension: Dimension)
        ensures
            dimension.blinding_factor == blinding_factor,
            dimension.instance == self.instance(),
            dimension.advice == self.advice(),
            dimension.fixed == self.fixed(),
    {
        Dimension {
            blinding_factor,
            instance: self.instance,
            advice: self.advice,
            fixed: self.fixed,
        }
    }
}

impl Default for DimensionMeasurement {
    fn default() -> (measurement: DimensionMeasurement)
        ensures
            measurement.well_formed(),
            measurement.events() == Seq::<Event>::empty(),
    {
        DimensionMeasurement::new()
    }
}

impl Assignment for DimensionMeasurement {
    closed spec fn events(&self) -> Seq<Event> {
        self.seen@
    }

    open spec fn inv(&self) -> bool {
        self.well_formed()
    }

    /// A selector is a fixed cell.
    fn enable_selector(&mut self, offset: usize) {
        let ghost event = Event::EnableSelector { offset };
        proof {
            lemma_max_offset_after(self.events(), event, Any::Instance);
            lemma_max_offset_after(self.events(), event, Any::Advice);
            lemma_max_offset_after(self.events(), event, Any::Fixed);
        }
        self.update(Any::Fixed, offset);
        self.note(Ghost(event));
    }

    /// Every query is answered with an unknown value.
    fn query_instance(&mut self, column: usize, offset: usize) -> (value: Value<Fr>)
        ensures
            value == Value::<Fr>::Unknown,
    {
        let ghost event = Event::QueryInstance { column, offset };
        proof {
            lemma_max_offset_after(self.events(), event, Any::Instance);
            lemma_max_offset_after(self.events(), event, Any::Advice);
            lemma_max_offset_after(self.events(), event, Any::Fixed);
        }
        self.update(Any::Instance, offset);
        self.note(Ghost(event));
        Value::Unknown
    }

    fn assign_advice(&mut self, column: usize, offset: usize, value: Value<Fr>) {
        let ghost event = Event::AssignAdvice { column, offset, value };
        proof {
            lemma_max_offset_after(self.events(), event, Any::Instance);
            lemma_max_offset_after(self.events(), event, Any::Advice);
            lemma_max_offset_after(self.events(), event, Any::Fixed);
        }
        self.update(Any::Advice, offset);
        self.note(Ghost(event));
    }

    fn assign_fixed(&mut self, column: usize, offset: usize, value: Value<Fr>) {
        let ghost event = Event::AssignFixed { column, offset, value };
        proof {
            lemma_max_offset_after(self.events(), event, Any::Instance);
            lemma_max_offset_after(self.events(), event, Any::Advice);
            lemma_max_offset_after(self.events(), event, Any::Fixed);
        }
        self.update(Any::Fixed, offset);
        self.note(Ghost(event));
    }

    /// A copy reaches the class of each of its two endpoints.
    fn copy(&mut self, lhs: Column, offset_lhs: usize, rhs: Column, offset_rhs: usize) {
        let ghost event = Event::Copy {
            lhs: crate::plonk::Cell { column: lhs, row: offset_lhs },
            rhs: crate::plonk::Cell { column: rhs, row: offset_rhs },
        };
        proof {
            lemma_max_offset_after(self.events(), event, Any::Instance);
            lemma_max_offset_after(self.events(), event, Any::Advice);
            lemma_max_offset_after(self.events(), event, Any::Fixed);
        }
        self.update(lhs.column_type, offset_lhs);
        self.update(rhs.column_type, offset_rhs);
        self.note(Ghost(event));
    }

    fn fill_from_row(&mut self, column: usize, offset: usize, value: Value<Fr>) {
        let ghost event = Event::FillFromRow { column, offset, value };
        proof {
            lemma_max_offset_after(self.events(), event, Any::Instance);
            lemma_max_offset_after(self.events(), event, Any::Advice);
            lemma_max_offset_after(self.events(), event, Any::Fixed);
        }
        self.update(Any::Fixed, offset);
        self.note(Ghost(event));
    }
}

} // verus!
