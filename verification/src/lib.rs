//! A translation layer from arithmetic circuits over witnesses to the rows
//! and copy constraints of a PLONK table with a three-wire custom gate,
//! with the measurement of the table size that a circuit needs.

use vstd::arithmetic::power2::{lemma_pow2_strictly_increases, pow2};
use vstd::prelude::*;

pub mod circuit_translator;
pub mod constrains;
pub mod dimension_measure;
pub mod errors;
pub mod field;
pub mod halo2_plonk_api;
pub mod native_types;
pub mod plonk;

use crate::dimension_measure::Dimension;
use crate::errors::{CapacityError, Error};

verus! {

/// The halo2 proving backend.
#[derive(Debug)]
pub struct Halo2;

impl Halo2 {
    pub fn new() -> (backend: Halo2)
        ensures
            backend == Halo2,
    {
        Halo2 {  }
    }

    /// Holds a measured dimension against the size of the reference string:
    /// a circuit that needs `2^k` rows fits a string of degree `2^srs_k`
    /// where `k` is at most `srs_k`.
    pub fn check_capacity(&self, dimension: &Dimension, srs_k: u32) -> (res: Result<(), Error>)
        ensures
            res is Ok <==> pow2(srs_k as nat) >= dimension.rows() && srs_k >= 1,
            res is Err ==> res->Err_0 is Capacity,
            res is Err ==> res->Err_0->Capacity_0.available_k == srs_k,
            res is Err ==> res->Err_0->Capacity_0.required_k > srs_k,
            res is Err ==> pow2(res->Err_0->Capacity_0.required_k as nat) >= dimension.rows(),
            res is Err && res->Err_0->Capacity_0.required_k > 1 ==> pow2(
                (res->Err_0->Capacity_0.required_k - 1) as nat,
            ) < dimension.rows(),
    {
        let required_k = dimension.k();
        proof {
            if required_k <= srs_k {
                if required_k < srs_k {
                    lemma_pow2_strictly_increases(
                        required_k as nat,
                        srs_k as nat,
                    );
                }
            } else {
                if srs_k >= 1 {
                    if srs_k < required_k - 1 {
                        lemma_pow2_strictly_increases(
                            srs_k as nat,
                            (required_k - 1) as nat,
                        );
                    }
                }
            }
        }
        if required_k <= srs_k {
            Ok(())
        } else {
            Err(Error::Capacity(CapacityError { required_k, available_k: srs_k }))
        }
    }
}

impl Default for Halo2 {
    fn default() -> (backend: Halo2)
        ensures
            backend == Halo2,
    {
        Halo2::new()
    }
}

} // verus!
