//! The spatial core of a two-dimensional particle fluid simulation.
//!
//! A simulation step asks, for every particle, which other particles are close
//! enough to influence it. This crate answers that question with a uniform grid
//! over the simulation domain: [`neighbor_search::ParticleSearchStaticMatrix`]
//! files each particle slot under the cell its position falls in and, for a
//! query position, lists the slots filed under the surrounding three-by-three
//! block of cells.
//!
//! Positions enter the crate as grid coordinates, `(column, row)`: the caller
//! divides a position by the cell size and hands over the whole parts.
//! Everything the index promises is stated over plain sequences of such
//! coordinates in [`grid_model`], and the laws that follow from those
//! statements are proved in [`laws`].

pub mod cell;
pub mod grid_model;
pub mod laws;
pub mod neighbor_search;
pub mod seq_facts;

use vstd::prelude::*;

verus! {

/// The greeting the crate answers a smoke test with.
pub fn hello_world() -> (greeting: &'static str)
    ensures
        greeting@ == "hello me"@,
{
    "hello me"
}

} // verus!
