//! Light: what it is, and how it is computed.
//!
//! [`model`] states what light is: the least field that holds every source's
//! own level and, in each open cell, what its neighbours pass on. [`flood`]
//! computes it over any volume, [`removal`] repairs it after a change at one
//! cell. [`padded`] and [`sky`] hold a chunk within a ring of its neighbours'
//! light, and [`chunk_light`] the light of whole chunks; [`exchange`] tells it
//! cell by cell, across the chunk's border too.

pub mod chunk_light;
pub mod exchange;
pub mod flood;
pub mod model;
pub mod padded;
pub mod removal;
pub mod sky;
