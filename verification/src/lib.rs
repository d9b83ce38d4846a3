//! via: the verified core of a procedural-terrain pipeline — seed
//! derivation, the `.vrast` raster artifact format, flow-routing
//! topology on the D8 receiver forest, the integer site detectors and
//! their gates built on it, the corridor stage's node set, lattice and
//! trunk junctions, and the inspection diagnostics.

pub mod seed;
pub mod raster;
mod sealed;
pub mod flow;
pub mod text;
pub mod grid;
pub mod connect;
pub mod dsu;
pub mod components;
pub mod order;
pub mod suitability;
pub mod confluence;
pub mod passes;
pub mod navigability;
pub mod qa;
pub mod terrain;
pub mod corridors;
pub mod junctions;
pub mod settlement;
pub mod ecology;
pub mod bench;
pub mod street;
pub mod noise;
pub mod manifest;
