//! The discrete core of a parametric solid modeller.
//!
//! Every decision that does not need a floating-point number lives here, with its contract: the
//! feature tree and the assembly, the font registry, mesh topology, the voxel remesher's masks,
//! profile and edge clean-up, triangle index patterns, and the text of exported sheets. What the
//! geometry measures (lengths, angles, distances) reaches these functions as plain values.

pub mod assembly;
pub mod balance;
pub mod blend;
pub mod bodies;
pub mod booleans;
pub mod bsp;
pub mod chains;
pub mod cleanup;
pub mod counting;
pub mod document;
pub mod ears;
pub mod exchange;
pub mod feature_edges;
pub mod first_seen;
pub mod fonts;
pub mod gears;
pub mod icons;
pub mod linking;
pub mod mesh;
pub mod nets;
pub mod outlines;
pub mod patches;
pub mod patterns;
pub mod profile;
pub mod raster;
pub mod rims;
pub mod rings;
pub mod sheet;
pub mod solids;
pub mod surgery;
pub mod text;
pub mod topo;
pub mod trails;
pub mod union_find;
pub mod views;
pub mod voxel;
