//! Decodes a voxel-world save format and analyzes rectangular chunk ranges:
//! per-layer block-type histograms and connected ore veins with size and
//! height distributions.
//!
//! The core is the variable-bit-width palette codec, the bounded
//! least-recently-used chunk cache, and the capped flood fill that discovers
//! connected components across section and chunk boundaries. All analysis
//! runs over an in-memory [`store::RegionStore`]; reading region files,
//! command-line handling, and rendering are left to the surrounding program.

pub mod area;
pub mod chunk;
pub mod chunk_loader;
pub mod chunk_section;
pub mod codec;
pub mod composition_analyzer;
pub mod diamond_vein_analyzer;
pub mod layers;
pub mod palette;
pub mod raw;
pub mod store;
