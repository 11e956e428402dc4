//! attofab_core: the discrete core of an education-first semiconductor
//! fabrication simulator.
//!
//! Voxel material grids of a 2D wafer cross-section (`grid2d`) and of a
//! dense 3D wafer mesh (`grid3d`), binary-mask lithography
//! (`lithography`), cellular-automaton etch and deposition (`etch`), a
//! GDSII layout stream reader (`gds`) and recipe column masks (`recipe`),
//! over the material and dopant vocabulary of `materials`.
pub mod etch;
pub mod gds;
pub mod grid2d;
pub mod grid3d;
pub mod lithography;
pub mod materials;
pub mod recipe;

pub use gds::{parse_gds, GdsLibrary};
pub use grid2d::Wafer2d;
pub use grid3d::Wafer3d;
pub use materials::{Ambient, Dopant, Material};
