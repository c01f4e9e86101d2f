//! Hyperbolic layout of directed graphs on the Poincaré disk.
//!
//! A graph store with ordered adjacency, depth-first and symmetric
//! breadth-first traversals, an angle-subdivision layout over exact
//! rational wedges, exact-arithmetic Poincaré-ball point operations,
//! and the validation side of the disk–square remapping boundary.
pub mod dag;
pub mod disk_square;
pub mod layout;
pub mod poincare_ball;
pub mod traverse;

pub use dag::{DAG, DAGID};
pub use layout::{AngleRange, HyperbolicLayout, LayoutError, PolarCoord};
pub use poincare_ball::PoincarePoint;
pub use traverse::{DFOut, TraversalOrder};
