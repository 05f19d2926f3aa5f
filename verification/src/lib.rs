//! A verified L-system core.
//!
//! Two components, used in sequence: [`axiom2lsystem::Axiom2Lsystem`] rewrites
//! a start string over a fixed number of generations by a symbol-to-string
//! grammar, and [`lsystem2points::Lsystem2Points`] walks the resulting symbol
//! string as a turtle and produces a [`lsystem2points::LsystemTree`]: branches
//! of 2-D points linked by parent-to-child branch ids.
//!
//! All geometry is exact: headings index a caller-supplied table of fixed-point
//! direction vectors, and coordinates are wide integers in the table's units.

pub mod assoc;
pub mod axiom2lsystem;
pub mod laws;
pub mod lsystem2points;
pub mod model;
pub mod rule;
