//! Boolean formulas in disjunctive normal form over an ordered set of
//! variables.
//!
//! A formula is a list of cubes, a cube is a sorted list of terms.  The
//! executable types are generic over the variable identifier; every contract
//! is stated over their views, where a variable is the integer key of its
//! identifier.

pub mod compare;
pub mod cube;
pub mod form;
pub mod intersperse;
pub mod mergable;
pub mod optimize;
pub mod reduce;
pub mod term;
pub mod term_order;
pub mod text;

pub use cube::DNFCube;
pub use form::DNFForm;
pub use mergable::MergableDNFForm;
pub use reduce::ReductibleDNFCube;
pub use term::{FormulaTerm, Term, VarId};
