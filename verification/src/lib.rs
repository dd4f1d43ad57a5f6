//! Site-level pin-to-pin routability preprocessing for FPGA site types.
//!
//! For every pair of BEL pins of a site type the library finds out whether a
//! route exists, which routing resources must stay free for it (`requires`)
//! and which resources the route occupies (`implies`).  Both are boolean
//! formulas in disjunctive normal form.
//!
//! * `common` - utilities shared by the passes
//! * `logic_formula` - boolean formulas in disjunctive normal form
//! * `device` - the read-only view of a device
//! * `exporter` - choosing what is exported
//! * `strings` - pool of interned strings
//! * `router` - site model, routing graph and the pin-to-pin router

pub mod common;
pub mod device;
pub mod exporter;
pub mod logic_formula;
pub mod strings;
pub mod router;
