//! Routing of FPGA resources within a site.
//!
//! * `names` - BELs, pins and their names
//! * `site` - the BELs of a site type, with those for the constant nets
//! * `graph` - the routing graph
//! * `site_graph` - building the routing graph of a site
//! * `virtual_consts` - the edges that bring in the constant nets
//! * `route_spec` - what the pin-to-pin router computes
//! * `completeness` - the router reaches every node that can be reached
//! * `run_bound` - how many steps the pin-to-pin router makes
//! * `site_brute_router` - the pin-to-pin router
//! * `direct` - the route over a single edge
//! * `routing_info` - what is found out about pairs of pins
//! * `batch` - routing from every pin of a site
//! * `brute_router` - the router of a site
//! * `serialize` - the routing information with the names of the pins

pub mod batch;
pub mod brute_router;
pub mod completeness;
pub mod direct;
pub mod graph;
pub mod names;
pub mod route_spec;
pub mod routing_info;
pub mod run_bound;
pub mod serialize;
pub mod site;
pub mod site_brute_router;
pub mod site_graph;
pub mod virtual_consts;

pub use names::{BELCategory, BELInfo, BELPin, PinDir, ResourceName, ResourceNameRef, SitePinId, SitePinName};
