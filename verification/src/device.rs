//! The read-only view of a device that the site router works on.
//!
//! Names are indices into the string table of the device.  A site type
//! lists its BELs, the pins of all its BELs, its site wires and its site
//! pseudo-pips; BELs, wires and pips refer to pins by their index in the pin
//! list of the site type.

use crate::common::IcStr;
use crate::router::{BELCategory, PinDir};
use vstd::prelude::*;

verus! {

/// The kind of a constant that a BEL pin can be a source of.
#[derive(Copy, Clone, PartialEq, Eq, Structural, Debug)]
pub enum ConstantType {
    NoPreference,
    Gnd,
    Vcc,
}

/// A pin of a BEL, as the site type lists it.
#[derive(Copy, Clone, Debug)]
pub struct SiteBelPin {
    /// Name of the pin.
    pub name: u32,
    /// Name of the BEL that owns the pin.
    pub bel: u32,
    pub dir: PinDir,
}

/// A BEL of a site type.
#[derive(Debug)]
pub struct SiteBel {
    pub name: u32,
    pub category: BELCategory,
    /// The pins of the BEL, as indices into the pin list of the site type.
    pub pins: Vec<u32>,
}

/// A site wire: the pins that it connects.
#[derive(Debug)]
pub struct SiteWire {
    pub name: u32,
    /// The pins on the wire, as indices into the pin list of the site type.
    pub pins: Vec<u32>,
}

/// A site pseudo-pip: a connection through a BEL from one of its pins to
/// another.
#[derive(Copy, Clone, Debug)]
pub struct SitePip {
    pub inpin: u32,
    pub outpin: u32,
}

/// A site type.
#[derive(Debug)]
pub struct SiteType {
    pub name: u32,
    pub bels: Vec<SiteBel>,
    pub bel_pins: Vec<SiteBelPin>,
    pub site_wires: Vec<SiteWire>,
    pub site_pips: Vec<SitePip>,
}

/// A BEL pin that is a source of a constant net.
#[derive(Copy, Clone, Debug)]
pub struct SiteSource {
    /// Name of the site type.
    pub site_type: u32,
    pub bel: u32,
    pub bel_pin: u32,
    pub constant: ConstantType,
}

/// The parts of a device that site routing reads.
#[derive(Debug)]
pub struct Device {
    pub str_list: Vec<String>,
    pub site_type_list: Vec<SiteType>,
    pub site_sources: Vec<SiteSource>,
}

impl IcStr for Device {
    open spec fn strings(&self) -> Seq<Seq<char>> {
        self.str_list@.map_values(|s: String| s@)
    }

    fn ic_str(&self, id: u32) -> (r: &str) {
        self.str_list[id as usize].as_str()
    }
}

} // verus!
