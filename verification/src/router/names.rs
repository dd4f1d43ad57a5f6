//! BELs, their pins and the names of both.

use crate::common::IcStr;
use crate::device::Device;
use crate::strings::{GlobalStringId, GlobalStringRef, GlobalStringsCtx};
use vstd::prelude::*;
use vstd::string::StringExecFns;

verus! {

/// Represents a direction of a pin.
#[derive(Copy, Clone, Hash, PartialEq, Eq, Structural, Debug)]
pub enum PinDir {
    Inout,
    Input,
    Output,
}

impl PinDir {
    /// Can a pin of this direction drive a wire?
    pub open spec fn drives(self) -> bool {
        self is Output || self is Inout
    }

    /// Can a pin of this direction be driven by a wire?
    pub open spec fn sinks(self) -> bool {
        self is Input || self is Inout
    }

    /// Can a pin of this direction drive a wire?
    pub fn is_driver(&self) -> (r: bool)
        ensures
            r == self.drives(),
    {
        match self {
            PinDir::Output => true,
            PinDir::Inout => true,
            PinDir::Input => false,
        }
    }

    /// Can a pin of this direction be driven by a wire?
    pub fn is_sink(&self) -> (r: bool)
        ensures
            r == self.sinks(),
    {
        match self {
            PinDir::Input => true,
            PinDir::Inout => true,
            PinDir::Output => false,
        }
    }
}

/// Represents the role of the BEL within a site.
///
/// Logic and routing BELs are not told apart, because some logic BELs can
/// also be route-throughs; which pins route is found out from the site
/// pseudo-pips.
#[derive(Copy, Clone, Hash, PartialEq, Eq, Structural, Debug)]
pub enum BELCategory {
    LogicOrRouting,
    SitePort,
}

/// Identifies a string associated with any FPGA resource. The string can be
/// stored either in the string table of the device, or in the pool of
/// interned strings.
#[derive(PartialEq, Eq, Structural, Hash, Debug, Copy, Clone)]
pub enum ResourceName {
    /// Names loaded from the device.
    DeviceResources(u32),
    /// Names created by the router.
    Virtual(GlobalStringId),
}

/// Represents a single pin of a BEL.
#[derive(Copy, Clone, Hash, PartialEq, Eq, Structural, Debug)]
pub struct BELPin {
    pub name: ResourceName,
    pub dir: PinDir,
}

/// The string of a resource name, borrowed from where it is stored.
#[derive(Debug)]
pub enum ResourceNameRef<'s> {
    DeviceResources(&'s str),
    Virtual(GlobalStringRef<'s>),
}

impl<'s> ResourceNameRef<'s> {
    /// The characters of the name.
    pub open spec fn text(&self) -> Seq<char> {
        match self {
            ResourceNameRef::DeviceResources(r) => r@,
            ResourceNameRef::Virtual(v) => v.text(),
        }
    }

    /// The name as a slice.
    pub fn as_str(&self) -> (r: &str)
        ensures
            r@ == self.text(),
    {
        match self {
            ResourceNameRef::DeviceResources(r) => r,
            ResourceNameRef::Virtual(v) => v.as_str(),
        }
    }
}

impl ResourceName {
    /// Does the name refer to a string that exists?
    pub open spec fn known(&self, strings: Seq<Seq<char>>, pool: Seq<Seq<char>>) -> bool {
        match self {
            ResourceName::DeviceResources(id) => *id < strings.len(),
            ResourceName::Virtual(id) => id.0 < pool.len(),
        }
    }

    /// The characters of the name.
    pub open spec fn text(&self, strings: Seq<Seq<char>>, pool: Seq<Seq<char>>) -> Seq<char> {
        match self {
            ResourceName::DeviceResources(id) => strings[*id as int],
            ResourceName::Virtual(id) => pool[id.0 as int],
        }
    }

    /// Access `str` data associated with the resource name identifier.
    /// Returns a container that allows to reference and borrow its
    /// contents as `str`.
    pub fn get<'d>(&self, device: &'d Device, vctx: &'d GlobalStringsCtx) -> (r: ResourceNameRef<'d>)
        requires
            self.known(device.strings(), vctx@),
        ensures
            r.text() == self.text(device.strings(), vctx@),
    {
        match self {
            ResourceName::DeviceResources(id) => ResourceNameRef::DeviceResources(
                device.ic_str(*id),
            ),
            ResourceName::Virtual(id) => ResourceNameRef::Virtual(vctx.get_global_string(*id)),
        }
    }
}

/// Describes a single BEL.
#[derive(Debug)]
pub struct BELInfo {
    pub name: ResourceName,
    pub category: BELCategory,
    pub pins: Vec<BELPin>,
}

/// The pin at `k` is the first pin with the given name.
pub open spec fn is_first_pin(pins: Seq<BELPin>, name: ResourceName, k: int) -> bool {
    &&& 0 <= k < pins.len()
    &&& pins[k].name == name
    &&& forall|i: int| 0 <= i < k ==> (#[trigger] pins[i]).name != name
}

/// The BEL at `b` is the first BEL with the given name.
pub open spec fn is_first_bel(bels: Seq<BELInfo>, name: ResourceName, b: int) -> bool {
    &&& 0 <= b < bels.len()
    &&& bels[b].name == name
    &&& forall|i: int| 0 <= i < b ==> (#[trigger] bels[i]).name != name
}

/// The index of the first BEL with the given name.
pub fn find_bel(bels: &Vec<BELInfo>, name: ResourceName) -> (r: Option<usize>)
    ensures
        match r {
            Some(b) => is_first_bel(bels@, name, b as int),
            None => forall|i: int| 0 <= i < bels@.len() ==> (#[trigger] bels@[i]).name != name,
        },
{
    let mut b: usize = 0;
    while b < bels.len()
        invariant
            b <= bels@.len(),
            forall|i: int| 0 <= i < b ==> (#[trigger] bels@[i]).name != name,
        decreases bels@.len() - b,
    {
        if bels[b].name == name {
            return Some(b);
        }
        b += 1;
    }
    None
}

impl BELInfo {
    /// The index of the first pin of the BEL with the given name.
    pub fn find_pin(&self, name: ResourceName) -> (r: Option<usize>)
        ensures
            match r {
                Some(i) => is_first_pin(self.pins@, name, i as int),
                None => forall|k: int|
                    0 <= k < self.pins@.len() ==> (#[trigger] self.pins@[k]).name != name,
            },
    {
        let mut i: usize = 0;
        while i < self.pins.len()
            invariant
                i <= self.pins.len(),
                forall|k: int| 0 <= k < i ==> (#[trigger] self.pins@[k]).name != name,
            decreases self.pins.len() - i,
        {
            if self.pins[i].name == name {
                return Some(i);
            }
            i += 1;
        }
        None
    }
}

/// Uniquely identifies a site pin within a given site type.
#[derive(Copy, Clone, Debug, Hash, PartialEq, Eq, Structural, PartialOrd, Ord)]
pub struct SitePinId(pub usize);

/// Holds the name components of a site pin within a site type.
#[derive(Debug)]
pub struct SitePinName {
    pub bel: String,
    pub pin: String,
}

impl SitePinName {
    /// The name of the pin `pin` of the BEL `bel`.
    pub fn new(bel: &str, pin: &str) -> (r: Self)
        ensures
            r.bel@ == bel@,
            r.pin@ == pin@,
    {
        Self { bel: String::from_str(bel), pin: String::from_str(pin) }
    }

    /// The full name of the pin: the name of the BEL, a dot, and the name of
    /// the pin within the BEL.
    pub open spec fn text(&self) -> Seq<char> {
        self.bel@ + seq!['.'] + self.pin@
    }

    /// The full name of the pin.
    pub fn to_string(&self) -> (r: String)
        ensures
            r@ == self.text(),
    {
        let mut s = String::from_str(self.bel.as_str());
        proof {
            reveal_strlit(".");
        }
        s.append(".");
        s.append(self.pin.as_str());
        assert(".".view() =~= seq!['.']);
        s
    }
}

} // verus!
