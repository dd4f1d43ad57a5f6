//! The BELs of a site type, gathered from the device and extended with the
//! BELs that carry the constant nets.

use super::names::{BELCategory, BELInfo, BELPin, PinDir, ResourceName};
use crate::common::IcStr;
use crate::device::{ConstantType, Device, SiteType};
use crate::strings::GlobalStringsCtx;
use vstd::prelude::*;
use vstd::string::StringExecFns;

verus! {

/// What can be wrong with the description of a site type.
#[derive(Copy, Clone, PartialEq, Eq, Structural, Debug)]
pub enum SiteError {
    /// A BEL, a site wire or a site pseudo-pip lists a pin that is not in
    /// the pin list of the site type.
    PinOutOfRange(u32),
    /// A name is not in the string table of the device.
    StringOutOfRange(u32),
    /// Two BELs of the site have the same name.
    DuplicateBel(usize, usize),
    /// A pin or a constant source belongs to a BEL that the site does not
    /// have.
    UnknownBel(u32),
    /// A BEL has no pin of the name that one of its pins is listed with.
    UnknownPin(u32, u32),
    /// The two pins of a site pseudo-pip belong to different BELs.
    PipAcrossBels(u32, u32),
    /// A site pseudo-pip runs through a site port.
    PipOnSitePort(usize),
    /// A constant source is neither a source of VCC nor one of GND.
    UnsupportedConstant,
    /// The pin of a constant source is on no site wire.
    SourceOffWire(u32, u32),
    /// The port of a constant net or the routing BEL of a constant source
    /// is not among the BELs.
    MissingVirtualBel,
    /// The site has more pins than a routing graph can hold.
    TooManyPins,
    /// The device has no site type with the index.
    UnknownSiteType(u32),
}

/// A pin on a site wire, by the name of its BEL and its own name.
#[derive(Copy, Clone, Debug)]
pub struct WireOfPin {
    pub bel: u32,
    pub pin: u32,
    pub wire: usize,
}

/// Every pin listed by a BEL is in the pin list of the site type.
pub open spec fn bels_in_range(st: &SiteType) -> bool {
    forall|b: int, k: int|
        0 <= b < st.bels@.len() && 0 <= k < st.bels@[b].pins@.len() ==> (
        #[trigger] st.bels@[b].pins@[k]) < st.bel_pins@.len()
}

/// Every pin listed by a site wire is in the pin list of the site type.
pub open spec fn wires_in_range(st: &SiteType) -> bool {
    forall|w: int, k: int|
        0 <= w < st.site_wires@.len() && 0 <= k < st.site_wires@[w].pins@.len() ==> (
        #[trigger] st.site_wires@[w].pins@[k]) < st.bel_pins@.len()
}

/// The site wire `w` has the pin at `k` of its list, and that is the pin
/// `pin` of the BEL `bel`.
pub open spec fn on_wire_at(st: &SiteType, w: int, k: int, bel: u32, pin: u32) -> bool {
    &&& 0 <= w < st.site_wires@.len()
    &&& 0 <= k < st.site_wires@[w].pins@.len()
    &&& st.site_wires@[w].pins@[k] < st.bel_pins@.len()
    &&& st.bel_pins@[st.site_wires@[w].pins@[k] as int].bel == bel
    &&& st.bel_pins@[st.site_wires@[w].pins@[k] as int].name == pin
}

/// The pin `pin` of the BEL `bel` is on the site wire `w`.
pub open spec fn on_wire(st: &SiteType, w: int, bel: u32, pin: u32) -> bool {
    exists|k: int| on_wire_at(st, w, k, bel, pin)
}

/// The table lists the pins of the site wires that come before the pin at
/// `upto` of the wire `wires`, wire by wire.
pub open spec fn is_wire_table_upto(st: &SiteType, t: Seq<WireOfPin>, wires: int, upto: int) -> bool {
    &&& forall|e: int|
        0 <= e < t.len() ==> (#[trigger] t[e]).wire <= wires && on_wire(
            st,
            t[e].wire as int,
            t[e].bel,
            t[e].pin,
        )
    &&& forall|e: int, g: int| 0 <= e <= g < t.len() ==> (#[trigger] t[e]).wire <= (#[trigger] t[g]).wire
    &&& forall|w: int, k: int, bel: u32, pin: u32|
        #![trigger on_wire_at(st, w, k, bel, pin)]
        on_wire_at(st, w, k, bel, pin) && (w < wires || (w == wires && k < upto)) ==> exists|e: int|
            0 <= e < t.len() && (#[trigger] t[e]).wire == w && t[e].bel == bel && t[e].pin == pin
}

/// The table lists the pins of all site wires, wire by wire.
pub open spec fn is_wire_table(st: &SiteType, t: Seq<WireOfPin>) -> bool {
    is_wire_table_upto(st, t, st.site_wires@.len() as int, 0)
}

/// What an error says of the pins on the site wires: that one of them is
/// not in the pin list of the site type.
pub open spec fn wire_pin_fault(st: &SiteType, e: SiteError) -> bool {
    e matches SiteError::PinOutOfRange(p) && p >= st.bel_pins@.len() && exists|w: int, k: int|
        0 <= w < st.site_wires@.len() && 0 <= k < st.site_wires@[w].pins@.len() && (
        #[trigger] st.site_wires@[w].pins@[k]) == p
}

/// What an error says of the pins of the BELs: that one of them is not in
/// the pin list of the site type.
pub open spec fn bel_pin_fault(st: &SiteType, e: SiteError) -> bool {
    e matches SiteError::PinOutOfRange(p) && p >= st.bel_pins@.len() && exists|b: int, k: int|
        0 <= b < st.bels@.len() && 0 <= k < st.bels@[b].pins@.len() && (
        #[trigger] st.bels@[b].pins@[k]) == p
}

/// Lists the pins of all site wires by the name of their BEL and their own
/// name, each with its wire, in the order of the wires.
pub fn create_belname_pinname_to_wire_lookup(st: &SiteType) -> (r: Result<Vec<WireOfPin>, SiteError>)
    ensures
        r is Ok <==> wires_in_range(st),
        r matches Ok(t) ==> is_wire_table(st, t@),
        r matches Err(e) ==> wire_pin_fault(st, e),
{
    let mut table: Vec<WireOfPin> = Vec::new();
    let mut w: usize = 0;
    while w < st.site_wires.len()
        invariant
            w <= st.site_wires@.len(),
            is_wire_table_upto(st, table@, w as int, 0),
            forall|w2: int, k: int|
                0 <= w2 < w && 0 <= k < st.site_wires@[w2].pins@.len() ==> (
                #[trigger] st.site_wires@[w2].pins@[k]) < st.bel_pins@.len(),
        decreases st.site_wires@.len() - w,
    {
        let wire = &st.site_wires[w];
        let mut k: usize = 0;
        while k < wire.pins.len()
            invariant
                w < st.site_wires@.len(),
                wire == &st.site_wires@[w as int],
                k <= wire.pins@.len(),
                is_wire_table_upto(st, table@, w as int, k as int),
                forall|w2: int, k2: int|
                    0 <= w2 < w && 0 <= k2 < st.site_wires@[w2].pins@.len() ==> (
                    #[trigger] st.site_wires@[w2].pins@[k2]) < st.bel_pins@.len(),
                forall|k2: int| 0 <= k2 < k ==> (#[trigger] wire.pins@[k2]) < st.bel_pins@.len(),
            decreases wire.pins@.len() - k,
        {
            let p = wire.pins[k];
            if p as usize >= st.bel_pins.len() {
                assert(!(st.site_wires@[w as int].pins@[k as int] < st.bel_pins@.len()));
                assert(st.site_wires@[w as int].pins@[k as int] == p);
                return Err(SiteError::PinOutOfRange(p));
            }
            let bel_pin = &st.bel_pins[p as usize];
            let entry = WireOfPin { bel: bel_pin.bel, pin: bel_pin.name, wire: w };
            let ghost before = table@;
            table.push(entry);
            proof {
                let t = table@;
                assert(on_wire_at(st, w as int, k as int, entry.bel, entry.pin));
                assert forall|e: int| 0 <= e < t.len() implies (#[trigger] t[e]).wire <= w
                    && on_wire(st, t[e].wire as int, t[e].bel, t[e].pin) by {
                    if e < before.len() {
                        assert(t[e] == before[e]);
                    }
                }
                assert forall|e: int, g: int| 0 <= e <= g < t.len() implies (#[trigger] t[e]).wire
                    <= (#[trigger] t[g]).wire by {
                    if g < before.len() {
                        assert(t[e] == before[e]);
                        assert(t[g] == before[g]);
                    } else if e < before.len() {
                        assert(t[e] == before[e]);
                    }
                }
                assert forall|w2: int, k2: int, bel: u32, pin: u32|
                    #![trigger on_wire_at(st, w2, k2, bel, pin)]
                    on_wire_at(st, w2, k2, bel, pin) && (w2 < w || (w2 == w && k2 < k + 1))
                    implies exists|e: int|
                    0 <= e < t.len() && (#[trigger] t[e]).wire == w2 && t[e].bel == bel && t[e].pin
                        == pin by {
                    if w2 == w && k2 == k {
                        assert(t[before.len() as int] == entry);
                    } else {
                        let e = choose|e: int|
                            0 <= e < before.len() && (#[trigger] before[e]).wire == w2 && before[e].bel
                                == bel && before[e].pin == pin;
                        assert(t[e] == before[e]);
                    }
                }
            }
            k += 1;
        }
        proof {
            let t = table@;
            assert forall|w2: int, k2: int, bel: u32, pin: u32|
                #![trigger on_wire_at(st, w2, k2, bel, pin)]
                on_wire_at(st, w2, k2, bel, pin) && (w2 < w + 1 || (w2 == w + 1 && k2 < 0))
                implies exists|e: int|
                0 <= e < t.len() && (#[trigger] t[e]).wire == w2 && t[e].bel == bel && t[e].pin
                    == pin by {
                assert(w2 < w || (w2 == w && k2 < k));
            }
        }
        w += 1;
    }
    Ok(table)
}

/// The last site wire that the pin `pin` of the BEL `bel` is on.
pub fn lookup_wire(st: &SiteType, table: &Vec<WireOfPin>, bel: u32, pin: u32) -> (r: Option<usize>)
    requires
        is_wire_table(st, table@),
    ensures
        match r {
            Some(w) => {
                &&& w < st.site_wires@.len()
                &&& on_wire(st, w as int, bel, pin)
                &&& forall|w2: int| w < w2 ==> !on_wire(st, w2, bel, pin)
            },
            None => forall|w2: int| !on_wire(st, w2, bel, pin),
        },
{
    let mut e = table.len();
    while e > 0
        invariant
            e <= table@.len(),
            is_wire_table(st, table@),
            forall|g: int|
                e <= g < table@.len() ==> !((#[trigger] table@[g]).bel == bel && table@[g].pin
                    == pin),
        decreases e,
    {
        e -= 1;
        let entry = &table[e];
        if entry.bel == bel && entry.pin == pin {
            proof {
                let w = entry.wire as int;
                assert(on_wire(st, table@[e as int].wire as int, bel, pin));
                let k0 = choose|k: int| on_wire_at(st, w, k, bel, pin);
                assert(on_wire_at(st, w, k0, bel, pin));
                assert forall|w2: int| w < w2 implies !on_wire(st, w2, bel, pin) by {
                    if on_wire(st, w2, bel, pin) {
                        let k = choose|k: int| on_wire_at(st, w2, k, bel, pin);
                        assert(on_wire_at(st, w2, k, bel, pin));
                        let g = choose|g: int|
                            0 <= g < table@.len() && (#[trigger] table@[g]).wire == w2
                                && table@[g].bel == bel && table@[g].pin == pin;
                        if g < e {
                            assert(table@[g].wire <= table@[e as int].wire);
                        }
                    }
                }
            }
            return Some(entry.wire);
        }
    }
    proof {
        assert forall|w2: int| !on_wire(st, w2, bel, pin) by {
            if on_wire(st, w2, bel, pin) {
                let k = choose|k: int| on_wire_at(st, w2, k, bel, pin);
                assert(on_wire_at(st, w2, k, bel, pin));
                let g = choose|g: int|
                    0 <= g < table@.len() && (#[trigger] table@[g]).wire == w2 && table@[g].bel
                        == bel && table@[g].pin == pin;
            }
        }
    }
    None
}

/// The name of a constant net.
pub open spec fn net_name(constant: ConstantType) -> Seq<char> {
    match constant {
        ConstantType::Vcc => "$VCC"@,
        ConstantType::Gnd => "$GND"@,
        ConstantType::NoPreference => Seq::empty(),
    }
}

/// The name of the routing BEL between the port of a constant net and a
/// BEL that is a source of the constant: the name of the BEL, the name of
/// the net and `SITE_WIRE`, joined by underscores.
pub open spec fn pipbel_name(bel_name: Seq<char>, net_name: Seq<char>) -> Seq<char> {
    bel_name + "_"@ + net_name + "_SITE_WIRE"@
}

/// A BEL that is added to a site for its constant nets.
pub enum VirtualBel {
    /// The site port that brings the constant net into the site.
    Port(ConstantType),
    /// The routing BEL for the constant source with the given index.
    Pip(int),
}

/// Is the constant source one of the site type?
pub open spec fn source_in_site(device: &Device, st: &SiteType, s: int) -> bool {
    0 <= s < device.site_sources@.len() && device.site_sources@[s].site_type == st.name
}

/// The BELs that are added for the first `upto` constant sources of the
/// device, in their order: for each source of the site type the port of its
/// net, unless an earlier source has brought it, and the routing BEL of the
/// source.
pub open spec fn virtual_plan(device: &Device, st: &SiteType, upto: int) -> Seq<VirtualBel>
    decreases upto,
{
    if upto <= 0 {
        Seq::empty()
    } else {
        let before = virtual_plan(device, st, upto - 1);
        if source_in_site(device, st, upto - 1) {
            let constant = device.site_sources@[upto - 1].constant;
            let with_port = if before.contains(VirtualBel::Port(constant)) {
                before
            } else {
                before.push(VirtualBel::Port(constant))
            };
            with_port.push(VirtualBel::Pip(upto - 1))
        } else {
            before
        }
    }
}

/// The BEL is the BEL at `b` of the site type, its pins in their order.
pub open spec fn is_device_bel(st: &SiteType, b: int, bel: BELInfo) -> bool {
    &&& bel.name == ResourceName::DeviceResources(st.bels@[b].name)
    &&& bel.category == st.bels@[b].category
    &&& bel.pins@.len() == st.bels@[b].pins@.len()
    &&& forall|k: int|
        0 <= k < bel.pins@.len() ==> (#[trigger] bel.pins@[k]) == (BELPin {
            name: ResourceName::DeviceResources(
                st.bel_pins@[st.bels@[b].pins@[k] as int].name,
            ),
            dir: st.bel_pins@[st.bels@[b].pins@[k] as int].dir,
        })
}

/// The BEL is a site port with one output pin, and both bear the pooled
/// name `name`.
pub open spec fn is_input_port_bel(pool: Seq<Seq<char>>, name: Seq<char>, bel: BELInfo) -> bool {
    &&& bel.category is SitePort
    &&& bel.name matches ResourceName::Virtual(id)
    &&& id.0 < pool.len()
    &&& pool[id.0 as int] == name
    &&& bel.pins@ == seq![BELPin { name: bel.name, dir: PinDir::Output }]
}

/// The BEL is a routing BEL with an input pin and an output pin of the
/// given names.
pub open spec fn is_pip_bel(name: ResourceName, input: ResourceName, output: ResourceName, bel: BELInfo) -> bool {
    &&& bel.category is LogicOrRouting
    &&& bel.name == name
    &&& bel.pins@ == seq![
        BELPin { name: input, dir: PinDir::Input },
        BELPin { name: output, dir: PinDir::Output },
    ]
}

/// The BEL is what the plan asks for: the port of a constant net, named
/// after the net, or the routing BEL of a constant source, named after the
/// BEL of the source and the net, with an input pin named after the BEL of
/// the source and an output pin named after the last site wire that the pin
/// of the source is on.
pub open spec fn is_virtual_bel(
    device: &Device,
    st: &SiteType,
    pool: Seq<Seq<char>>,
    planned: VirtualBel,
    bel: BELInfo,
) -> bool {
    match planned {
        VirtualBel::Port(constant) => is_input_port_bel(pool, net_name(constant), bel),
        VirtualBel::Pip(s) => {
            let source = device.site_sources@[s];
            &&& 0 <= s < device.site_sources@.len()
            &&& source.bel < device.strings().len()
            &&& bel.name matches ResourceName::Virtual(id)
            &&& id.0 < pool.len()
            &&& pool[id.0 as int] == pipbel_name(
                device.strings()[source.bel as int],
                net_name(source.constant),
            )
            &&& exists|w: int|
                {
                    &&& 0 <= w < st.site_wires@.len()
                    &&& on_wire(st, w, source.bel, source.bel_pin)
                    &&& forall|w2: int| w < w2 ==> !on_wire(st, w2, source.bel, source.bel_pin)
                    &&& #[trigger] is_pip_bel(
                        bel.name,
                        ResourceName::DeviceResources(source.bel),
                        ResourceName::DeviceResources(st.site_wires@[w].name),
                        bel,
                    )
                }
        },
    }
}

/// The constant sources of the site type can be given their BELs: each is
/// on a site wire, is a source of VCC or of GND, and the name of its BEL is
/// in the string table.
pub open spec fn sources_ok(device: &Device, st: &SiteType, upto: int) -> bool {
    forall|s: int|
        0 <= s < upto && #[trigger] source_in_site(device, st, s) ==> {
            let source = device.site_sources@[s];
            &&& source.bel < device.strings().len()
            &&& !(source.constant is NoPreference)
            &&& exists|w: int| on_wire(st, w, source.bel, source.bel_pin)
        }
}

/// What an error says of the constant source `s`: that its pin is on no
/// site wire, that the name of its BEL is not in the string table, or that
/// it is neither a source of VCC nor one of GND.
pub open spec fn source_fault_at(device: &Device, st: &SiteType, s: int, e: SiteError) -> bool {
    let source = device.site_sources@[s];
    &&& source_in_site(device, st, s)
    &&& match e {
        SiteError::SourceOffWire(bel, pin) => bel == source.bel && pin == source.bel_pin
            && forall|w: int| !on_wire(st, w, bel, pin),
        SiteError::StringOutOfRange(id) => id == source.bel && id >= device.strings().len(),
        SiteError::UnsupportedConstant => source.constant is NoPreference,
        _ => false,
    }
}

/// What an error says of the gathering of the BELs: that a BEL lists a pin
/// that is not in the pin list, or, where the constant nets are asked for,
/// that a site wire does, or that a constant source of the site type is
/// faulty.
pub open spec fn gather_fault(
    device: &Device,
    st: &SiteType,
    add_virtual_consts: bool,
    e: SiteError,
) -> bool {
    ||| bel_pin_fault(st, e)
    ||| add_virtual_consts && wire_pin_fault(st, e)
    ||| add_virtual_consts && exists|s: int| #[trigger] source_fault_at(device, st, s, e)
}

/// The BELs of the site type can be gathered.
pub open spec fn gather_ok(device: &Device, st: &SiteType, add_virtual_consts: bool) -> bool {
    &&& bels_in_range(st)
    &&& add_virtual_consts ==> wires_in_range(st) && sources_ok(
        device,
        st,
        device.site_sources@.len() as int,
    )
}

/// The BELs are those of the site type, in their order, followed by the
/// BELs for the constant nets if those are asked for.
pub open spec fn is_gathered(
    device: &Device,
    st: &SiteType,
    add_virtual_consts: bool,
    pool: Seq<Seq<char>>,
    bels: Seq<BELInfo>,
) -> bool {
    let plan = if add_virtual_consts {
        virtual_plan(device, st, device.site_sources@.len() as int)
    } else {
        Seq::empty()
    };
    &&& bels.len() == st.bels@.len() + plan.len()
    &&& forall|b: int| 0 <= b < st.bels@.len() ==> is_device_bel(st, b, #[trigger] bels[b])
    &&& forall|e: int|
        0 <= e < plan.len() ==> is_virtual_bel(
            device,
            st,
            pool,
            plan[e],
            #[trigger] bels[st.bels@.len() + e],
        )
}

/// Creates a BEL that acts as site's input pin.
///
/// The BEL will have a single pin, that will output the input for a site.
/// The pin will have the same name as the BEL.
///
/// ```text
///              +--------------...
///              |     SITE     ...
///              |+-----+       ...
/// site_pin-----||     |--pin  ...
///              |+-----+       ...
///              +--------------...
/// ```
pub fn create_input_port_bel(name: &str, gsctx: &mut GlobalStringsCtx) -> (r: BELInfo)
    requires
        old(gsctx).wf(),
    ensures
        final(gsctx).wf(),
        old(gsctx)@.is_prefix_of(final(gsctx)@),
        is_input_port_bel(final(gsctx)@, name@, r),
{
    let id = gsctx.create_global_string(name);
    let mut pins: Vec<BELPin> = Vec::new();
    pins.push(BELPin { name: ResourceName::Virtual(id), dir: PinDir::Output });
    assert(pins@ =~= seq![BELPin { name: ResourceName::Virtual(id), dir: PinDir::Output }]);
    BELInfo { name: ResourceName::Virtual(id), category: BELCategory::SitePort, pins }
}

/// Creates a routing BEL that acts as a pseudo-pip.
///
/// ```text
///        +-----+
/// input--| PIP |--output
///        +-----+
/// ```
pub fn create_pip_bel(name: ResourceName, input: ResourceName, output: ResourceName) -> (r: BELInfo)
    ensures
        is_pip_bel(name, input, output, r),
{
    let mut pins: Vec<BELPin> = Vec::new();
    pins.push(BELPin { name: input, dir: PinDir::Input });
    pins.push(BELPin { name: output, dir: PinDir::Output });
    assert(pins@ =~= seq![
        BELPin { name: input, dir: PinDir::Input },
        BELPin { name: output, dir: PinDir::Output },
    ]);
    BELInfo { name, category: BELCategory::LogicOrRouting, pins }
}

/// Creates a name for routing BEL between $VCC/$GND and constant generator.
pub fn create_vconst_net_pipbel_name(
    bel_name: &str,
    net_name: &str,
    gsctx: &mut GlobalStringsCtx,
) -> (r: ResourceName)
    requires
        old(gsctx).wf(),
    ensures
        final(gsctx).wf(),
        old(gsctx)@.is_prefix_of(final(gsctx)@),
        r matches ResourceName::Virtual(id) && id.0 < final(gsctx)@.len() && final(gsctx)@[id.0 as int]
            == pipbel_name(bel_name@, net_name@),
{
    let mut name = String::from_str(bel_name);
    name.append("_");
    name.append(net_name);
    name.append("_SITE_WIRE");
    ResourceName::Virtual(gsctx.create_global_string(name.as_str()))
}

/// The text of the name of a constant net.
fn net_name_of(constant: ConstantType) -> (r: &'static str)
    requires
        !(constant is NoPreference),
    ensures
        r@ == net_name(constant),
{
    match constant {
        ConstantType::Vcc => "$VCC",
        _ => "$GND",
    }
}

/// The BEL at `b` of the site type, with its pins.
fn gather_device_bel(st: &SiteType, b: usize) -> (r: Result<BELInfo, SiteError>)
    requires
        b < st.bels@.len(),
    ensures
        r is Ok <==> forall|k: int|
            0 <= k < st.bels@[b as int].pins@.len() ==> (#[trigger] st.bels@[b as int].pins@[k])
                < st.bel_pins@.len(),
        r matches Ok(bel) ==> is_device_bel(st, b as int, bel),
        r matches Err(e) ==> bel_pin_fault(st, e),
{
    let desc = &st.bels[b];
    let mut pins: Vec<BELPin> = Vec::new();
    let mut k: usize = 0;
    while k < desc.pins.len()
        invariant
            b < st.bels@.len(),
            desc == &st.bels@[b as int],
            k <= desc.pins@.len(),
            pins@.len() == k,
            forall|i: int| 0 <= i < k ==> (#[trigger] desc.pins@[i]) < st.bel_pins@.len(),
            forall|i: int|
                0 <= i < k ==> (#[trigger] pins@[i]) == (BELPin {
                    name: ResourceName::DeviceResources(st.bel_pins@[desc.pins@[i] as int].name),
                    dir: st.bel_pins@[desc.pins@[i] as int].dir,
                }),
        decreases desc.pins@.len() - k,
    {
        let p = desc.pins[k];
        if p as usize >= st.bel_pins.len() {
            assert(st.bels@[b as int].pins@[k as int] == p);
            return Err(SiteError::PinOutOfRange(p));
        }
        let pin = &st.bel_pins[p as usize];
        pins.push(BELPin { name: ResourceName::DeviceResources(pin.name), dir: pin.dir });
        k += 1;
    }
    Ok(BELInfo { name: ResourceName::DeviceResources(desc.name), category: desc.category, pins })
}

/// Gathers the BELs of a site type in the order of the device.  With
/// `add_virtual_consts` the BELs for the constant nets follow: for every
/// constant source of the site type a site port named `$VCC` or `$GND`,
/// one for each net, and a routing BEL between the port and the wire of the
/// source.
pub fn gather_bels_in_site_type(
    device: &Device,
    st: &SiteType,
    add_virtual_consts: bool,
    gsctx: &mut GlobalStringsCtx,
) -> (r: Result<Vec<BELInfo>, SiteError>)
    requires
        old(gsctx).wf(),
    ensures
        final(gsctx).wf(),
        old(gsctx)@.is_prefix_of(final(gsctx)@),
        !add_virtual_consts ==> final(gsctx)@ == old(gsctx)@,
        r is Ok <==> gather_ok(device, st, add_virtual_consts),
        r matches Ok(bels) ==> is_gathered(device, st, add_virtual_consts, final(gsctx)@, bels@),
        r matches Err(e) ==> gather_fault(device, st, add_virtual_consts, e),
{
    let mut bels: Vec<BELInfo> = Vec::new();
    let n = st.bels.len();
    let mut b: usize = 0;
    while b < n
        invariant
            n == st.bels@.len(),
            b <= n,
            bels@.len() == b,
            *gsctx == *old(gsctx),
            gsctx.wf(),
            forall|i: int, k: int|
                0 <= i < b && 0 <= k < st.bels@[i].pins@.len() ==> (#[trigger] st.bels@[i].pins@[k])
                    < st.bel_pins@.len(),
            forall|i: int| 0 <= i < b ==> is_device_bel(st, i, #[trigger] bels@[i]),
        decreases n - b,
    {
        match gather_device_bel(st, b) {
            Ok(bel) => {
                bels.push(bel);
            },
            Err(e) => {
                assert(!bels_in_range(st));
                return Err(e);
            },
        }
        b += 1;
    }
    assert(bels_in_range(st));
    if !add_virtual_consts {
        return Ok(bels);
    }
    let table = match create_belname_pinname_to_wire_lookup(st) {
        Ok(table) => table,
        Err(e) => {
            return Err(e);
        },
    };
    let mut vcc_added = false;
    let mut gnd_added = false;
    let count = device.site_sources.len();
    let mut s: usize = 0;
    while s < count
        invariant
            n == st.bels@.len(),
            count == device.site_sources@.len(),
            s <= count,
            add_virtual_consts,
            bels_in_range(st),
            wires_in_range(st),
            is_wire_table(st, table@),
            gsctx.wf(),
            old(gsctx)@.is_prefix_of(gsctx@),
            sources_ok(device, st, s as int),
            vcc_added == virtual_plan(device, st, s as int).contains(
                VirtualBel::Port(ConstantType::Vcc),
            ),
            gnd_added == virtual_plan(device, st, s as int).contains(
                VirtualBel::Port(ConstantType::Gnd),
            ),
            !virtual_plan(device, st, s as int).contains(
                VirtualBel::Port(ConstantType::NoPreference),
            ),
            bels@.len() == n + virtual_plan(device, st, s as int).len(),
            forall|i: int| 0 <= i < n ==> is_device_bel(st, i, #[trigger] bels@[i]),
            forall|e: int|
                0 <= e < virtual_plan(device, st, s as int).len() ==> is_virtual_bel(
                    device,
                    st,
                    gsctx@,
                    virtual_plan(device, st, s as int)[e],
                    #[trigger] bels@[n + e],
                ),
        decreases count - s,
    {
        let source = &device.site_sources[s];
        let ghost before_plan = virtual_plan(device, st, s as int);
        let ghost after_plan = virtual_plan(device, st, s as int + 1);
        if source.site_type == st.name {
            assert(source_in_site(device, st, s as int));
            let wire_id = match lookup_wire(st, &table, source.bel, source.bel_pin) {
                Some(w) => w,
                None => {
                    assert(!sources_ok(device, st, count as int));
                    assert(source_fault_at(
                        device,
                        st,
                        s as int,
                        SiteError::SourceOffWire(source.bel, source.bel_pin),
                    ));
                    return Err(SiteError::SourceOffWire(source.bel, source.bel_pin));
                },
            };
            if source.bel as usize >= device.str_list.len() {
                assert(!sources_ok(device, st, count as int));
                assert(source_fault_at(
                    device,
                    st,
                    s as int,
                    SiteError::StringOutOfRange(source.bel),
                ));
                return Err(SiteError::StringOutOfRange(source.bel));
            }
            let bel_name = device.ic_str(source.bel);
            if let ConstantType::NoPreference = source.constant {
                assert(!sources_ok(device, st, count as int));
                assert(source_fault_at(device, st, s as int, SiteError::UnsupportedConstant));
                return Err(SiteError::UnsupportedConstant);
            }
            let net = net_name_of(source.constant);
            let ghost pool0 = gsctx@;
            let ghost bels0 = bels@;
            let added = match source.constant {
                ConstantType::Vcc => vcc_added,
                _ => gnd_added,
            };
            assert(added == before_plan.contains(VirtualBel::Port(source.constant)));
            if !added {
                bels.push(create_input_port_bel(net, gsctx));
                match source.constant {
                    ConstantType::Vcc => {
                        vcc_added = true;
                    },
                    _ => {
                        gnd_added = true;
                    },
                }
            }
            let ghost with_port = if added {
                before_plan
            } else {
                before_plan.push(VirtualBel::Port(source.constant))
            };
            let ghost pool1 = gsctx@;
            let ghost bels1 = bels@;
            let pip_name = create_vconst_net_pipbel_name(bel_name, net, gsctx);
            bels.push(
                create_pip_bel(
                    pip_name,
                    ResourceName::DeviceResources(source.bel),
                    ResourceName::DeviceResources(st.site_wires[wire_id].name),
                ),
            );
            proof {
                let pool2 = gsctx@;
                assert(after_plan == with_port.push(VirtualBel::Pip(s as int)));
                assert forall|e: int| 0 <= e < after_plan.len() implies is_virtual_bel(
                    device,
                    st,
                    pool2,
                    after_plan[e],
                    #[trigger] bels@[n + e],
                ) by {
                    if e < before_plan.len() {
                        assert(bels@[n + e] == bels0[n + e]);
                        assert(after_plan[e] == before_plan[e]);
                        assert(is_virtual_bel(device, st, pool0, before_plan[e], bels0[n + e]));
                        lemma_virtual_bel_in_grown_pool(
                            device,
                            st,
                            pool0,
                            pool2,
                            before_plan[e],
                            bels0[n + e],
                        );
                    } else if e < with_port.len() {
                        assert(bels@[n + e] == bels1[n + e]);
                        assert(after_plan[e] == VirtualBel::Port(source.constant));
                        lemma_virtual_bel_in_grown_pool(
                            device,
                            st,
                            pool1,
                            pool2,
                            after_plan[e],
                            bels1[n + e],
                        );
                    } else {
                        assert(after_plan[e] == VirtualBel::Pip(s as int));
                        assert(is_pip_bel(
                            bels@[n + e].name,
                            ResourceName::DeviceResources(source.bel),
                            ResourceName::DeviceResources(st.site_wires@[wire_id as int].name),
                            bels@[n + e],
                        ));
                    }
                }
                assert(vcc_added == after_plan.contains(VirtualBel::Port(ConstantType::Vcc))) by {
                    lemma_plan_contains_port(before_plan, with_port, after_plan, source.constant, s as int, ConstantType::Vcc);
                }
                assert(gnd_added == after_plan.contains(VirtualBel::Port(ConstantType::Gnd))) by {
                    lemma_plan_contains_port(before_plan, with_port, after_plan, source.constant, s as int, ConstantType::Gnd);
                }
                assert(!after_plan.contains(VirtualBel::Port(ConstantType::NoPreference))) by {
                    lemma_plan_contains_port(before_plan, with_port, after_plan, source.constant, s as int, ConstantType::NoPreference);
                }
                assert(sources_ok(device, st, s as int + 1));
            }
        } else {
            assert(!source_in_site(device, st, s as int));
            assert(after_plan == before_plan);
            assert(sources_ok(device, st, s as int + 1));
        }
        s += 1;
    }
    Ok(bels)
}

/// A BEL for a constant net stays what it is when the pool of strings
/// grows.
pub proof fn lemma_virtual_bel_in_grown_pool(
    device: &Device,
    st: &SiteType,
    pool: Seq<Seq<char>>,
    grown: Seq<Seq<char>>,
    planned: VirtualBel,
    bel: BELInfo,
)
    requires
        pool.is_prefix_of(grown),
        is_virtual_bel(device, st, pool, planned, bel),
    ensures
        is_virtual_bel(device, st, grown, planned, bel),
{
    match planned {
        VirtualBel::Port(constant) => {},
        VirtualBel::Pip(s) => {
            let source = device.site_sources@[s];
            let w = choose|w: int|
                {
                    &&& 0 <= w < st.site_wires@.len()
                    &&& on_wire(st, w, source.bel, source.bel_pin)
                    &&& forall|w2: int| w < w2 ==> !on_wire(st, w2, source.bel, source.bel_pin)
                    &&& #[trigger] is_pip_bel(
                        bel.name,
                        ResourceName::DeviceResources(source.bel),
                        ResourceName::DeviceResources(st.site_wires@[w].name),
                        bel,
                    )
                };
        },
    }
}

/// Which ports a plan holds after one more constant source was planned
/// for.
proof fn lemma_plan_contains_port(
    before: Seq<VirtualBel>,
    with_port: Seq<VirtualBel>,
    after: Seq<VirtualBel>,
    constant: ConstantType,
    s: int,
    asked: ConstantType,
)
    requires
        with_port == if before.contains(VirtualBel::Port(constant)) {
            before
        } else {
            before.push(VirtualBel::Port(constant))
        },
        after == with_port.push(VirtualBel::Pip(s)),
    ensures
        after.contains(VirtualBel::Port(asked)) == (before.contains(VirtualBel::Port(asked))
            || asked == constant),
{
    let port = VirtualBel::Port(asked);
    if after.contains(port) {
        let i = choose|i: int| 0 <= i < after.len() && after[i] == port;
        assert(i < with_port.len());
        assert(with_port[i] == port);
        if i < before.len() {
            assert(before[i] == port);
        }
    }
    if before.contains(port) {
        let i = choose|i: int| 0 <= i < before.len() && before[i] == port;
        assert(with_port[i] == port);
        assert(after[i] == port);
    }
    if asked == constant {
        if before.contains(VirtualBel::Port(constant)) {
        } else {
            assert(with_port[before.len() as int] == port);
            assert(after[before.len() as int] == port);
        }
    }
}

} // verus!
