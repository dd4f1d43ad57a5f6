//! The edges that bring the constant nets into a site: from the port of the
//! net through the routing BEL of every constant source to the sinks of the
//! source.

use super::graph::{lemma_lists_push, lists, RoutingGraph};
use super::names::{find_bel, is_first_bel, is_first_pin, BELInfo, ResourceName};
use super::site::{create_belname_pinname_to_wire_lookup, lookup_wire, net_name, on_wire, pipbel_name, source_in_site, wire_pin_fault, wires_in_range, SiteError};
use super::site_graph::{is_pin, lemma_pin_id_unique, pin_base, pin_count, pin_id};
use crate::common::IcStr;
use crate::device::{ConstantType, Device, SiteType};
use crate::strings::GlobalStringsCtx;
use vstd::prelude::*;
use vstd::string::StringExecFns;

verus! {

/// The name is an interned string with the given characters.
pub open spec fn named_in_pool(pool: Seq<Seq<char>>, name: ResourceName, text: Seq<char>) -> bool {
    name matches ResourceName::Virtual(id) && id.0 < pool.len() && pool[id.0 as int] == text
}

/// The BEL at `b` bears the interned name with the given characters, and no
/// BEL before it has the same name.
pub open spec fn bel_of_text(bels: Seq<BELInfo>, pool: Seq<Seq<char>>, text: Seq<char>, b: int) -> bool {
    &&& 0 <= b < bels.len()
    &&& named_in_pool(pool, bels[b].name, text)
    &&& is_first_bel(bels, bels[b].name, b)
}

/// No string is in the pool twice.
pub open spec fn pool_distinct(pool: Seq<Seq<char>>) -> bool {
    forall|i: int, j: int| 0 <= i < pool.len() && 0 <= j < pool.len() && i != j ==> pool[i] != pool[j]
}

/// What the constant source `s` is linked with: the port of its net is the
/// BEL at `pb`, the source is the pin at `sk` of the BEL at `sb`, the last
/// site wire that it is on is `w`, and its routing BEL is the BEL at `qb`,
/// with the input pin at `ik` and the output pin at `ok`.
pub open spec fn link_places(
    device: &Device,
    st: &SiteType,
    bels: Seq<BELInfo>,
    pool: Seq<Seq<char>>,
    s: int,
    pb: int,
    sb: int,
    sk: int,
    w: int,
    qb: int,
    ik: int,
    ok: int,
) -> bool {
    let source = device.site_sources@[s];
    let net = net_name(source.constant);
    &&& source_in_site(device, st, s)
    &&& !(source.constant is NoPreference)
    &&& source.bel < device.strings().len()
    &&& bel_of_text(bels, pool, net, pb)
    &&& bels[pb].pins@.len() > 0
    &&& is_first_bel(bels, ResourceName::DeviceResources(source.bel), sb)
    &&& is_first_pin(bels[sb].pins@, ResourceName::DeviceResources(source.bel_pin), sk)
    &&& 0 <= w < st.site_wires@.len()
    &&& on_wire(st, w, source.bel, source.bel_pin)
    &&& forall|w2: int| w < w2 ==> !on_wire(st, w2, source.bel, source.bel_pin)
    &&& bel_of_text(bels, pool, pipbel_name(device.strings()[source.bel as int], net), qb)
    &&& is_first_pin(bels[qb].pins@, ResourceName::DeviceResources(source.bel), ik)
    &&& is_first_pin(bels[qb].pins@, ResourceName::DeviceResources(st.site_wires@[w].name), ok)
}

/// The constant source `s` has all that it is to be linked with.
pub open spec fn source_linkable(
    device: &Device,
    st: &SiteType,
    bels: Seq<BELInfo>,
    pool: Seq<Seq<char>>,
    s: int,
) -> bool {
    exists|pb: int, sb: int, sk: int, w: int, qb: int, ik: int, ok: int|
        #![trigger link_places(device, st, bels, pool, s, pb, sb, sk, w, qb, ik, ok)]
        link_places(device, st, bels, pool, s, pb, sb, sk, w, qb, ik, ok)
}

/// The constant nets can be brought to the first `upto` constant sources:
/// the pins on the site wires are in the pin list, and every constant
/// source of the site type has all that it is to be linked with.
pub open spec fn virtual_ok(
    device: &Device,
    st: &SiteType,
    bels: Seq<BELInfo>,
    pool: Seq<Seq<char>>,
    upto: int,
) -> bool {
    &&& wires_in_range(st)
    &&& forall|s: int|
        0 <= s < upto && #[trigger] source_in_site(device, st, s) ==> source_linkable(
            device,
            st,
            bels,
            pool,
            s,
        )
}

/// The constant source `s` gives an edge from `from` to `to`: from the pin
/// of the port of its net to the input pin of its routing BEL, from there
/// to the output pin of the routing BEL, or from there to a pin that the
/// source has an edge to in `base`.
pub open spec fn virtual_joins(
    device: &Device,
    st: &SiteType,
    bels: Seq<BELInfo>,
    pool: Seq<Seq<char>>,
    base: Set<(int, int)>,
    s: int,
    from: int,
    to: int,
) -> bool {
    exists|pb: int, sb: int, sk: int, w: int, qb: int, ik: int, ok: int|
        #![trigger link_places(device, st, bels, pool, s, pb, sb, sk, w, qb, ik, ok)]
        link_places(device, st, bels, pool, s, pb, sb, sk, w, qb, ik, ok) && {
            ||| from == pin_id(bels, pb, 0) && to == pin_id(bels, qb, ik)
            ||| from == pin_id(bels, qb, ik) && to == pin_id(bels, qb, ok)
            ||| from == pin_id(bels, qb, ok) && base.contains((pin_id(bels, sb, sk), to))
        }
}

/// One of the first `upto` constant sources gives an edge from `from` to
/// `to`.
pub open spec fn virtual_edge(
    device: &Device,
    st: &SiteType,
    bels: Seq<BELInfo>,
    pool: Seq<Seq<char>>,
    base: Set<(int, int)>,
    upto: int,
    from: int,
    to: int,
) -> bool {
    exists|s: int|
        0 <= s < upto && #[trigger] virtual_joins(device, st, bels, pool, base, s, from, to)
}

/// What an error says of the linking of the constant source `s`: which of
/// the things that the source is to be linked with is missing.
pub open spec fn link_fault(
    device: &Device,
    st: &SiteType,
    bels: Seq<BELInfo>,
    pool: Seq<Seq<char>>,
    s: int,
    e: SiteError,
) -> bool {
    let source = device.site_sources@[s];
    let net = net_name(source.constant);
    &&& source_in_site(device, st, s)
    &&& match e {
        SiteError::UnsupportedConstant => source.constant is NoPreference,
        SiteError::MissingVirtualBel => {
            ||| forall|b: int| !bel_of_text(bels, pool, net, b)
            ||| exists|b: int| #[trigger] bel_of_text(bels, pool, net, b) && bels[b].pins@.len() == 0
            ||| source.bel < device.strings().len() && forall|b: int|
                !bel_of_text(
                    bels,
                    pool,
                    pipbel_name(device.strings()[source.bel as int], net),
                    b,
                )
        },
        SiteError::UnknownBel(bel) => bel == source.bel && forall|i: int|
            0 <= i < bels.len() ==> (#[trigger] bels[i]).name != ResourceName::DeviceResources(bel),
        SiteError::UnknownPin(bel, pin) => {
            &&& bel == source.bel
            &&& {
                ||| pin == source.bel_pin && exists|b: int|
                    #![trigger bels[b]]
                    is_first_bel(bels, ResourceName::DeviceResources(bel), b) && forall|k: int|
                        0 <= k < bels[b].pins@.len() ==> (#[trigger] bels[b].pins@[k]).name
                            != ResourceName::DeviceResources(pin)
                ||| source.bel < device.strings().len() && exists|b: int|
                    #![trigger bels[b]]
                    bel_of_text(
                        bels,
                        pool,
                        pipbel_name(device.strings()[source.bel as int], net),
                        b,
                    ) && forall|k: int|
                        0 <= k < bels[b].pins@.len() ==> (#[trigger] bels[b].pins@[k]).name
                            != ResourceName::DeviceResources(pin)
            }
        },
        SiteError::SourceOffWire(bel, pin) => bel == source.bel && pin == source.bel_pin
            && forall|w: int| !on_wire(st, w, bel, pin),
        SiteError::StringOutOfRange(id) => id == source.bel && id >= device.strings().len(),
        _ => false,
    }
}

/// What an error says of the bringing in of the constant nets: that a pin
/// on a site wire is not in the pin list, or that a constant source of the
/// site type cannot be linked.
pub open spec fn virtual_fault(
    device: &Device,
    st: &SiteType,
    bels: Seq<BELInfo>,
    pool: Seq<Seq<char>>,
    e: SiteError,
) -> bool {
    wire_pin_fault(st, e) || exists|s: int| #[trigger] link_fault(device, st, bels, pool, s, e)
}

/// A constant source is linked in one way only.
pub proof fn lemma_link_places_once(
    device: &Device,
    st: &SiteType,
    bels: Seq<BELInfo>,
    pool: Seq<Seq<char>>,
    s: int,
    pb: int,
    sb: int,
    sk: int,
    w: int,
    qb: int,
    ik: int,
    ok: int,
    pb2: int,
    sb2: int,
    sk2: int,
    w2: int,
    qb2: int,
    ik2: int,
    ok2: int,
)
    requires
        pool_distinct(pool),
        link_places(device, st, bels, pool, s, pb, sb, sk, w, qb, ik, ok),
        link_places(device, st, bels, pool, s, pb2, sb2, sk2, w2, qb2, ik2, ok2),
    ensures
        pb == pb2,
        sb == sb2,
        sk == sk2,
        w == w2,
        qb == qb2,
        ik == ik2,
        ok == ok2,
{
    let source = device.site_sources@[s];
    let net = net_name(source.constant);
    lemma_bel_of_text_once(bels, pool, net, pb, pb2);
    lemma_bel_of_text_once(
        bels,
        pool,
        pipbel_name(device.strings()[source.bel as int], net),
        qb,
        qb2,
    );
    lemma_first_bel_once(bels, ResourceName::DeviceResources(source.bel), sb, sb2);
    lemma_first_pin_once(
        bels[sb].pins@,
        ResourceName::DeviceResources(source.bel_pin),
        sk,
        sk2,
    );
    if w < w2 {
        assert(!on_wire(st, w2, source.bel, source.bel_pin));
    }
    if w2 < w {
        assert(!on_wire(st, w, source.bel, source.bel_pin));
    }
    lemma_first_pin_once(bels[qb].pins@, ResourceName::DeviceResources(source.bel), ik, ik2);
    lemma_first_pin_once(
        bels[qb].pins@,
        ResourceName::DeviceResources(st.site_wires@[w].name),
        ok,
        ok2,
    );
}

/// Only one BEL is the first one with a name.
pub proof fn lemma_first_bel_once(bels: Seq<BELInfo>, name: ResourceName, b: int, c: int)
    requires
        is_first_bel(bels, name, b),
        is_first_bel(bels, name, c),
    ensures
        b == c,
{
    if b < c {
        assert(bels[b].name != name);
    }
    if c < b {
        assert(bels[c].name != name);
    }
}

/// Only one pin is the first one with a name.
pub proof fn lemma_first_pin_once(pins: Seq<super::names::BELPin>, name: ResourceName, k: int, m: int)
    requires
        is_first_pin(pins, name, k),
        is_first_pin(pins, name, m),
    ensures
        k == m,
{
    if k < m {
        assert(pins[k].name != name);
    }
    if m < k {
        assert(pins[m].name != name);
    }
}

/// Only one BEL is the first one with an interned name of given characters.
pub proof fn lemma_bel_of_text_once(
    bels: Seq<BELInfo>,
    pool: Seq<Seq<char>>,
    text: Seq<char>,
    b: int,
    c: int,
)
    requires
        pool_distinct(pool),
        bel_of_text(bels, pool, text, b),
        bel_of_text(bels, pool, text, c),
    ensures
        b == c,
{
    assert(bels[b].name == bels[c].name);
    lemma_first_bel_once(bels, bels[b].name, b, c);
}

/// The index of the first BEL that bears the interned name with the given
/// characters.
pub fn find_virtual_bel(bels: &Vec<BELInfo>, gsctx: &GlobalStringsCtx, text: &str) -> (r: Option<usize>)
    requires
        gsctx.wf(),
    ensures
        match r {
            Some(b) => bel_of_text(bels@, gsctx@, text@, b as int),
            None => forall|b: int| !bel_of_text(bels@, gsctx@, text@, b),
        },
{
    match gsctx.find_global_string(text) {
        Some(id) => {
            let found = find_bel(bels, ResourceName::Virtual(id));
            proof {
                if found is None {
                    assert forall|b: int| !bel_of_text(bels@, gsctx@, text@, b) by {
                        if bel_of_text(bels@, gsctx@, text@, b) {
                            assert(bels@[b].name == ResourceName::Virtual(id));
                        }
                    }
                }
            }
            found
        },
        None => {
            proof {
                assert forall|b: int| !bel_of_text(bels@, gsctx@, text@, b) by {
                    if bel_of_text(bels@, gsctx@, text@, b) {
                        let name = bels@[b].name;
                        match name {
                            ResourceName::Virtual(id) => {
                                assert(gsctx@[id.0 as int] == text@);
                            },
                            _ => {},
                        }
                    }
                }
            }
            None
        },
    }
}

/// The text of the name of a constant net.
fn net_text(constant: ConstantType) -> (r: &'static str)
    requires
        !(constant is NoPreference),
    ensures
        r@ == net_name(constant),
{
    match constant {
        ConstantType::Vcc => "$VCC",
        _ => "$GND",
    }
}

/// The places and pins that a constant source is linked with.
pub struct SourceLink {
    pub port: usize,
    pub pip_input: usize,
    pub pip_output: usize,
    pub source: usize,
}

/// The link is that of the constant source `s`.
pub open spec fn is_link_of(
    device: &Device,
    st: &SiteType,
    bels: Seq<BELInfo>,
    pool: Seq<Seq<char>>,
    s: int,
    link: SourceLink,
) -> bool {
    exists|pb: int, sb: int, sk: int, w: int, qb: int, ik: int, ok: int|
        #![trigger link_places(device, st, bels, pool, s, pb, sb, sk, w, qb, ik, ok)]
        {
            &&& link_places(device, st, bels, pool, s, pb, sb, sk, w, qb, ik, ok)
            &&& link.port == pin_id(bels, pb, 0)
            &&& link.pip_input == pin_id(bels, qb, ik)
            &&& link.pip_output == pin_id(bels, qb, ok)
            &&& link.source == pin_id(bels, sb, sk)
            &&& bels[pb].name is Virtual
            &&& bels[qb].name is Virtual
            &&& bels[sb].name is DeviceResources
            &&& is_pin(bels, pb, 0)
            &&& is_pin(bels, qb, ik)
            &&& is_pin(bels, qb, ok)
            &&& is_pin(bels, sb, sk)
        }
}

/// Finds what the constant source `s` of the site type is linked with.
pub fn find_source_link(
    device: &Device,
    st: &SiteType,
    bels: &Vec<BELInfo>,
    bases: &Vec<usize>,
    gsctx: &GlobalStringsCtx,
    table: &Vec<super::site::WireOfPin>,
    s: usize,
) -> (r: Result<SourceLink, SiteError>)
    requires
        gsctx.wf(),
        source_in_site(device, st, s as int),
        super::site::is_wire_table(st, table@),
        bases@.len() == bels@.len(),
        forall|b: int| 0 <= b < bels@.len() ==> (#[trigger] bases@[b]) == pin_base(bels@, b),
        pin_count(bels@) <= usize::MAX,
    ensures
        r is Ok <==> source_linkable(device, st, bels@, gsctx@, s as int),
        r matches Err(e) ==> link_fault(device, st, bels@, gsctx@, s as int, e),
        r matches Ok(link) ==> is_link_of(device, st, bels@, gsctx@, s as int, link) && link.port
            < pin_count(bels@) && link.pip_input < pin_count(bels@) && link.pip_output < pin_count(
            bels@,
        ) && link.source < pin_count(bels@),
{
    let source = &device.site_sources[s];
    let ghost pool = gsctx@;
    if let ConstantType::NoPreference = source.constant {
        return Err(SiteError::UnsupportedConstant);
    }
    let net = net_text(source.constant);
    let pb = match find_virtual_bel(bels, gsctx, net) {
        Some(pb) => pb,
        None => {
            return Err(SiteError::MissingVirtualBel);
        },
    };
    if bels[pb].pins.len() == 0 {
        proof {
            assert(bel_of_text(bels@, pool, net@, pb as int));
            assert forall|pb2: int, sb: int, sk: int, w: int, qb: int, ik: int, ok: int|
                !link_places(device, st, bels@, pool, s as int, pb2, sb, sk, w, qb, ik, ok) by {
                if link_places(device, st, bels@, pool, s as int, pb2, sb, sk, w, qb, ik, ok) {
                    lemma_bel_of_text_once(bels@, pool, net@, pb as int, pb2);
                }
            }
        }
        return Err(SiteError::MissingVirtualBel);
    }
    let sb = match find_bel(bels, ResourceName::DeviceResources(source.bel)) {
        Some(sb) => sb,
        None => {
            return Err(SiteError::UnknownBel(source.bel));
        },
    };
    let sk = match bels[sb].find_pin(ResourceName::DeviceResources(source.bel_pin)) {
        Some(sk) => sk,
        None => {
            proof {
                assert forall|pb2: int, sb2: int, sk: int, w: int, qb: int, ik: int, ok: int|
                    !link_places(device, st, bels@, pool, s as int, pb2, sb2, sk, w, qb, ik, ok) by {
                    if link_places(device, st, bels@, pool, s as int, pb2, sb2, sk, w, qb, ik, ok) {
                        lemma_first_bel_once(
                            bels@,
                            ResourceName::DeviceResources(source.bel),
                            sb as int,
                            sb2,
                        );
                    }
                }
            }
            assert(is_first_bel(bels@, ResourceName::DeviceResources(source.bel), sb as int));
            return Err(SiteError::UnknownPin(source.bel, source.bel_pin));
        },
    };
    let w = match lookup_wire(st, table, source.bel, source.bel_pin) {
        Some(w) => w,
        None => {
            return Err(SiteError::SourceOffWire(source.bel, source.bel_pin));
        },
    };
    if source.bel as usize >= device.str_list.len() {
        return Err(SiteError::StringOutOfRange(source.bel));
    }
    let mut pip_name = String::from_str(device.ic_str(source.bel));
    pip_name.append("_");
    pip_name.append(net);
    pip_name.append("_SITE_WIRE");
    assert(pip_name@ == pipbel_name(device.strings()[source.bel as int], net@));
    let qb = match find_virtual_bel(bels, gsctx, pip_name.as_str()) {
        Some(qb) => qb,
        None => {
            return Err(SiteError::MissingVirtualBel);
        },
    };
    let ik = match bels[qb].find_pin(ResourceName::DeviceResources(source.bel)) {
        Some(ik) => ik,
        None => {
            proof {
                assert forall|pb2: int, sb2: int, sk2: int, w2: int, qb2: int, ik: int, ok: int|
                    !link_places(
                        device,
                        st,
                        bels@,
                        pool,
                        s as int,
                        pb2,
                        sb2,
                        sk2,
                        w2,
                        qb2,
                        ik,
                        ok,
                    ) by {
                    if link_places(
                        device,
                        st,
                        bels@,
                        pool,
                        s as int,
                        pb2,
                        sb2,
                        sk2,
                        w2,
                        qb2,
                        ik,
                        ok,
                    ) {
                        lemma_bel_of_text_once(bels@, pool, pip_name@, qb as int, qb2);
                    }
                }
            }
            assert(bel_of_text(bels@, pool, pip_name@, qb as int));
            return Err(SiteError::UnknownPin(source.bel, source.bel));
        },
    };
    let wire_name = st.site_wires[w].name;
    let ok = match bels[qb].find_pin(ResourceName::DeviceResources(wire_name)) {
        Some(ok) => ok,
        None => {
            proof {
                assert forall|pb2: int, sb2: int, sk2: int, w2: int, qb2: int, ik2: int, ok: int|
                    !link_places(
                        device,
                        st,
                        bels@,
                        pool,
                        s as int,
                        pb2,
                        sb2,
                        sk2,
                        w2,
                        qb2,
                        ik2,
                        ok,
                    ) by {
                    if link_places(
                        device,
                        st,
                        bels@,
                        pool,
                        s as int,
                        pb2,
                        sb2,
                        sk2,
                        w2,
                        qb2,
                        ik2,
                        ok,
                    ) {
                        lemma_bel_of_text_once(bels@, pool, pip_name@, qb as int, qb2);
                        if w < w2 {
                            assert(!on_wire(st, w2, source.bel, source.bel_pin));
                        }
                        if w2 < w {
                            assert(!on_wire(st, w as int, source.bel, source.bel_pin));
                        }
                    }
                }
            }
            assert(bel_of_text(bels@, pool, pip_name@, qb as int));
            return Err(SiteError::UnknownPin(source.bel, wire_name));
        },
    };
    proof {
        assert(link_places(
            device,
            st,
            bels@,
            pool,
            s as int,
            pb as int,
            sb as int,
            sk as int,
            w as int,
            qb as int,
            ik as int,
            ok as int,
        ));
        lemma_pin_id_unique(bels@, pb as int, 0, pb as int, 0);
        lemma_pin_id_unique(bels@, qb as int, ik as int, qb as int, ok as int);
        lemma_pin_id_unique(bels@, qb as int, ok as int, qb as int, ok as int);
        lemma_pin_id_unique(bels@, sb as int, sk as int, sb as int, sk as int);
    }
    Ok(
        SourceLink {
            port: bases[pb],
            pip_input: bases[qb] + ik,
            pip_output: bases[qb] + ok,
            source: bases[sb] + sk,
        },
    )
}

/// Creates connections between `$VCC`, `$GND` site-ports and routing BELs
/// associated with virtual constant nets: for every constant source of the
/// site type an edge from the port of its net to the input pin of its
/// routing BEL, one from there to the output pin of the routing BEL, and
/// one from there to every pin that the source had an edge to before.
pub fn init_virtual_wires_in_graph(
    graph: &mut RoutingGraph,
    device: &Device,
    st: &SiteType,
    bels: &Vec<BELInfo>,
    bases: &Vec<usize>,
    gsctx: &GlobalStringsCtx,
) -> (r: Result<(), SiteError>)
    requires
        gsctx.wf(),
        bases@.len() == bels@.len(),
        forall|b: int| 0 <= b < bels@.len() ==> (#[trigger] bases@[b]) == pin_base(bels@, b),
        old(graph).size() == pin_count(bels@),
    ensures
        r is Ok <==> virtual_ok(device, st, bels@, gsctx@, device.site_sources@.len() as int),
        r matches Err(e) ==> virtual_fault(device, st, bels@, gsctx@, e),
        final(graph).nodes() == old(graph).nodes(),
        r is Ok ==> forall|f: int, t: int|
            #![trigger final(graph).has_edge(f, t)]
            final(graph).has_edge(f, t) == (old(graph).has_edge(f, t) || virtual_edge(
                device,
                st,
                bels@,
                gsctx@,
                old(graph).edge_set(),
                device.site_sources@.len() as int,
                f,
                t,
            )),
{
    let n = graph.node_count();
    let ghost base = graph.edge_set();
    let ghost pool = gsctx@;
    let ghost all = device.site_sources@.len() as int;
    let table = match create_belname_pinname_to_wire_lookup(st) {
        Ok(table) => table,
        Err(e) => {
            return Err(e);
        },
    };
    let mut s: usize = 0;
    while s < device.site_sources.len()
        invariant
            s <= device.site_sources@.len(),
            all == device.site_sources@.len(),
            gsctx.wf(),
            pool == gsctx@,
            base == old(graph).edge_set(),
            wires_in_range(st),
            super::site::is_wire_table(st, table@),
            bases@.len() == bels@.len(),
            forall|b: int| 0 <= b < bels@.len() ==> (#[trigger] bases@[b]) == pin_base(bels@, b),
            graph.size() == pin_count(bels@),
            n == graph.size(),
            graph.nodes() == old(graph).nodes(),
            virtual_ok(device, st, bels@, pool, s as int),
            forall|f: int, t: int|
                #![trigger graph.has_edge(f, t)]
                graph.has_edge(f, t) == (old(graph).has_edge(f, t) || virtual_edge(
                    device,
                    st,
                    bels@,
                    pool,
                    base,
                    s as int,
                    f,
                    t,
                )),
        decreases device.site_sources@.len() - s,
    {
        if device.site_sources[s].site_type == st.name {
            assert(source_in_site(device, st, s as int));
            let link = match find_source_link(device, st, bels, bases, gsctx, &table, s) {
                Ok(link) => link,
                Err(e) => {
                    assert(!virtual_ok(device, st, bels@, pool, all));
                    return Err(e);
                },
            };
            let ghost before = *graph;
            proof {
                assert forall|t: int| before.has_edge(link.source as int, t) == base.contains(
                    (link.source as int, t),
                ) by {
                    if virtual_edge(device, st, bels@, pool, base, s as int, link.source as int, t) {
                        let s2 = choose|s2: int|
                            0 <= s2 < s && #[trigger] virtual_joins(
                                device,
                                st,
                                bels@,
                                pool,
                                base,
                                s2,
                                link.source as int,
                                t,
                            );
                        lemma_virtual_edge_starts(
                            device,
                            st,
                            bels@,
                            pool,
                            base,
                            s2,
                            link.source as int,
                            t,
                        );
                        lemma_link_source_is_device_pin(
                            device,
                            st,
                            bels@,
                            pool,
                            s as int,
                            link,
                        );
                    }
                    assert(old(graph).has_edge(link.source as int, t) == base.contains(
                        (link.source as int, t),
                    ));
                }
            }
            let sinks = graph.edges_from(link.source);
            let _ = graph.connect(link.port, link.pip_input);
            let _ = graph.connect(link.pip_input, link.pip_output);
            let ghost linked = *graph;
            let mut c: usize = 0;
            assert(sinks@.take(0) =~= Seq::<usize>::empty());
            while c < sinks.len()
                invariant
                    c <= sinks@.len(),
                    n == graph.size(),
                    n == linked.size(),
                    link.pip_output < n,
                    graph.nodes() == old(graph).nodes(),
                    forall|e: int| 0 <= e < sinks@.len() ==> (#[trigger] sinks@[e]) < n,
                    forall|f: int, t: int|
                        #![trigger graph.has_edge(f, t)]
                        graph.has_edge(f, t) == (linked.has_edge(f, t) || (f == link.pip_output
                            && lists(sinks@.take(c as int), t))),
                decreases sinks@.len() - c,
            {
                let sink = sinks[c];
                let ghost tried = sinks@.take(c as int);
                let _ = graph.connect(link.pip_output, sink);
                c += 1;
                proof {
                    let next = sinks@.take(c as int);
                    assert(next =~= tried.push(sink));
                    assert forall|f: int, t: int|
                        #![trigger graph.has_edge(f, t)]
                        graph.has_edge(f, t) == (linked.has_edge(f, t) || (f == link.pip_output
                            && lists(next, t))) by {
                        lemma_lists_push(tried, sink, t);
                    }
                }
            }
            proof {
                assert(sinks@.take(c as int) =~= sinks@);
                assert forall|f: int, t: int|
                    virtual_joins(device, st, bels@, pool, base, s as int, f, t) == {
                        ||| f == link.port && t == link.pip_input
                        ||| f == link.pip_input && t == link.pip_output
                        ||| f == link.pip_output && base.contains((link.source as int, t))
                    } by {
                    lemma_virtual_joins_of_link(device, st, bels@, pool, base, s as int, link, f, t);
                }
                assert forall|f: int, t: int|
                    #![trigger graph.has_edge(f, t)]
                    graph.has_edge(f, t) == (old(graph).has_edge(f, t) || virtual_edge(
                        device,
                        st,
                        bels@,
                        pool,
                        base,
                        s as int + 1,
                        f,
                        t,
                    )) by {
                    let joins_now = virtual_joins(device, st, bels@, pool, base, s as int, f, t);
                    assert(before.has_edge(link.source as int, t) == lists(sinks@, t));
                    assert(before.has_edge(link.source as int, t) == base.contains(
                        (link.source as int, t),
                    ));
                    assert(linked.has_edge(f, t) == (before.has_edge(f, t) || (f == link.port && t
                        == link.pip_input) || (f == link.pip_input && t == link.pip_output)));
                    assert(graph.has_edge(f, t) == (before.has_edge(f, t) || joins_now));
                    if virtual_edge(device, st, bels@, pool, base, s as int + 1, f, t) {
                        let s2 = choose|s2: int|
                            0 <= s2 < s + 1 && #[trigger] virtual_joins(
                                device,
                                st,
                                bels@,
                                pool,
                                base,
                                s2,
                                f,
                                t,
                            );
                        if s2 < s {
                            assert(virtual_edge(device, st, bels@, pool, base, s as int, f, t));
                        }
                    }
                    if virtual_edge(device, st, bels@, pool, base, s as int, f, t) {
                        let s2 = choose|s2: int|
                            0 <= s2 < s && #[trigger] virtual_joins(
                                device,
                                st,
                                bels@,
                                pool,
                                base,
                                s2,
                                f,
                                t,
                            );
                        assert(virtual_joins(device, st, bels@, pool, base, s2, f, t));
                    }
                    if joins_now {
                        assert(virtual_edge(device, st, bels@, pool, base, s as int + 1, f, t));
                    }
                }
            }
        } else {
            proof {
                assert(!source_in_site(device, st, s as int));
                assert forall|f: int, t: int|
                    virtual_edge(device, st, bels@, pool, base, s as int + 1, f, t) == virtual_edge(
                        device,
                        st,
                        bels@,
                        pool,
                        base,
                        s as int,
                        f,
                        t,
                    ) by {
                    if virtual_edge(device, st, bels@, pool, base, s as int + 1, f, t) {
                        let s2 = choose|s2: int|
                            0 <= s2 < s + 1 && #[trigger] virtual_joins(
                                device,
                                st,
                                bels@,
                                pool,
                                base,
                                s2,
                                f,
                                t,
                            );
                        if s2 == s {
                            let (pb, sb, sk, w, qb, ik, ok) = choose|
                                pb: int,
                                sb: int,
                                sk: int,
                                w: int,
                                qb: int,
                                ik: int,
                                ok: int,
                            |
                                #![trigger link_places(device, st, bels@, pool, s2, pb, sb, sk, w, qb, ik, ok)]
                                link_places(device, st, bels@, pool, s2, pb, sb, sk, w, qb, ik, ok);
                        } else {
                            assert(virtual_edge(device, st, bels@, pool, base, s as int, f, t));
                        }
                    }
                    if virtual_edge(device, st, bels@, pool, base, s as int, f, t) {
                        let s2 = choose|s2: int|
                            0 <= s2 < s && #[trigger] virtual_joins(
                                device,
                                st,
                                bels@,
                                pool,
                                base,
                                s2,
                                f,
                                t,
                            );
                        assert(virtual_joins(device, st, bels@, pool, base, s2, f, t));
                    }
                }
            }
        }
        s += 1;
    }
    Ok(())
}

/// An edge for a constant net starts at a pin of a BEL with an interned
/// name.
pub proof fn lemma_virtual_edge_starts(
    device: &Device,
    st: &SiteType,
    bels: Seq<BELInfo>,
    pool: Seq<Seq<char>>,
    base: Set<(int, int)>,
    s: int,
    from: int,
    to: int,
)
    requires
        virtual_joins(device, st, bels, pool, base, s, from, to),
    ensures
        exists|b: int, k: int|
            #![trigger is_pin(bels, b, k)]
            is_pin(bels, b, k) && pin_id(bels, b, k) == from && bels[b].name is Virtual,
{
    let (pb, sb, sk, w, qb, ik, ok) = choose|
        pb: int,
        sb: int,
        sk: int,
        w: int,
        qb: int,
        ik: int,
        ok: int,
    |
        #![trigger link_places(device, st, bels, pool, s, pb, sb, sk, w, qb, ik, ok)]
        link_places(device, st, bels, pool, s, pb, sb, sk, w, qb, ik, ok) && {
            ||| from == pin_id(bels, pb, 0) && to == pin_id(bels, qb, ik)
            ||| from == pin_id(bels, qb, ik) && to == pin_id(bels, qb, ok)
            ||| from == pin_id(bels, qb, ok) && base.contains((pin_id(bels, sb, sk), to))
        };
    if from == pin_id(bels, pb, 0) && to == pin_id(bels, qb, ik) {
        assert(is_pin(bels, pb, 0));
    } else if from == pin_id(bels, qb, ik) && to == pin_id(bels, qb, ok) {
        assert(is_pin(bels, qb, ik));
    } else {
        assert(is_pin(bels, qb, ok));
    }
}

/// The pin of a constant source is a pin of a BEL of the device, and so no
/// edge for a constant net starts at it.
pub proof fn lemma_link_source_is_device_pin(
    device: &Device,
    st: &SiteType,
    bels: Seq<BELInfo>,
    pool: Seq<Seq<char>>,
    s: int,
    link: SourceLink,
)
    requires
        is_link_of(device, st, bels, pool, s, link),
    ensures
        forall|b: int, k: int|
            #![trigger is_pin(bels, b, k)]
            is_pin(bels, b, k) && pin_id(bels, b, k) == link.source ==> bels[b].name
                is DeviceResources,
{
    let (pb, sb, sk, w, qb, ik, ok) = choose|
        pb: int,
        sb: int,
        sk: int,
        w: int,
        qb: int,
        ik: int,
        ok: int,
    |
        #![trigger link_places(device, st, bels, pool, s, pb, sb, sk, w, qb, ik, ok)]
        {
            &&& link_places(device, st, bels, pool, s, pb, sb, sk, w, qb, ik, ok)
            &&& link.port == pin_id(bels, pb, 0)
            &&& link.pip_input == pin_id(bels, qb, ik)
            &&& link.pip_output == pin_id(bels, qb, ok)
            &&& link.source == pin_id(bels, sb, sk)
            &&& bels[pb].name is Virtual
            &&& bels[qb].name is Virtual
            &&& bels[sb].name is DeviceResources
            &&& is_pin(bels, pb, 0)
            &&& is_pin(bels, qb, ik)
            &&& is_pin(bels, qb, ok)
            &&& is_pin(bels, sb, sk)
        };
    assert forall|b: int, k: int|
        #![trigger is_pin(bels, b, k)]
        is_pin(bels, b, k) && pin_id(bels, b, k) == link.source implies bels[b].name
        is DeviceResources by {
        lemma_pin_id_unique(bels, b, k, sb, sk);
    }
}

/// The edges that a constant source gives are those of its link.
pub proof fn lemma_virtual_joins_of_link(
    device: &Device,
    st: &SiteType,
    bels: Seq<BELInfo>,
    pool: Seq<Seq<char>>,
    base: Set<(int, int)>,
    s: int,
    link: SourceLink,
    from: int,
    to: int,
)
    requires
        pool_distinct(pool),
        is_link_of(device, st, bels, pool, s, link),
    ensures
        virtual_joins(device, st, bels, pool, base, s, from, to) == {
            ||| from == link.port && to == link.pip_input
            ||| from == link.pip_input && to == link.pip_output
            ||| from == link.pip_output && base.contains((link.source as int, to))
        },
{
    let (pb, sb, sk, w, qb, ik, ok) = choose|
        pb: int,
        sb: int,
        sk: int,
        w: int,
        qb: int,
        ik: int,
        ok: int,
    |
        #![trigger link_places(device, st, bels, pool, s, pb, sb, sk, w, qb, ik, ok)]
        {
            &&& link_places(device, st, bels, pool, s, pb, sb, sk, w, qb, ik, ok)
            &&& link.port == pin_id(bels, pb, 0)
            &&& link.pip_input == pin_id(bels, qb, ik)
            &&& link.pip_output == pin_id(bels, qb, ok)
            &&& link.source == pin_id(bels, sb, sk)
            &&& bels[pb].name is Virtual
            &&& bels[qb].name is Virtual
            &&& bels[sb].name is DeviceResources
            &&& is_pin(bels, pb, 0)
            &&& is_pin(bels, qb, ik)
            &&& is_pin(bels, qb, ok)
            &&& is_pin(bels, sb, sk)
        };
    if virtual_joins(device, st, bels, pool, base, s, from, to) {
        let (pb2, sb2, sk2, w2, qb2, ik2, ok2) = choose|
            pb2: int,
            sb2: int,
            sk2: int,
            w2: int,
            qb2: int,
            ik2: int,
            ok2: int,
        |
            #![trigger link_places(device, st, bels, pool, s, pb2, sb2, sk2, w2, qb2, ik2, ok2)]
            link_places(device, st, bels, pool, s, pb2, sb2, sk2, w2, qb2, ik2, ok2) && {
                ||| from == pin_id(bels, pb2, 0) && to == pin_id(bels, qb2, ik2)
                ||| from == pin_id(bels, qb2, ik2) && to == pin_id(bels, qb2, ok2)
                ||| from == pin_id(bels, qb2, ok2) && base.contains((pin_id(bels, sb2, sk2), to))
            };
        lemma_link_places_once(
            device,
            st,
            bels,
            pool,
            s,
            pb,
            sb,
            sk,
            w,
            qb,
            ik,
            ok,
            pb2,
            sb2,
            sk2,
            w2,
            qb2,
            ik2,
            ok2,
        );
    }
}

} // verus!
