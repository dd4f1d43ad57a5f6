//! Building the routing graph of a site from its BELs, site wires and site
//! pseudo-pips.

use super::graph::{lemma_lists_push, lists, RoutingGraph, RoutingGraphNode, RoutingGraphNodeKind};
use super::names::{find_bel, is_first_bel, is_first_pin, BELCategory, BELInfo, ResourceName};
use super::site::SiteError;
use super::virtual_consts::{init_virtual_wires_in_graph, virtual_edge, virtual_fault, virtual_ok};
use crate::device::{Device, SiteType};
use crate::strings::GlobalStringsCtx;
use vstd::prelude::*;

verus! {

/// The identifier of the first pin of the BEL at `b`: the number of pins of
/// the BELs before it.
pub open spec fn pin_base(bels: Seq<BELInfo>, b: int) -> int
    decreases b,
{
    if b <= 0 {
        0
    } else {
        pin_base(bels, b - 1) + bels[b - 1].pins@.len()
    }
}

/// The number of pins of all BELs.
pub open spec fn pin_count(bels: Seq<BELInfo>) -> int {
    pin_base(bels, bels.len() as int)
}

/// The identifier of the pin at `k` of the BEL at `b`: pins are numbered
/// BEL by BEL, in the order of the BELs and of their pins.
pub open spec fn pin_id(bels: Seq<BELInfo>, b: int, k: int) -> int {
    pin_base(bels, b) + k
}

/// Is there a pin at `k` of a BEL at `b`?
pub open spec fn is_pin(bels: Seq<BELInfo>, b: int, k: int) -> bool {
    0 <= b < bels.len() && 0 <= k < bels[b].pins@.len()
}

/// The pins of a later BEL are numbered behind those of an earlier one.
pub proof fn lemma_pin_base_grows(bels: Seq<BELInfo>, b: int, c: int)
    requires
        0 <= b <= c,
    ensures
        0 <= pin_base(bels, b) <= pin_base(bels, c),
        b < c ==> pin_base(bels, b) + bels[b].pins@.len() <= pin_base(bels, c),
    decreases c,
{
    if b < c {
        lemma_pin_base_grows(bels, b, c - 1);
    } else {
        if b > 0 {
            lemma_pin_base_grows(bels, b - 1, b - 1);
        }
    }
}

/// Every pin has an identifier of its own, below the number of pins.
pub proof fn lemma_pin_id_unique(bels: Seq<BELInfo>, b: int, k: int, c: int, m: int)
    requires
        is_pin(bels, b, k),
        is_pin(bels, c, m),
    ensures
        0 <= pin_id(bels, b, k) < pin_count(bels),
        pin_id(bels, b, k) == pin_id(bels, c, m) ==> b == c && k == m,
{
    lemma_pin_base_grows(bels, b, bels.len() as int);
    if b < c {
        lemma_pin_base_grows(bels, b, c);
    }
    if c < b {
        lemma_pin_base_grows(bels, c, b);
    }
}

/// The table gives for every BEL the identifier of its first pin, and for
/// every pin identifier the BEL of the pin and its place among the pins of
/// the BEL.
pub open spec fn is_pin_table(
    bels: Seq<BELInfo>,
    bases: Seq<usize>,
    table: Seq<(usize, usize)>,
) -> bool {
    &&& bases.len() == bels.len()
    &&& forall|b: int| 0 <= b < bels.len() ==> (#[trigger] bases[b]) == pin_base(bels, b)
    &&& table.len() == pin_count(bels)
    &&& forall|b: int, k: int|
        is_pin(bels, b, k) ==> #[trigger] table[pin_id(bels, b, k)] == (b as usize, k as usize)
    &&& forall|id: int|
        0 <= id < table.len() ==> is_pin(
            bels,
            (#[trigger] table[id]).0 as int,
            table[id].1 as int,
        ) && pin_id(bels, table[id].0 as int, table[id].1 as int) == id
}

/// Numbers the pins of the BELs.  Fails if there are more pins than a
/// routing graph can hold: the number of pins, squared, must be the length
/// of a vector, and a pin identifier must fit into 32 bits.
pub fn number_pins(bels: &Vec<BELInfo>) -> (r: Result<(Vec<usize>, Vec<(usize, usize)>), SiteError>)
    ensures
        r is Ok <==> pin_count(bels@) * pin_count(bels@) <= usize::MAX && pin_count(bels@)
            <= u32::MAX,
        r matches Ok((bases, table)) ==> is_pin_table(bels@, bases@, table@),
        r matches Err(e) ==> e is TooManyPins,
{
    let mut bases: Vec<usize> = Vec::new();
    let mut table: Vec<(usize, usize)> = Vec::new();
    let mut total: usize = 0;
    let mut b: usize = 0;
    while b < bels.len()
        invariant
            b <= bels@.len(),
            total == pin_base(bels@, b as int),
            total <= u32::MAX,
            bases@.len() == b,
            forall|i: int| 0 <= i < b ==> (#[trigger] bases@[i]) == pin_base(bels@, i),
            table@.len() == total,
            forall|i: int, k: int|
                0 <= i < b && 0 <= k < bels@[i].pins@.len() ==> #[trigger] table@[pin_id(
                    bels@,
                    i,
                    k,
                )] == (i as usize, k as usize),
            forall|id: int|
                0 <= id < table@.len() ==> (#[trigger] table@[id]).0 < b && is_pin(
                    bels@,
                    table@[id].0 as int,
                    table@[id].1 as int,
                ) && pin_id(bels@, table@[id].0 as int, table@[id].1 as int) == id,
        decreases bels@.len() - b,
    {
        let count = bels[b].pins.len();
        proof {
            lemma_pin_base_grows(bels@, b as int + 1, bels@.len() as int);
        }
        if count > 0xffff_ffff || total > 0xffff_ffff - count {
            proof {
                assert(pin_count(bels@) > u32::MAX);
            }
            return Err(SiteError::TooManyPins);
        }
        bases.push(total);
        let mut k: usize = 0;
        while k < count
            invariant
                b < bels@.len(),
                count == bels@[b as int].pins@.len(),
                k <= count,
                total == pin_base(bels@, b as int),
                total + count <= u32::MAX,
                table@.len() == total + k,
                forall|i: int, m: int|
                    (0 <= i < b && 0 <= m < bels@[i].pins@.len()) || (i == b && 0 <= m < k)
                        ==> #[trigger] table@[pin_id(bels@, i, m)] == (i as usize, m as usize),
                forall|id: int|
                    0 <= id < table@.len() ==> (#[trigger] table@[id]).0 <= b && is_pin(
                        bels@,
                        table@[id].0 as int,
                        table@[id].1 as int,
                    ) && pin_id(bels@, table@[id].0 as int, table@[id].1 as int) == id,
            decreases count - k,
        {
            let ghost before = table@;
            table.push((b, k));
            proof {
                assert forall|i: int, m: int|
                    (0 <= i < b && 0 <= m < bels@[i].pins@.len()) || (i == b && 0 <= m < k + 1)
                    implies #[trigger] table@[pin_id(bels@, i, m)] == (i as usize, m as usize) by {
                    if i < b {
                        lemma_pin_base_grows(bels@, i, b as int);
                        assert(table@[pin_id(bels@, i, m)] == before[pin_id(bels@, i, m)]);
                    } else if m < k {
                        assert(table@[pin_id(bels@, i, m)] == before[pin_id(bels@, i, m)]);
                    }
                }
                assert forall|id: int| 0 <= id < table@.len() implies (#[trigger] table@[id]).0
                    <= b && is_pin(bels@, table@[id].0 as int, table@[id].1 as int) && pin_id(
                    bels@,
                    table@[id].0 as int,
                    table@[id].1 as int,
                ) == id by {
                    if id < before.len() {
                        assert(table@[id] == before[id]);
                    }
                }
            }
            k += 1;
        }
        total = total + count;
        b += 1;
    }
    if total > 0 && total > usize::MAX / total {
        proof {
            assert(total * total > usize::MAX) by (nonlinear_arith)
                requires
                    total > 0,
                    total > (usize::MAX as int) / (total as int),
            ;
        }
        return Err(SiteError::TooManyPins);
    }
    proof {
        if total > 0 {
            assert(total * total <= usize::MAX) by (nonlinear_arith)
                requires
                    total > 0,
                    total <= (usize::MAX as int) / (total as int),
            ;
        }
    }
    Ok((bases, table))
}

/// The pin at `p` of the pin list of the site type is the pin at `k` of the
/// BEL at `b`: that BEL is the first one with the name of the pin's BEL, and
/// the pin is its first pin with the name of the pin.
pub open spec fn resolves_to(st: &SiteType, bels: Seq<BELInfo>, p: int, b: int, k: int) -> bool {
    &&& 0 <= p < st.bel_pins@.len()
    &&& is_first_bel(bels, ResourceName::DeviceResources(st.bel_pins@[p].bel), b)
    &&& is_first_pin(bels[b].pins@, ResourceName::DeviceResources(st.bel_pins@[p].name), k)
}

/// The pin at `p` of the pin list of the site type is a pin of some BEL.
pub open spec fn resolvable(st: &SiteType, bels: Seq<BELInfo>, p: int) -> bool {
    exists|b: int, k: int| resolves_to(st, bels, p, b, k)
}

/// The pin at `p` of the pin list of the site type has the identifier `id`.
pub open spec fn resolves_to_id(st: &SiteType, bels: Seq<BELInfo>, p: int, id: int) -> bool {
    exists|b: int, k: int| resolves_to(st, bels, p, b, k) && pin_id(bels, b, k) == id
}

/// What an error says of the pin at `p` of the pin list of the site type:
/// that the pin is not in the list, that no BEL has the name of its BEL, or
/// that the first BEL of that name has no pin of its name.
pub open spec fn unresolved_by(st: &SiteType, bels: Seq<BELInfo>, p: int, e: SiteError) -> bool {
    match e {
        SiteError::PinOutOfRange(q) => q == p && p >= st.bel_pins@.len(),
        SiteError::UnknownBel(name) => {
            &&& 0 <= p < st.bel_pins@.len()
            &&& name == st.bel_pins@[p].bel
            &&& forall|i: int|
                0 <= i < bels.len() ==> (#[trigger] bels[i]).name != ResourceName::DeviceResources(
                    name,
                )
        },
        SiteError::UnknownPin(bel, pin) => {
            &&& 0 <= p < st.bel_pins@.len()
            &&& bel == st.bel_pins@[p].bel
            &&& pin == st.bel_pins@[p].name
            &&& exists|b: int|
                #![trigger bels[b]]
                is_first_bel(bels, ResourceName::DeviceResources(bel), b) && forall|k: int|
                    0 <= k < bels[b].pins@.len() ==> (#[trigger] bels[b].pins@[k]).name
                        != ResourceName::DeviceResources(pin)
        },
        _ => false,
    }
}

/// A pin of the pin list is one pin of one BEL at most.
pub proof fn lemma_resolves_once(st: &SiteType, bels: Seq<BELInfo>, p: int, b: int, k: int, c: int, m: int)
    requires
        resolves_to(st, bels, p, b, k),
        resolves_to(st, bels, p, c, m),
    ensures
        b == c,
        k == m,
{
    if b < c {
        assert(bels[b].name != bels[c].name);
    }
    if c < b {
        assert(bels[c].name != bels[b].name);
    }
    if k < m {
        assert(bels[b].pins@[k].name != bels[b].pins@[m].name);
    }
    if m < k {
        assert(bels[b].pins@[m].name != bels[b].pins@[k].name);
    }
}

/// Finds the BEL pin that the pin at `p` of the pin list of the site type
/// is: the BEL, the place of the pin among the pins of the BEL, and the
/// identifier of the pin.
pub fn resolve_pin(st: &SiteType, bels: &Vec<BELInfo>, bases: &Vec<usize>, p: u32) -> (r: Result<
    (usize, usize, usize),
    SiteError,
>)
    requires
        bases@.len() == bels@.len(),
        forall|b: int| 0 <= b < bels@.len() ==> (#[trigger] bases@[b]) == pin_base(bels@, b),
        pin_count(bels@) <= usize::MAX,
    ensures
        r is Ok <==> resolvable(st, bels@, p as int),
        r matches Ok((b, k, id)) ==> resolves_to(st, bels@, p as int, b as int, k as int) && id
            == pin_id(bels@, b as int, k as int) && id < pin_count(bels@),
        r matches Err(e) ==> unresolved_by(st, bels@, p as int, e),
{
    if p as usize >= st.bel_pins.len() {
        return Err(SiteError::PinOutOfRange(p));
    }
    let pin = &st.bel_pins[p as usize];
    let b = match find_bel(bels, ResourceName::DeviceResources(pin.bel)) {
        Some(b) => b,
        None => {
            assert(!resolvable(st, bels@, p as int));
            return Err(SiteError::UnknownBel(pin.bel));
        },
    };
    let k = match bels[b].find_pin(ResourceName::DeviceResources(pin.name)) {
        Some(k) => k,
        None => {
            proof {
                if resolvable(st, bels@, p as int) {
                    let (c, m) = choose|c: int, m: int| resolves_to(st, bels@, p as int, c, m);
                    if b < c {
                        assert(bels@[b as int].name != bels@[c].name);
                    }
                    if c < b {
                        assert(bels@[c].name != bels@[b as int].name);
                    }
                }
            }
            assert(is_first_bel(bels@, ResourceName::DeviceResources(pin.bel), b as int));
            return Err(SiteError::UnknownPin(pin.bel, pin.name));
        },
    };
    proof {
        lemma_pin_id_unique(bels@, b as int, k as int, b as int, k as int);
        assert(resolves_to(st, bels@, p as int, b as int, k as int));
    }
    Ok((b, k, bases[b] + k))
}

/// The node of the pin at `k` of the BEL at `b`.  The pin of a site port is
/// a site port; another pin is a routing pin if a site pseudo-pip runs
/// through it, and a plain pin if none does.
pub open spec fn node_of_pin(bels: Seq<BELInfo>, b: int, k: int, routing: bool) -> RoutingGraphNode {
    RoutingGraphNode {
        kind: match bels[b].category {
            BELCategory::SitePort => RoutingGraphNodeKind::SitePort(b as usize),
            BELCategory::LogicOrRouting => if routing {
                RoutingGraphNodeKind::RoutingBelPort(b as usize)
            } else {
                RoutingGraphNodeKind::BelPort(b as usize)
            },
        },
        dir: bels[b].pins@[k].dir,
    }
}

/// Initialize BEL information associated with graph nodes: every node gets
/// the direction of its pin, and the kind of a site port or of a plain BEL
/// pin, after the category of the BEL.  Routing pins are found later.
pub fn init_bels_in_graph(graph: &mut RoutingGraph, bels: &Vec<BELInfo>, bases: &Vec<usize>)
    requires
        bases@.len() == bels@.len(),
        forall|b: int| 0 <= b < bels@.len() ==> (#[trigger] bases@[b]) == pin_base(bels@, b),
        old(graph).size() == pin_count(bels@),
    ensures
        final(graph).size() == old(graph).size(),
        forall|f: int, t: int|
            #![trigger final(graph).has_edge(f, t)]
            final(graph).has_edge(f, t) == old(graph).has_edge(f, t),
        forall|b: int, k: int|
            is_pin(bels@, b, k) ==> #[trigger] final(graph).nodes()[pin_id(bels@, b, k)]
                == node_of_pin(bels@, b, k, false),
{
    let n = graph.node_count();
    let mut b: usize = 0;
    while b < bels.len()
        invariant
            b <= bels@.len(),
            bases@.len() == bels@.len(),
            forall|i: int| 0 <= i < bels@.len() ==> (#[trigger] bases@[i]) == pin_base(bels@, i),
            graph.size() == pin_count(bels@),
            graph.size() == old(graph).size(),
            n == graph.size(),
            forall|f: int, t: int|
                #![trigger graph.has_edge(f, t)]
                graph.has_edge(f, t) == old(graph).has_edge(f, t),
            forall|i: int, k: int|
                0 <= i < b && 0 <= k < bels@[i].pins@.len() ==> #[trigger] graph.nodes()[pin_id(
                    bels@,
                    i,
                    k,
                )] == node_of_pin(bels@, i, k, false),
        decreases bels@.len() - b,
    {
        let bel = &bels[b];
        let mut k: usize = 0;
        while k < bel.pins.len()
            invariant
                b < bels@.len(),
                bel == &bels@[b as int],
                k <= bel.pins@.len(),
                bases@.len() == bels@.len(),
                forall|i: int| 0 <= i < bels@.len() ==> (#[trigger] bases@[i]) == pin_base(bels@, i),
                graph.size() == pin_count(bels@),
                graph.size() == old(graph).size(),
                n == graph.size(),
                forall|f: int, t: int|
                #![trigger graph.has_edge(f, t)]
                graph.has_edge(f, t) == old(graph).has_edge(f, t),
                forall|i: int, m: int|
                    (0 <= i < b && 0 <= m < bels@[i].pins@.len()) || (i == b && 0 <= m < k)
                        ==> #[trigger] graph.nodes()[pin_id(bels@, i, m)] == node_of_pin(
                        bels@,
                        i,
                        m,
                        false,
                    ),
            decreases bel.pins@.len() - k,
        {
            proof {
                lemma_pin_id_unique(bels@, b as int, k as int, b as int, k as int);
            }
            let pin_idx = bases[b] + k;
            let kind = match bel.category {
                BELCategory::LogicOrRouting => RoutingGraphNodeKind::BelPort(b),
                BELCategory::SitePort => RoutingGraphNodeKind::SitePort(b),
            };
            let ghost before = graph.nodes();
            graph.set_node(pin_idx, RoutingGraphNode { kind, dir: bel.pins[k].dir });
            proof {
                assert forall|i: int, m: int|
                    (0 <= i < b && 0 <= m < bels@[i].pins@.len()) || (i == b && 0 <= m < k + 1)
                    implies #[trigger] graph.nodes()[pin_id(bels@, i, m)] == node_of_pin(
                    bels@,
                    i,
                    m,
                    false,
                ) by {
                    lemma_pin_id_unique(bels@, i, m, b as int, k as int);
                    if !(i == b && m == k) {
                        assert(graph.nodes()[pin_id(bels@, i, m)] == before[pin_id(bels@, i, m)]);
                    }
                }
            }
            k += 1;
        }
        b += 1;
    }
}

/// The pin at `i` of the site wire `w` is the BEL pin `id`, and it drives
/// if `driving` is asked for, and can be driven if not.
pub open spec fn wire_end_at(
    st: &SiteType,
    bels: Seq<BELInfo>,
    w: int,
    i: int,
    id: int,
    driving: bool,
) -> bool {
    &&& 0 <= w < st.site_wires@.len()
    &&& 0 <= i < st.site_wires@[w].pins@.len()
    &&& exists|b: int, k: int|
        #![trigger resolves_to(st, bels, st.site_wires@[w].pins@[i] as int, b, k)]
        resolves_to(st, bels, st.site_wires@[w].pins@[i] as int, b, k) && pin_id(bels, b, k) == id
            && if driving {
            bels[b].pins@[k].dir.drives()
        } else {
            bels[b].pins@[k].dir.sinks()
        }
}

/// The BEL pin `id` is on the site wire `w`, as a driver if `driving` is
/// asked for, and as a sink if not.
pub open spec fn wire_end(st: &SiteType, bels: Seq<BELInfo>, w: int, id: int, driving: bool) -> bool {
    exists|i: int| wire_end_at(st, bels, w, i, id, driving)
}

/// The site wire `w` joins `from` to `to`: the one is a driver on it, the
/// other one a sink, and they are two pins.
pub open spec fn wire_joins(st: &SiteType, bels: Seq<BELInfo>, w: int, from: int, to: int) -> bool {
    from != to && wire_end(st, bels, w, from, true) && wire_end(st, bels, w, to, false)
}

/// One of the first `wires` site wires joins `from` to `to`.
pub open spec fn wire_edge(st: &SiteType, bels: Seq<BELInfo>, wires: int, from: int, to: int) -> bool {
    exists|w: int| 0 <= w < wires && #[trigger] wire_joins(st, bels, w, from, to)
}

/// Every pin on the first `wires` site wires is a pin of some BEL.
pub open spec fn wires_resolvable(st: &SiteType, bels: Seq<BELInfo>, wires: int) -> bool {
    forall|w: int, i: int|
        0 <= w < wires && w < st.site_wires@.len() && 0 <= i < st.site_wires@[w].pins@.len()
            ==> resolvable(st, bels, (#[trigger] st.site_wires@[w].pins@[i]) as int)
}

/// What an error says of the site wires: that a pin on one of them is not a
/// pin of a BEL.
pub open spec fn wire_fault(st: &SiteType, bels: Seq<BELInfo>, e: SiteError) -> bool {
    exists|w: int, i: int|
        0 <= w < st.site_wires@.len() && 0 <= i < st.site_wires@[w].pins@.len() && unresolved_by(
            st,
            bels,
            (#[trigger] st.site_wires@[w].pins@[i]) as int,
            e,
        )
}

/// The list holds the ends of one kind among the first `upto` pins of the
/// site wire `w`, and nothing else.
pub open spec fn ends_listed(
    st: &SiteType,
    bels: Seq<BELInfo>,
    w: int,
    upto: int,
    v: Seq<usize>,
    driving: bool,
) -> bool {
    &&& forall|e: int|
        0 <= e < v.len() ==> (#[trigger] v[e]) < pin_count(bels) && exists|j: int|
            0 <= j < upto && wire_end_at(st, bels, w, j, v[e] as int, driving)
    &&& forall|j: int, id: int|
        0 <= j < upto && wire_end_at(st, bels, w, j, id, driving) ==> lists(v, id)
}

/// The list of ends stays right over one more pin of the wire, which is put
/// on the list if it is an end of the kind.
proof fn lemma_ends_listed_step(
    st: &SiteType,
    bels: Seq<BELInfo>,
    w: int,
    i: int,
    v: Seq<usize>,
    b: int,
    k: int,
    driving: bool,
)
    requires
        0 <= w < st.site_wires@.len(),
        0 <= i < st.site_wires@[w].pins@.len(),
        ends_listed(st, bels, w, i, v, driving),
        resolves_to(st, bels, st.site_wires@[w].pins@[i] as int, b, k),
        pin_count(bels) <= usize::MAX,
    ensures
        ends_listed(
            st,
            bels,
            w,
            i + 1,
            if (if driving {
                bels[b].pins@[k].dir.drives()
            } else {
                bels[b].pins@[k].dir.sinks()
            }) {
                v.push(pin_id(bels, b, k) as usize)
            } else {
                v
            },
            driving,
        ),
{
    let p = st.site_wires@[w].pins@[i] as int;
    let id = pin_id(bels, b, k);
    lemma_pin_id_unique(bels, b, k, b, k);
    let is_end = if driving {
        bels[b].pins@[k].dir.drives()
    } else {
        bels[b].pins@[k].dir.sinks()
    };
    let grown = if is_end {
        v.push(id as usize)
    } else {
        v
    };
    assert forall|e: int| 0 <= e < grown.len() implies (#[trigger] grown[e]) < pin_count(bels)
        && exists|j: int| 0 <= j < i + 1 && wire_end_at(st, bels, w, j, grown[e] as int, driving) by {
        if e < v.len() {
            assert(grown[e] == v[e]);
            let j = choose|j: int| 0 <= j < i && wire_end_at(st, bels, w, j, v[e] as int, driving);
            assert(wire_end_at(st, bels, w, j, grown[e] as int, driving));
        } else {
            assert(wire_end_at(st, bels, w, i, id, driving));
        }
    }
    assert forall|j: int, other: int|
        0 <= j < i + 1 && wire_end_at(st, bels, w, j, other, driving) implies lists(grown, other) by {
        if j < i {
            assert(lists(v, other));
            if is_end {
                lemma_lists_push(v, id as usize, other);
            }
        } else {
            let (c, m) = choose|c: int, m: int|
                #![trigger resolves_to(st, bels, p, c, m)]
                resolves_to(st, bels, p, c, m) && pin_id(bels, c, m) == other && if driving {
                    bels[c].pins@[m].dir.drives()
                } else {
                    bels[c].pins@[m].dir.sinks()
                };
            lemma_resolves_once(st, bels, p, b, k, c, m);
            lemma_lists_push(v, id as usize, other);
        }
    }
}

/// A list of the ends of one kind on a whole wire holds exactly the ends of
/// that kind on the wire.
proof fn lemma_ends_listed_all(st: &SiteType, bels: Seq<BELInfo>, w: int, v: Seq<usize>, driving: bool)
    requires
        0 <= w < st.site_wires@.len(),
        ends_listed(st, bels, w, st.site_wires@[w].pins@.len() as int, v, driving),
    ensures
        forall|id: int| wire_end(st, bels, w, id, driving) == lists(v, id),
{
    assert forall|id: int| wire_end(st, bels, w, id, driving) == lists(v, id) by {
        if wire_end(st, bels, w, id, driving) {
            let j = choose|j: int| wire_end_at(st, bels, w, j, id, driving);
            assert(lists(v, id));
        }
        if lists(v, id) {
            let e = choose|e: int| 0 <= e < v.len() && (#[trigger] v[e]) as int == id;
            let j = choose|j: int|
                0 <= j < st.site_wires@[w].pins@.len() && wire_end_at(
                    st,
                    bels,
                    w,
                    j,
                    v[e] as int,
                    driving,
                );
            assert(wire_end_at(st, bels, w, j, id, driving));
        }
    }
}

/// Gathers the drivers and the sinks among the pins of the site wire `w`.
fn wire_ends(st: &SiteType, bels: &Vec<BELInfo>, bases: &Vec<usize>, w: usize) -> (r: Result<
    (Vec<usize>, Vec<usize>),
    SiteError,
>)
    requires
        w < st.site_wires@.len(),
        bases@.len() == bels@.len(),
        forall|b: int| 0 <= b < bels@.len() ==> (#[trigger] bases@[b]) == pin_base(bels@, b),
        pin_count(bels@) <= usize::MAX,
    ensures
        r is Ok <==> forall|i: int|
            0 <= i < st.site_wires@[w as int].pins@.len() ==> resolvable(
                st,
                bels@,
                (#[trigger] st.site_wires@[w as int].pins@[i]) as int,
            ),
        r matches Ok((drivers, sinks)) ==> {
            &&& forall|e: int| 0 <= e < drivers@.len() ==> (#[trigger] drivers@[e]) < pin_count(bels@)
            &&& forall|e: int| 0 <= e < sinks@.len() ==> (#[trigger] sinks@[e]) < pin_count(bels@)
            &&& forall|id: int| wire_end(st, bels@, w as int, id, true) == lists(drivers@, id)
            &&& forall|id: int| wire_end(st, bels@, w as int, id, false) == lists(sinks@, id)
        },
        r matches Err(e) ==> wire_fault(st, bels@, e),
{
    let wire = &st.site_wires[w];
    let mut drivers: Vec<usize> = Vec::new();
    let mut sinks: Vec<usize> = Vec::new();
    let mut i: usize = 0;
    while i < wire.pins.len()
        invariant
            w < st.site_wires@.len(),
            wire == &st.site_wires@[w as int],
            i <= wire.pins@.len(),
            bases@.len() == bels@.len(),
            forall|b: int| 0 <= b < bels@.len() ==> (#[trigger] bases@[b]) == pin_base(bels@, b),
            pin_count(bels@) <= usize::MAX,
            forall|j: int| 0 <= j < i ==> resolvable(st, bels@, (#[trigger] wire.pins@[j]) as int),
            ends_listed(st, bels@, w as int, i as int, drivers@, true),
            ends_listed(st, bels@, w as int, i as int, sinks@, false),
        decreases wire.pins@.len() - i,
    {
        let p = wire.pins[i];
        let (b, k, id) = match resolve_pin(st, bels, bases, p) {
            Ok(found) => found,
            Err(e) => {
                assert(unresolved_by(st, bels@, st.site_wires@[w as int].pins@[i as int] as int, e));
                return Err(e);
            },
        };
        let dir = bels[b].pins[k].dir;
        proof {
            lemma_ends_listed_step(st, bels@, w as int, i as int, drivers@, b as int, k as int, true);
            lemma_ends_listed_step(st, bels@, w as int, i as int, sinks@, b as int, k as int, false);
        }
        if dir.is_driver() {
            drivers.push(id);
        }
        if dir.is_sink() {
            sinks.push(id);
        }
        i += 1;
    }
    proof {
        lemma_ends_listed_all(st, bels@, w as int, drivers@, true);
        lemma_ends_listed_all(st, bels@, w as int, sinks@, false);
    }
    Ok((drivers, sinks))
}

/// Puts an edge from every one of `drivers` to every one of `sinks` into the
/// graph, but none from a node to itself.
pub fn connect_all(graph: &mut RoutingGraph, drivers: &Vec<usize>, sinks: &Vec<usize>)
    requires
        forall|e: int| 0 <= e < drivers@.len() ==> (#[trigger] drivers@[e]) < old(graph).size(),
        forall|e: int| 0 <= e < sinks@.len() ==> (#[trigger] sinks@[e]) < old(graph).size(),
    ensures
        final(graph).nodes() == old(graph).nodes(),
        forall|f: int, t: int|
            #![trigger final(graph).has_edge(f, t)]
            final(graph).has_edge(f, t) == (old(graph).has_edge(f, t) || (f != t && lists(
                drivers@,
                f,
            ) && lists(sinks@, t))),
{
    let ghost n = graph.size();
    let mut a: usize = 0;
    assert(drivers@.take(0) =~= Seq::<usize>::empty());
    while a < drivers.len()
        invariant
            a <= drivers@.len(),
            n == old(graph).size(),
            n == graph.size(),
            graph.nodes() == old(graph).nodes(),
            forall|e: int| 0 <= e < drivers@.len() ==> (#[trigger] drivers@[e]) < n,
            forall|e: int| 0 <= e < sinks@.len() ==> (#[trigger] sinks@[e]) < n,
            forall|f: int, t: int|
                #![trigger graph.has_edge(f, t)]
                graph.has_edge(f, t) == (old(graph).has_edge(f, t) || (f != t && lists(
                    drivers@.take(a as int),
                    f,
                ) && lists(sinks@, t))),
        decreases drivers@.len() - a,
    {
        let driver = drivers[a];
        let ghost done = drivers@.take(a as int);
        let ghost outer = *graph;
        assert(forall|f: int, t: int|
            #![trigger outer.has_edge(f, t)]
            outer.has_edge(f, t) == (old(graph).has_edge(f, t) || (f != t && lists(done, f)
                && lists(sinks@, t))));
        let mut c: usize = 0;
        assert(sinks@.take(0) =~= Seq::<usize>::empty());
        while c < sinks.len()
            invariant
                a < drivers@.len(),
                driver == drivers@[a as int],
                driver < n,
                c <= sinks@.len(),
                n == old(graph).size(),
                n == graph.size(),
                graph.nodes() == old(graph).nodes(),
                forall|e: int| 0 <= e < sinks@.len() ==> (#[trigger] sinks@[e]) < n,
                forall|f: int, t: int|
                    #![trigger graph.has_edge(f, t)]
                    graph.has_edge(f, t) == (outer.has_edge(f, t) || (f != t && f == driver
                        && lists(sinks@.take(c as int), t))),
            decreases sinks@.len() - c,
        {
            let sink = sinks[c];
            let ghost tried = sinks@.take(c as int);
            if driver != sink {
                let _ = graph.connect(driver, sink);
            }
            c += 1;
            proof {
                let next = sinks@.take(c as int);
                assert(next =~= tried.push(sink));
                assert forall|f: int, t: int|
                    #![trigger graph.has_edge(f, t)]
                    graph.has_edge(f, t) == (outer.has_edge(f, t) || (f != t && f == driver
                        && lists(next, t))) by {
                    lemma_lists_push(tried, sink, t);
                }
            }
        }
        a += 1;
        proof {
            assert(sinks@.take(c as int) =~= sinks@);
            let next = drivers@.take(a as int);
            assert(next =~= done.push(driver));
            assert forall|f: int, t: int|
                #![trigger graph.has_edge(f, t)]
                graph.has_edge(f, t) == (old(graph).has_edge(f, t) || (f != t && lists(next, f)
                    && lists(sinks@, t))) by {
                lemma_lists_push(done, driver, f);
                assert(outer.has_edge(f, t) == (old(graph).has_edge(f, t) || (f != t && lists(
                    done,
                    f,
                ) && lists(sinks@, t))));
            }
        }
    }
    proof {
        assert(drivers@.take(drivers@.len() as int) =~= drivers@);
    }
}

/// Create connections between BELs in site's routing graph based on the
/// site wires of the site type: on every wire an edge from every driver to
/// every sink, but none from a pin to itself.
pub fn init_site_wires_in_graph(
    graph: &mut RoutingGraph,
    st: &SiteType,
    bels: &Vec<BELInfo>,
    bases: &Vec<usize>,
) -> (r: Result<(), SiteError>)
    requires
        bases@.len() == bels@.len(),
        forall|b: int| 0 <= b < bels@.len() ==> (#[trigger] bases@[b]) == pin_base(bels@, b),
        old(graph).size() == pin_count(bels@),
    ensures
        r is Ok <==> wires_resolvable(st, bels@, st.site_wires@.len() as int),
        final(graph).nodes() == old(graph).nodes(),
        r is Ok ==> forall|f: int, t: int|
            #![trigger final(graph).has_edge(f, t)]
            final(graph).has_edge(f, t) == (old(graph).has_edge(f, t) || wire_edge(
                st,
                bels@,
                st.site_wires@.len() as int,
                f,
                t,
            )),
        r matches Err(e) ==> wire_fault(st, bels@, e),
{
    let n = graph.node_count();
    let mut w: usize = 0;
    while w < st.site_wires.len()
        invariant
            w <= st.site_wires@.len(),
            bases@.len() == bels@.len(),
            forall|b: int| 0 <= b < bels@.len() ==> (#[trigger] bases@[b]) == pin_base(bels@, b),
            graph.size() == pin_count(bels@),
            n == graph.size(),
            graph.nodes() == old(graph).nodes(),
            wires_resolvable(st, bels@, w as int),
            forall|f: int, t: int|
                #![trigger graph.has_edge(f, t)]
                graph.has_edge(f, t) == (old(graph).has_edge(f, t) || wire_edge(
                    st,
                    bels@,
                    w as int,
                    f,
                    t,
                )),
        decreases st.site_wires@.len() - w,
    {
        let (drivers, sinks) = match wire_ends(st, bels, bases, w) {
            Ok(ends) => ends,
            Err(e) => {
                assert(!wires_resolvable(st, bels@, st.site_wires@.len() as int));
                return Err(e);
            },
        };
        connect_all(graph, &drivers, &sinks);
        proof {
            assert forall|f: int, t: int|
                #![trigger graph.has_edge(f, t)]
                graph.has_edge(f, t) == (old(graph).has_edge(f, t) || wire_edge(
                    st,
                    bels@,
                    w as int + 1,
                    f,
                    t,
                )) by {
                let joined = f != t && lists(drivers@, f) && lists(sinks@, t);
                assert(joined == wire_joins(st, bels@, w as int, f, t));
                if wire_edge(st, bels@, w as int + 1, f, t) {
                    let w2 = choose|w2: int|
                        0 <= w2 < w + 1 && #[trigger] wire_joins(st, bels@, w2, f, t);
                    if w2 < w {
                        assert(wire_edge(st, bels@, w as int, f, t));
                    }
                }
                if wire_edge(st, bels@, w as int, f, t) {
                    let w2 = choose|w2: int| 0 <= w2 < w && #[trigger] wire_joins(st, bels@, w2, f, t);
                    assert(wire_joins(st, bels@, w2, f, t));
                }
                if wire_joins(st, bels@, w as int, f, t) {
                    assert(wire_edge(st, bels@, w as int + 1, f, t));
                }
            }
        }
        w += 1;
    }
    Ok(())
}

/// The site pseudo-pip `q` runs through the BEL at `b`, from its pin at
/// `k` to its pin at `m`.
pub open spec fn pip_pins(st: &SiteType, bels: Seq<BELInfo>, q: int, b: int, k: int, m: int) -> bool {
    &&& 0 <= q < st.site_pips@.len()
    &&& resolves_to(st, bels, st.site_pips@[q].inpin as int, b, k)
    &&& resolves_to(st, bels, st.site_pips@[q].outpin as int, b, m)
}

/// The site pseudo-pip `q` joins the BEL pin `from` to the BEL pin `to`.
pub open spec fn pip_joins(st: &SiteType, bels: Seq<BELInfo>, q: int, from: int, to: int) -> bool {
    exists|b: int, k: int, m: int|
        #![trigger pip_pins(st, bels, q, b, k, m)]
        pip_pins(st, bels, q, b, k, m) && from == pin_id(bels, b, k) && to == pin_id(bels, b, m)
}

/// One of the first `pips` site pseudo-pips joins `from` to `to`.
pub open spec fn pip_edge(st: &SiteType, bels: Seq<BELInfo>, pips: int, from: int, to: int) -> bool {
    exists|q: int| 0 <= q < pips && #[trigger] pip_joins(st, bels, q, from, to)
}

/// The site pseudo-pip `q` runs through the BEL pin `id`.
pub open spec fn pip_touches(st: &SiteType, bels: Seq<BELInfo>, q: int, id: int) -> bool {
    exists|b: int, k: int, m: int|
        #![trigger pip_pins(st, bels, q, b, k, m)]
        pip_pins(st, bels, q, b, k, m) && (id == pin_id(bels, b, k) || id == pin_id(bels, b, m))
}

/// One of the first `pips` site pseudo-pips runs through the BEL pin `id`.
pub open spec fn on_pip(st: &SiteType, bels: Seq<BELInfo>, pips: int, id: int) -> bool {
    exists|q: int| 0 <= q < pips && #[trigger] pip_touches(st, bels, q, id)
}

/// The site pseudo-pip `q` can be put into the graph: both its pins are
/// pins of one BEL, and that BEL is no site port.
pub open spec fn pip_ok(st: &SiteType, bels: Seq<BELInfo>, q: int) -> bool {
    exists|b: int, k: int, m: int|
        #![trigger pip_pins(st, bels, q, b, k, m)]
        pip_pins(st, bels, q, b, k, m) && !(bels[b].category is SitePort)
}

/// Each of the first `pips` site pseudo-pips can be put into the graph.
pub open spec fn pips_ok(st: &SiteType, bels: Seq<BELInfo>, pips: int) -> bool {
    forall|q: int| 0 <= q < pips && q < st.site_pips@.len() ==> #[trigger] pip_ok(st, bels, q)
}

/// What an error says of the site pseudo-pip `q`: that one of its pins is
/// not a pin of a BEL, that its pins belong to two BELs, or that it runs
/// through a site port.
pub open spec fn pip_fault_at(st: &SiteType, bels: Seq<BELInfo>, q: int, e: SiteError) -> bool {
    &&& 0 <= q < st.site_pips@.len()
    &&& {
        ||| unresolved_by(st, bels, st.site_pips@[q].inpin as int, e)
        ||| unresolved_by(st, bels, st.site_pips@[q].outpin as int, e)
        ||| e == SiteError::PipAcrossBels(st.site_pips@[q].inpin, st.site_pips@[q].outpin)
            && exists|b: int, k: int, c: int, m: int|
            #![trigger resolves_to(st, bels, st.site_pips@[q].inpin as int, b, k), resolves_to(st, bels, st.site_pips@[q].outpin as int, c, m)]
            resolves_to(st, bels, st.site_pips@[q].inpin as int, b, k) && resolves_to(
                st,
                bels,
                st.site_pips@[q].outpin as int,
                c,
                m,
            ) && b != c
        ||| e matches SiteError::PipOnSitePort(id) && exists|b: int, k: int, m: int|
            #![trigger pip_pins(st, bels, q, b, k, m)]
            pip_pins(st, bels, q, b, k, m) && bels[b].category is SitePort && id == pin_id(
                bels,
                b,
                k,
            )
    }
}

/// What an error says of the site pseudo-pips: that one of them is faulty.
pub open spec fn pip_fault(st: &SiteType, bels: Seq<BELInfo>, e: SiteError) -> bool {
    exists|q: int| #[trigger] pip_fault_at(st, bels, q, e)
}

/// A site pseudo-pip runs through one BEL and two of its pins only.
pub proof fn lemma_pip_pins_once(
    st: &SiteType,
    bels: Seq<BELInfo>,
    q: int,
    b: int,
    k: int,
    m: int,
    b2: int,
    k2: int,
    m2: int,
)
    requires
        pip_pins(st, bels, q, b, k, m),
        pip_pins(st, bels, q, b2, k2, m2),
    ensures
        b == b2,
        k == k2,
        m == m2,
{
    lemma_resolves_once(st, bels, st.site_pips@[q].inpin as int, b, k, b2, k2);
    lemma_resolves_once(st, bels, st.site_pips@[q].outpin as int, b, m, b2, m2);
}

/// Every pin of a BEL has its node, as it is after the first `pips` site
/// pseudo-pips.
pub open spec fn nodes_set(st: &SiteType, bels: Seq<BELInfo>, pips: int, nodes: Seq<RoutingGraphNode>) -> bool {
    forall|b: int, k: int|
        is_pin(bels, b, k) ==> #[trigger] nodes[pin_id(bels, b, k)] == node_of_pin(
            bels,
            b,
            k,
            on_pip(st, bels, pips, pin_id(bels, b, k)),
        )
}

/// Create connections that represent pseudo-PIPs (routing BELs) in site's
/// routing graph: an edge from the input pin of every site pseudo-pip to
/// its output pin.  Both pins become routing pins of their BEL.
pub fn init_pseudopips_in_graph(
    graph: &mut RoutingGraph,
    st: &SiteType,
    bels: &Vec<BELInfo>,
    bases: &Vec<usize>,
) -> (r: Result<(), SiteError>)
    requires
        bases@.len() == bels@.len(),
        forall|b: int| 0 <= b < bels@.len() ==> (#[trigger] bases@[b]) == pin_base(bels@, b),
        old(graph).size() == pin_count(bels@),
        nodes_set(st, bels@, 0, old(graph).nodes()),
    ensures
        r is Ok <==> pips_ok(st, bels@, st.site_pips@.len() as int),
        r matches Err(e) ==> pip_fault(st, bels@, e),
        final(graph).size() == old(graph).size(),
        r is Ok ==> nodes_set(st, bels@, st.site_pips@.len() as int, final(graph).nodes()),
        r is Ok ==> forall|f: int, t: int|
            #![trigger final(graph).has_edge(f, t)]
            final(graph).has_edge(f, t) == (old(graph).has_edge(f, t) || pip_edge(
                st,
                bels@,
                st.site_pips@.len() as int,
                f,
                t,
            )),
{
    let n = graph.node_count();
    let mut q: usize = 0;
    while q < st.site_pips.len()
        invariant
            q <= st.site_pips@.len(),
            bases@.len() == bels@.len(),
            forall|b: int| 0 <= b < bels@.len() ==> (#[trigger] bases@[b]) == pin_base(bels@, b),
            graph.size() == pin_count(bels@),
            graph.size() == old(graph).size(),
            n == graph.size(),
            pips_ok(st, bels@, q as int),
            nodes_set(st, bels@, q as int, graph.nodes()),
            forall|f: int, t: int|
                #![trigger graph.has_edge(f, t)]
                graph.has_edge(f, t) == (old(graph).has_edge(f, t) || pip_edge(
                    st,
                    bels@,
                    q as int,
                    f,
                    t,
                )),
        decreases st.site_pips@.len() - q,
    {
        let pip = &st.site_pips[q];
        let ghost all = st.site_pips@.len() as int;
        let (b, k, id_in) = match resolve_pin(st, bels, bases, pip.inpin) {
            Ok(found) => found,
            Err(e) => {
                proof {
                    if pip_ok(st, bels@, q as int) {
                        let (b2, k2, m2) = choose|b2: int, k2: int, m2: int|
                            #![trigger pip_pins(st, bels@, q as int, b2, k2, m2)]
                            pip_pins(st, bels@, q as int, b2, k2, m2) && !(bels@[b2].category
                                is SitePort);
                        assert(resolves_to(st, bels@, pip.inpin as int, b2, k2));
                    }
                    assert(!pips_ok(st, bels@, all));
                    assert(pip_fault_at(st, bels@, q as int, e));
                }
                return Err(e);
            },
        };
        let (b_out, m, id_out) = match resolve_pin(st, bels, bases, pip.outpin) {
            Ok(found) => found,
            Err(e) => {
                proof {
                    if pip_ok(st, bels@, q as int) {
                        let (b2, k2, m2) = choose|b2: int, k2: int, m2: int|
                            #![trigger pip_pins(st, bels@, q as int, b2, k2, m2)]
                            pip_pins(st, bels@, q as int, b2, k2, m2) && !(bels@[b2].category
                                is SitePort);
                        assert(resolves_to(st, bels@, pip.outpin as int, b2, m2));
                    }
                    assert(!pips_ok(st, bels@, all));
                    assert(pip_fault_at(st, bels@, q as int, e));
                }
                return Err(e);
            },
        };
        if b != b_out {
            proof {
                if pip_ok(st, bels@, q as int) {
                    let (b2, k2, m2) = choose|b2: int, k2: int, m2: int|
                        #![trigger pip_pins(st, bels@, q as int, b2, k2, m2)]
                        pip_pins(st, bels@, q as int, b2, k2, m2) && !(bels@[b2].category
                            is SitePort);
                    lemma_resolves_once(st, bels@, pip.inpin as int, b as int, k as int, b2, k2);
                    lemma_resolves_once(
                        st,
                        bels@,
                        pip.outpin as int,
                        b_out as int,
                        m as int,
                        b2,
                        m2,
                    );
                }
                assert(!pips_ok(st, bels@, all));
                assert(resolves_to(st, bels@, pip.inpin as int, b as int, k as int));
                assert(resolves_to(st, bels@, pip.outpin as int, b_out as int, m as int));
                assert(pip_fault_at(
                    st,
                    bels@,
                    q as int,
                    SiteError::PipAcrossBels(pip.inpin, pip.outpin),
                ));
            }
            return Err(SiteError::PipAcrossBels(pip.inpin, pip.outpin));
        }
        assert(pip_pins(st, bels@, q as int, b as int, k as int, m as int));
        if let BELCategory::SitePort = bels[b].category {
            proof {
                if pip_ok(st, bels@, q as int) {
                    let (b2, k2, m2) = choose|b2: int, k2: int, m2: int|
                        #![trigger pip_pins(st, bels@, q as int, b2, k2, m2)]
                        pip_pins(st, bels@, q as int, b2, k2, m2) && !(bels@[b2].category
                            is SitePort);
                    lemma_pip_pins_once(
                        st,
                        bels@,
                        q as int,
                        b as int,
                        k as int,
                        m as int,
                        b2,
                        k2,
                        m2,
                    );
                }
                assert(!pips_ok(st, bels@, all));
                assert(pip_fault_at(st, bels@, q as int, SiteError::PipOnSitePort(id_in)));
            }
            return Err(SiteError::PipOnSitePort(id_in));
        }
        assert(pip_ok(st, bels@, q as int));
        let ghost before = *graph;
        let kind = RoutingGraphNodeKind::RoutingBelPort(b);
        graph.set_node(id_in, RoutingGraphNode { kind, dir: bels[b].pins[k].dir });
        graph.set_node(id_out, RoutingGraphNode { kind, dir: bels[b].pins[m].dir });
        let _ = graph.connect(id_in, id_out);
        proof {
            assert forall|id: int| pip_touches(st, bels@, q as int, id) == (id == id_in || id
                == id_out) by {
                if pip_touches(st, bels@, q as int, id) {
                    let (b2, k2, m2) = choose|b2: int, k2: int, m2: int|
                        #![trigger pip_pins(st, bels@, q as int, b2, k2, m2)]
                        pip_pins(st, bels@, q as int, b2, k2, m2) && (id == pin_id(bels@, b2, k2)
                            || id == pin_id(bels@, b2, m2));
                    lemma_pip_pins_once(
                        st,
                        bels@,
                        q as int,
                        b as int,
                        k as int,
                        m as int,
                        b2,
                        k2,
                        m2,
                    );
                }
            }
            assert forall|id: int| on_pip(st, bels@, q as int + 1, id) == (on_pip(
                st,
                bels@,
                q as int,
                id,
            ) || id == id_in || id == id_out) by {
                if on_pip(st, bels@, q as int + 1, id) {
                    let q2 = choose|q2: int|
                        0 <= q2 < q + 1 && #[trigger] pip_touches(st, bels@, q2, id);
                    if q2 < q {
                        assert(on_pip(st, bels@, q as int, id));
                    }
                }
                if on_pip(st, bels@, q as int, id) {
                    let q2 = choose|q2: int| 0 <= q2 < q && #[trigger] pip_touches(st, bels@, q2, id);
                    assert(pip_touches(st, bels@, q2, id));
                }
                if id == id_in || id == id_out {
                    assert(pip_touches(st, bels@, q as int, id));
                }
            }
            assert forall|c: int, j: int| is_pin(bels@, c, j) implies #[trigger] graph.nodes()[pin_id(
                bels@,
                c,
                j,
            )] == node_of_pin(
                bels@,
                c,
                j,
                on_pip(st, bels@, q as int + 1, pin_id(bels@, c, j)),
            ) by {
                let id = pin_id(bels@, c, j);
                lemma_pin_id_unique(bels@, c, j, b as int, k as int);
                lemma_pin_id_unique(bels@, c, j, b as int, m as int);
                assert(before.nodes()[id] == node_of_pin(
                    bels@,
                    c,
                    j,
                    on_pip(st, bels@, q as int, id),
                ));
            }
            assert forall|f: int, t: int|
                #![trigger graph.has_edge(f, t)]
                graph.has_edge(f, t) == (old(graph).has_edge(f, t) || pip_edge(
                    st,
                    bels@,
                    q as int + 1,
                    f,
                    t,
                )) by {
                assert(pip_joins(st, bels@, q as int, f, t) == (f == id_in && t == id_out)) by {
                    if pip_joins(st, bels@, q as int, f, t) {
                        let (b2, k2, m2) = choose|b2: int, k2: int, m2: int|
                            #![trigger pip_pins(st, bels@, q as int, b2, k2, m2)]
                            pip_pins(st, bels@, q as int, b2, k2, m2) && f == pin_id(
                                bels@,
                                b2,
                                k2,
                            ) && t == pin_id(bels@, b2, m2);
                        lemma_pip_pins_once(
                            st,
                            bels@,
                            q as int,
                            b as int,
                            k as int,
                            m as int,
                            b2,
                            k2,
                            m2,
                        );
                    }
                }
                if pip_edge(st, bels@, q as int + 1, f, t) {
                    let q2 = choose|q2: int|
                        0 <= q2 < q + 1 && #[trigger] pip_joins(st, bels@, q2, f, t);
                    if q2 < q {
                        assert(pip_edge(st, bels@, q as int, f, t));
                    }
                }
                if pip_edge(st, bels@, q as int, f, t) {
                    let q2 = choose|q2: int| 0 <= q2 < q && #[trigger] pip_joins(st, bels@, q2, f, t);
                    assert(pip_joins(st, bels@, q2, f, t));
                }
                if f == id_in && t == id_out {
                    assert(pip_edge(st, bels@, q as int + 1, f, t));
                }
            }
        }
        q += 1;
    }
    Ok(())
}

/// Every pin identifier below the number of pins is the identifier of a
/// pin.
pub proof fn lemma_every_id_is_pin(bels: Seq<BELInfo>, upto: int, id: int)
    requires
        0 <= upto <= bels.len(),
        0 <= id < pin_base(bels, upto),
    ensures
        exists|b: int, k: int|
            #![trigger is_pin(bels, b, k)]
            is_pin(bels, b, k) && b < upto && pin_id(bels, b, k) == id,
    decreases upto,
{
    if id >= pin_base(bels, upto - 1) {
        lemma_pin_base_grows(bels, upto - 1, upto - 1);
        assert(is_pin(bels, upto - 1, id - pin_base(bels, upto - 1)));
    } else {
        lemma_every_id_is_pin(bels, upto - 1, id);
    }
}

/// A site wire or a site pseudo-pip joins `from` to `to`.
pub open spec fn base_edge(st: &SiteType, bels: Seq<BELInfo>, from: int, to: int) -> bool {
    wire_edge(st, bels, st.site_wires@.len() as int, from, to) || pip_edge(
        st,
        bels,
        st.site_pips@.len() as int,
        from,
        to,
    )
}

/// The edges of the site: those of the site wires and the site pseudo-pips
/// and, if the constant nets are asked for, those that bring the constant
/// nets to the sinks that the constant sources have by the wires and pips.
pub open spec fn site_edge(
    device: &Device,
    st: &SiteType,
    bels: Seq<BELInfo>,
    pool: Seq<Seq<char>>,
    add_virtual_consts: bool,
    from: int,
    to: int,
) -> bool {
    base_edge(st, bels, from, to) || (add_virtual_consts && virtual_edge(
        device,
        st,
        bels,
        pool,
        Set::new(|e: (int, int)| base_edge(st, bels, e.0, e.1)),
        device.site_sources@.len() as int,
        from,
        to,
    ))
}

/// The routing graph of the site can be built from the BELs.
pub open spec fn graph_ok(
    device: &Device,
    st: &SiteType,
    bels: Seq<BELInfo>,
    pool: Seq<Seq<char>>,
    add_virtual_consts: bool,
) -> bool {
    &&& wires_resolvable(st, bels, st.site_wires@.len() as int)
    &&& pips_ok(st, bels, st.site_pips@.len() as int)
    &&& add_virtual_consts ==> virtual_ok(
        device,
        st,
        bels,
        pool,
        device.site_sources@.len() as int,
    )
}

/// What an error says of the building of the routing graph: that a site
/// wire is faulty, that a site pseudo-pip is, or, where the constant nets
/// are asked for, that these cannot be brought in.
pub open spec fn graph_fault(
    device: &Device,
    st: &SiteType,
    bels: Seq<BELInfo>,
    pool: Seq<Seq<char>>,
    add_virtual_consts: bool,
    e: SiteError,
) -> bool {
    ||| wire_fault(st, bels, e)
    ||| pip_fault(st, bels, e)
    ||| add_virtual_consts && virtual_fault(device, st, bels, pool, e)
}

/// The graph is the routing graph of the site: it has a node for every pin
/// of every BEL, each node is what its pin is, none is left free, and the
/// edges are the edges of the site.
pub open spec fn is_site_graph(
    device: &Device,
    st: &SiteType,
    bels: Seq<BELInfo>,
    pool: Seq<Seq<char>>,
    add_virtual_consts: bool,
    graph: RoutingGraph,
) -> bool {
    &&& graph.size() == pin_count(bels)
    &&& nodes_set(st, bels, st.site_pips@.len() as int, graph.nodes())
    &&& forall|id: int| 0 <= id < graph.size() ==> !((#[trigger] graph.nodes()[id]).kind is FreePort)
    &&& forall|f: int, t: int|
        #![trigger graph.has_edge(f, t)]
        graph.has_edge(f, t) == site_edge(device, st, bels, pool, add_virtual_consts, f, t)
}

/// Builds the routing graph of a site from its BELs: the nodes of the pins,
/// the edges of the site wires and of the site pseudo-pips, and the edges
/// for the constant nets if those are asked for.
pub fn create_routing_graph(
    device: &Device,
    st: &SiteType,
    bels: &Vec<BELInfo>,
    bases: &Vec<usize>,
    gsctx: &GlobalStringsCtx,
    add_virtual_consts: bool,
) -> (r: Result<RoutingGraph, SiteError>)
    requires
        gsctx.wf(),
        bases@.len() == bels@.len(),
        forall|b: int| 0 <= b < bels@.len() ==> (#[trigger] bases@[b]) == pin_base(bels@, b),
        pin_count(bels@) * pin_count(bels@) <= usize::MAX,
        0 <= pin_count(bels@) <= usize::MAX,
    ensures
        r is Ok <==> graph_ok(device, st, bels@, gsctx@, add_virtual_consts),
        r matches Err(e) ==> graph_fault(device, st, bels@, gsctx@, add_virtual_consts, e),
        r matches Ok(graph) ==> is_site_graph(
            device,
            st,
            bels@,
            gsctx@,
            add_virtual_consts,
            graph,
        ),
{
    let mut total: usize = 0;
    let mut b: usize = 0;
    while b < bels.len()
        invariant
            b <= bels@.len(),
            total == pin_base(bels@, b as int),
            pin_count(bels@) <= usize::MAX,
        decreases bels@.len() - b,
    {
        proof {
            lemma_pin_base_grows(bels@, b as int + 1, bels@.len() as int);
        }
        total = total + bels[b].pins.len();
        b += 1;
    }
    let mut graph = RoutingGraph::new(total);
    init_bels_in_graph(&mut graph, bels, bases);
    proof {
        assert forall|id: int| !on_pip(st, bels@, 0, id) by {}
        assert(nodes_set(st, bels@, 0, graph.nodes()));
    }
    match init_site_wires_in_graph(&mut graph, st, bels, bases) {
        Ok(()) => {},
        Err(e) => {
            return Err(e);
        },
    }
    match init_pseudopips_in_graph(&mut graph, st, bels, bases) {
        Ok(()) => {},
        Err(e) => {
            return Err(e);
        },
    }
    proof {
        assert forall|f: int, t: int|
            #![trigger graph.has_edge(f, t)]
            graph.has_edge(f, t) == base_edge(st, bels@, f, t) by {}
        assert(graph.edge_set() =~= Set::new(|e: (int, int)| base_edge(st, bels@, e.0, e.1)));
    }
    if add_virtual_consts {
        match init_virtual_wires_in_graph(&mut graph, device, st, bels, bases, gsctx) {
            Ok(()) => {},
            Err(e) => {
                return Err(e);
            },
        }
    }
    proof {
        assert forall|id: int| 0 <= id < graph.size() implies !((#[trigger] graph.nodes()[id]).kind
            is FreePort) by {
            lemma_every_id_is_pin(bels@, bels@.len() as int, id);
            let (c, k) = choose|c: int, k: int|
                #![trigger is_pin(bels@, c, k)]
                is_pin(bels@, c, k) && c < bels@.len() && pin_id(bels@, c, k) == id;
            assert(graph.nodes()[pin_id(bels@, c, k)] == node_of_pin(
                bels@,
                c,
                k,
                on_pip(st, bels@, st.site_pips@.len() as int, pin_id(bels@, c, k)),
            ));
        }
    }
    Ok(graph)
}

/// Both ends of an edge of a site pseudo-pip are routing pins: where a site
/// pseudo-pip joins two pins of the routing graph of a site, the nodes of
/// both are routing pins of the BEL of the pip.
pub proof fn lemma_pip_ends_are_routing(
    device: &Device,
    st: &SiteType,
    bels: Seq<BELInfo>,
    pool: Seq<Seq<char>>,
    add_virtual_consts: bool,
    graph: RoutingGraph,
    from: int,
    to: int,
)
    requires
        graph_ok(device, st, bels, pool, add_virtual_consts),
        is_site_graph(device, st, bels, pool, add_virtual_consts, graph),
        pip_edge(st, bels, st.site_pips@.len() as int, from, to),
    ensures
        graph.has_edge(from, to),
        graph.nodes()[from].kind is RoutingBelPort,
        graph.nodes()[to].kind is RoutingBelPort,
        graph.nodes()[from].kind == graph.nodes()[to].kind,
{
    let all = st.site_pips@.len() as int;
    let q = choose|q: int| 0 <= q < all && #[trigger] pip_joins(st, bels, q, from, to);
    let (b, k, m) = choose|b: int, k: int, m: int|
        #![trigger pip_pins(st, bels, q, b, k, m)]
        pip_pins(st, bels, q, b, k, m) && from == pin_id(bels, b, k) && to == pin_id(bels, b, m);
    assert(pip_ok(st, bels, q));
    let (b2, k2, m2) = choose|b2: int, k2: int, m2: int|
        #![trigger pip_pins(st, bels, q, b2, k2, m2)]
        pip_pins(st, bels, q, b2, k2, m2) && !(bels[b2].category is SitePort);
    lemma_pip_pins_once(st, bels, q, b, k, m, b2, k2, m2);
    assert(pip_touches(st, bels, q, from));
    assert(pip_touches(st, bels, q, to));
    assert(on_pip(st, bels, all, from));
    assert(on_pip(st, bels, all, to));
    assert(is_pin(bels, b, k));
    assert(is_pin(bels, b, m));
    assert(graph.nodes()[pin_id(bels, b, k)] == node_of_pin(bels, b, k, true));
    assert(graph.nodes()[pin_id(bels, b, m)] == node_of_pin(bels, b, m, true));
    assert(base_edge(st, bels, from, to));
}

/// Every driver on a site wire has an edge to every sink on the wire but
/// itself.
pub proof fn lemma_wire_joins_are_edges(
    device: &Device,
    st: &SiteType,
    bels: Seq<BELInfo>,
    pool: Seq<Seq<char>>,
    add_virtual_consts: bool,
    graph: RoutingGraph,
    w: int,
    from: int,
    to: int,
)
    requires
        is_site_graph(device, st, bels, pool, add_virtual_consts, graph),
        0 <= w < st.site_wires@.len(),
        wire_end(st, bels, w, from, true),
        wire_end(st, bels, w, to, false),
        from != to,
    ensures
        graph.has_edge(from, to),
{
    assert(wire_joins(st, bels, w, from, to));
    assert(wire_edge(st, bels, st.site_wires@.len() as int, from, to));
    assert(base_edge(st, bels, from, to));
}

} // verus!
