//! The routing information of a site with the names of its pins, as it is
//! handed to a serializer.
//!
//! A pin is named by the name of its BEL, a dot, and its own name.  A pair
//! of pins is named by the name of the source pin, an arrow `->`, and the
//! name of the sink pin.

use super::batch::{entry_inside, is_routing_of, lemma_out_lists_inside, lemma_range_entries_inside, range_spec};
use super::brute_router::BruteRouter;
use super::names::SitePinId;
use super::route_spec::key_below;
use super::routing_info::{cubes_view, entries_view, pin_lists_view, PinPairEntry, RoutingInfo};
use super::site_brute_router::ConstrainingElement;
use super::site_graph::{is_pin, lemma_pin_id_unique, pin_id};
use crate::common::IcStr;
use crate::device::Device;
use crate::logic_formula::cube::DNFCube;
use crate::logic_formula::term::FormulaTerm;
use crate::strings::GlobalStringsCtx;
use vstd::prelude::*;
use vstd::string::StringExecFns;

verus! {

/// A resource congesting nets, by its name.
#[derive(Debug, PartialEq, Eq)]
pub enum StringConstrainingElement {
    /// Usage of the port with the given name.
    Port(String),
}

/// A term over named resources.
#[derive(Debug, PartialEq, Eq)]
pub enum NamedTerm {
    Var(StringConstrainingElement),
    NegVar(StringConstrainingElement),
    True,
    False,
}

/// The routing relationship of a pair of pins, over named resources.
#[derive(Debug)]
pub struct PinPairRoutingInfoWithExtras {
    pub requires: Vec<Vec<NamedTerm>>,
    pub implies: Vec<Vec<NamedTerm>>,
}

/// The pins that belong to a pin, all by their names.
#[derive(Debug)]
pub struct SitePinVec {
    pub pin: String,
    pub vec: Vec<String>,
}

/// All that the router has found out about a site, with the names of the
/// pins in place of their identifiers.
#[derive(Debug)]
pub struct RoutingInfoWithExtras {
    /// The routing relationships by the names of the pairs.
    pub pin_to_pin_routing: Vec<(String, PinPairRoutingInfoWithExtras)>,
    /// The outer sources of every pin that has some.
    pub out_of_site_sources: Vec<SitePinVec>,
    /// The outer sinks of every pin that has some.
    pub out_of_site_sinks: Vec<SitePinVec>,
}

/// The name of a pin: the name of its BEL, a dot, and its own name.
pub open spec fn pin_text(bel_name: Seq<char>, pin_name: Seq<char>) -> Seq<char> {
    bel_name + seq!['.'] + pin_name
}

/// The name of a pair of pins: the names of the two pins with an arrow
/// between them.
pub open spec fn pair_text(from: Seq<char>, to: Seq<char>) -> Seq<char> {
    from + "->"@ + to
}

/// `text` is the name of the pin `id` of the router.
pub open spec fn is_pin_text(
    router: &BruteRouter,
    strings: Seq<Seq<char>>,
    pool: Seq<Seq<char>>,
    id: int,
    text: Seq<char>,
) -> bool {
    exists|b: int, k: int|
        #![trigger is_pin(router.bels(), b, k)]
        is_pin(router.bels(), b, k) && pin_id(router.bels(), b, k) == id && text == pin_text(
            router.bels()[b].name.text(strings, pool),
            router.bels()[b].pins@[k].name.text(strings, pool),
        )
}

/// A pin has one name only.
pub proof fn lemma_pin_text_once(
    router: &BruteRouter,
    strings: Seq<Seq<char>>,
    pool: Seq<Seq<char>>,
    id: int,
    text: Seq<char>,
    other: Seq<char>,
)
    requires
        is_pin_text(router, strings, pool, id, text),
        is_pin_text(router, strings, pool, id, other),
    ensures
        text == other,
{
    let (b, k) = choose|b: int, k: int|
        #![trigger is_pin(router.bels(), b, k)]
        is_pin(router.bels(), b, k) && pin_id(router.bels(), b, k) == id && text == pin_text(
            router.bels()[b].name.text(strings, pool),
            router.bels()[b].pins@[k].name.text(strings, pool),
        );
    let (c, m) = choose|c: int, m: int|
        #![trigger is_pin(router.bels(), c, m)]
        is_pin(router.bels(), c, m) && pin_id(router.bels(), c, m) == id && other == pin_text(
            router.bels()[c].name.text(strings, pool),
            router.bels()[c].pins@[m].name.text(strings, pool),
        );
    lemma_pin_id_unique(router.bels(), b, k, c, m);
}

/// The term over named resources stands for the term: it is the same
/// constant, or a literal of the same polarity whose variable is the name
/// of the pin that is the port of the term.
pub open spec fn names_term(
    router: &BruteRouter,
    strings: Seq<Seq<char>>,
    pool: Seq<Seq<char>>,
    term: FormulaTerm<ConstrainingElement>,
    named: NamedTerm,
) -> bool {
    match term {
        FormulaTerm::Var(ConstrainingElement::Port(p)) => named matches NamedTerm::Var(
            StringConstrainingElement::Port(name),
        ) && is_pin_text(router, strings, pool, p as int, name@),
        FormulaTerm::NegVar(ConstrainingElement::Port(p)) => named matches NamedTerm::NegVar(
            StringConstrainingElement::Port(name),
        ) && is_pin_text(router, strings, pool, p as int, name@),
        FormulaTerm::True => named is True,
        FormulaTerm::False => named is False,
    }
}

/// The ports of all terms of the cubes are pins of the router.
pub open spec fn ports_known(router: &BruteRouter, form: Seq<DNFCube<ConstrainingElement>>) -> bool {
    forall|i: int, j: int|
        0 <= i < form.len() && 0 <= j < form[i].terms@.len() ==> match #[trigger] form[i].terms@[j] {
            FormulaTerm::Var(ConstrainingElement::Port(p)) => p < router.graph().size(),
            FormulaTerm::NegVar(ConstrainingElement::Port(p)) => p < router.graph().size(),
            _ => true,
        }
}

/// The cubes over named resources stand for the cubes, term by term.
pub open spec fn names_form(
    router: &BruteRouter,
    strings: Seq<Seq<char>>,
    pool: Seq<Seq<char>>,
    form: Seq<DNFCube<ConstrainingElement>>,
    named: Seq<Vec<NamedTerm>>,
) -> bool {
    &&& named.len() == form.len()
    &&& forall|i: int| 0 <= i < form.len() ==> (#[trigger] named[i])@.len() == form[i].terms@.len()
    &&& forall|i: int, j: int|
        0 <= i < form.len() && 0 <= j < form[i].terms@.len() ==> names_term(
            router,
            strings,
            pool,
            #[trigger] form[i].terms@[j],
            named[i]@[j],
        )
}

/// The name of a pin of the router.
pub fn pin_name_string(
    router: &BruteRouter,
    device: &Device,
    gsctx: &GlobalStringsCtx,
    pin: SitePinId,
) -> (r: String)
    requires
        pin.0 < router.graph().size(),
        router.names_known(device.strings(), gsctx@),
    ensures
        is_pin_text(router, device.strings(), gsctx@, pin.0 as int, r@),
{
    let name = router.get_pin_name(device, gsctx, pin);
    let r = name.to_string();
    proof {
        let (b, k) = choose|b: int, k: int|
            #![trigger is_pin(router.bels(), b, k)]
            router.pin_named_at(device.strings(), gsctx@, pin.0 as int, b, k, name.bel@, name.pin@);
        assert(is_pin(router.bels(), b, k));
    }
    r
}

/// The name of a pair of pins.
pub fn pair_key(from: &str, to: &str) -> (r: String)
    ensures
        r@ == pair_text(from@, to@),
{
    let mut key = String::from_str(from);
    key.append("->");
    key.append(to);
    key
}

/// Puts the names of the pins in place of the ports of the terms.
pub fn dnf_to_serializable(
    router: &BruteRouter,
    device: &Device,
    gsctx: &GlobalStringsCtx,
    form: &Vec<DNFCube<ConstrainingElement>>,
) -> (r: Vec<Vec<NamedTerm>>)
    requires
        router.names_known(device.strings(), gsctx@),
        ports_known(router, form@),
    ensures
        names_form(router, device.strings(), gsctx@, form@, r@),
{
    let ghost strings = device.strings();
    let ghost pool = gsctx@;
    let mut out: Vec<Vec<NamedTerm>> = Vec::new();
    let mut i: usize = 0;
    while i < form.len()
        invariant
            i <= form@.len(),
            strings == device.strings(),
            pool == gsctx@,
            router.names_known(strings, pool),
            ports_known(router, form@),
            names_form(router, strings, pool, form@.take(i as int), out@),
        decreases form@.len() - i,
    {
        let cube = &form[i];
        let mut terms: Vec<NamedTerm> = Vec::new();
        let mut j: usize = 0;
        while j < cube.terms.len()
            invariant
                i < form@.len(),
                cube == &form@[i as int],
                j <= cube.terms@.len(),
                strings == device.strings(),
                pool == gsctx@,
                router.names_known(strings, pool),
                ports_known(router, form@),
                terms@.len() == j,
                forall|k: int|
                    0 <= k < j ==> names_term(
                        router,
                        strings,
                        pool,
                        #[trigger] cube.terms@[k],
                        terms@[k],
                    ),
            decreases cube.terms@.len() - j,
        {
            assert(form@[i as int].terms@[j as int] == cube.terms@[j as int]);
            let named = match &cube.terms[j] {
                FormulaTerm::Var(ConstrainingElement::Port(p)) => NamedTerm::Var(
                    StringConstrainingElement::Port(
                        pin_name_string(router, device, gsctx, SitePinId(*p as usize)),
                    ),
                ),
                FormulaTerm::NegVar(ConstrainingElement::Port(p)) => NamedTerm::NegVar(
                    StringConstrainingElement::Port(
                        pin_name_string(router, device, gsctx, SitePinId(*p as usize)),
                    ),
                ),
                FormulaTerm::True => NamedTerm::True,
                FormulaTerm::False => NamedTerm::False,
            };
            terms.push(named);
            j += 1;
        }
        let ghost before = out@;
        out.push(terms);
        proof {
            let now = form@.take(i as int + 1);
            let was = form@.take(i as int);
            assert forall|a: int| 0 <= a < now.len() implies (#[trigger] out@[a])@.len()
                == now[a].terms@.len() by {
                if a < i {
                    assert(out@[a] == before[a]);
                    assert(now[a] == was[a]);
                }
            }
            assert forall|a: int, b: int|
                0 <= a < now.len() && 0 <= b < now[a].terms@.len() implies names_term(
                router,
                strings,
                pool,
                #[trigger] now[a].terms@[b],
                out@[a]@[b],
            ) by {
                if a < i {
                    assert(out@[a] == before[a]);
                    assert(now[a] == was[a]);
                    assert(names_term(router, strings, pool, was[a].terms@[b], before[a]@[b]));
                }
            }
        }
        i += 1;
    }
    proof {
        assert(form@.take(form@.len() as int) =~= form@);
    }
    out
}

/// The names of the pins of a list.
pub fn pin_names(
    router: &BruteRouter,
    device: &Device,
    gsctx: &GlobalStringsCtx,
    pins: &Vec<SitePinId>,
) -> (r: Vec<String>)
    requires
        router.names_known(device.strings(), gsctx@),
        forall|i: int| 0 <= i < pins@.len() ==> (#[trigger] pins@[i]).0 < router.graph().size(),
    ensures
        r@.len() == pins@.len(),
        forall|i: int|
            0 <= i < pins@.len() ==> is_pin_text(
                router,
                device.strings(),
                gsctx@,
                pins@[i].0 as int,
                (#[trigger] r@[i])@,
            ),
{
    let mut out: Vec<String> = Vec::new();
    let mut i: usize = 0;
    while i < pins.len()
        invariant
            i <= pins@.len(),
            router.names_known(device.strings(), gsctx@),
            forall|k: int| 0 <= k < pins@.len() ==> (#[trigger] pins@[k]).0 < router.graph().size(),
            out@.len() == i,
            forall|k: int|
                0 <= k < i ==> is_pin_text(
                    router,
                    device.strings(),
                    gsctx@,
                    pins@[k].0 as int,
                    (#[trigger] out@[k])@,
                ),
        decreases pins@.len() - i,
    {
        out.push(pin_name_string(router, device, gsctx, pins[i]));
        i += 1;
    }
    out
}

/// The index in the lists of the pins of the entry with the index `e`: the
/// entries are made for the pins whose lists are not empty, in the order of
/// the pins.
pub open spec fn listed_pin(lists: Seq<Vec<SitePinId>>, upto: int) -> Seq<int>
    decreases upto,
{
    if upto <= 0 {
        Seq::empty()
    } else {
        let before = listed_pin(lists, upto - 1);
        if lists[upto - 1]@.len() > 0 {
            before.push(upto - 1)
        } else {
            before
        }
    }
}

/// The entry names the pin `p` and the pins of its list.
pub open spec fn names_list(
    router: &BruteRouter,
    strings: Seq<Seq<char>>,
    pool: Seq<Seq<char>>,
    lists: Seq<Vec<SitePinId>>,
    p: int,
    entry: SitePinVec,
) -> bool {
    &&& 0 <= p < lists.len()
    &&& is_pin_text(router, strings, pool, p, entry.pin@)
    &&& entry.vec@.len() == lists[p]@.len()
    &&& forall|i: int|
        0 <= i < lists[p]@.len() ==> is_pin_text(
            router,
            strings,
            pool,
            lists[p]@[i].0 as int,
            (#[trigger] entry.vec@[i])@,
        )
}

/// The entries name the pins whose lists are not empty, in the order of the
/// pins, each with the pins of its list.
pub open spec fn names_lists(
    router: &BruteRouter,
    strings: Seq<Seq<char>>,
    pool: Seq<Seq<char>>,
    lists: Seq<Vec<SitePinId>>,
    named: Seq<SitePinVec>,
) -> bool {
    &&& named.len() == listed_pin(lists, lists.len() as int).len()
    &&& forall|e: int|
        0 <= e < named.len() ==> names_list(
            router,
            strings,
            pool,
            lists,
            listed_pin(lists, lists.len() as int)[e],
            #[trigger] named[e],
        )
}

/// The pins of the lists are pins of the router, and there are no more
/// lists than pins.
pub open spec fn lists_known(router: &BruteRouter, lists: Seq<Vec<SitePinId>>) -> bool {
    &&& lists.len() <= router.graph().size()
    &&& forall|p: int, i: int|
        0 <= p < lists.len() && 0 <= i < lists[p]@.len() ==> (#[trigger] lists[p]@[i]).0
            < router.graph().size()
}

/// Names the pins of the lists of outer sources or outer sinks: one entry
/// for every pin whose list is not empty, with the name of the pin and the
/// names of the pins of its list.
pub fn convert_hashmap(
    router: &BruteRouter,
    device: &Device,
    gsctx: &GlobalStringsCtx,
    lists: &Vec<Vec<SitePinId>>,
) -> (r: Vec<SitePinVec>)
    requires
        router.names_known(device.strings(), gsctx@),
        lists_known(router, lists@),
    ensures
        names_lists(router, device.strings(), gsctx@, lists@, r@),
{
    let mut out: Vec<SitePinVec> = Vec::new();
    let mut p: usize = 0;
    while p < lists.len()
        invariant
            p <= lists@.len(),
            router.names_known(device.strings(), gsctx@),
            lists@.len() <= router.graph().size(),
            forall|q: int, i: int|
                0 <= q < lists@.len() && 0 <= i < lists@[q]@.len() ==> (#[trigger] lists@[q]@[i]).0
                    < router.graph().size(),
            out@.len() == listed_pin(lists@, p as int).len(),
            forall|e: int|
                0 <= e < out@.len() ==> names_list(
                    router,
                    device.strings(),
                    gsctx@,
                    lists@,
                    listed_pin(lists@, p as int)[e],
                    #[trigger] out@[e],
                ),
        decreases lists@.len() - p,
    {
        let ghost before = out@;
        let ghost listed = listed_pin(lists@, p as int);
        let ghost now = listed_pin(lists@, p as int + 1);
        if lists[p].len() > 0 {
            let pin = pin_name_string(router, device, gsctx, SitePinId(p));
            let vec = pin_names(router, device, gsctx, &lists[p]);
            let entry = SitePinVec { pin, vec };
            assert(names_list(router, device.strings(), gsctx@, lists@, p as int, entry));
            out.push(entry);
            proof {
                assert(now == listed.push(p as int));
                assert forall|e: int| 0 <= e < out@.len() implies names_list(
                    router,
                    device.strings(),
                    gsctx@,
                    lists@,
                    now[e],
                    #[trigger] out@[e],
                ) by {
                    if e < before.len() {
                        assert(out@[e] == before[e]);
                        assert(now[e] == listed[e]);
                    }
                }
            }
        } else {
            assert(now == listed);
        }
        p += 1;
    }
    out
}

/// The entries are for pins of the router, and so are the ports of their
/// terms.
pub open spec fn entries_known(router: &BruteRouter, entries: Seq<PinPairEntry>) -> bool {
    forall|e: int|
        0 <= e < entries.len() ==> (#[trigger] entries[e]).from.0 < router.graph().size()
            && entries[e].to.0 < router.graph().size() && ports_known(
            router,
            entries[e].info.requires@,
        ) && ports_known(router, entries[e].info.implies@)
}

/// The named entry stands for the entry: it bears the name of the pair of
/// its pins, and its cubes over the names of the pins.
pub open spec fn names_entry(
    router: &BruteRouter,
    strings: Seq<Seq<char>>,
    pool: Seq<Seq<char>>,
    entry: PinPairEntry,
    named: (String, PinPairRoutingInfoWithExtras),
) -> bool {
    &&& exists|from: Seq<char>, to: Seq<char>|
        #![trigger pair_text(from, to)]
        is_pin_text(router, strings, pool, entry.from.0 as int, from) && is_pin_text(
            router,
            strings,
            pool,
            entry.to.0 as int,
            to,
        ) && named.0@ == pair_text(from, to)
    &&& names_form(router, strings, pool, entry.info.requires@, named.1.requires@)
    &&& names_form(router, strings, pool, entry.info.implies@, named.1.implies@)
}

/// The named entries stand for the entries, one for one.
pub open spec fn names_entries(
    router: &BruteRouter,
    strings: Seq<Seq<char>>,
    pool: Seq<Seq<char>>,
    entries: Seq<PinPairEntry>,
    named: Seq<(String, PinPairRoutingInfoWithExtras)>,
) -> bool {
    &&& named.len() == entries.len()
    &&& forall|e: int|
        0 <= e < entries.len() ==> names_entry(router, strings, pool, entries[e], #[trigger] named[e])
}

/// Names the routing relationships: for every entry the name of the pair
/// of its pins, and its cubes over the names of the pins.
pub fn map_routing_map_to_serializable(
    router: &BruteRouter,
    device: &Device,
    gsctx: &GlobalStringsCtx,
    entries: &Vec<PinPairEntry>,
) -> (r: Vec<(String, PinPairRoutingInfoWithExtras)>)
    requires
        router.names_known(device.strings(), gsctx@),
        entries_known(router, entries@),
    ensures
        names_entries(router, device.strings(), gsctx@, entries@, r@),
{
    let mut out: Vec<(String, PinPairRoutingInfoWithExtras)> = Vec::new();
    let mut e: usize = 0;
    while e < entries.len()
        invariant
            e <= entries@.len(),
            router.names_known(device.strings(), gsctx@),
            entries_known(router, entries@),
            out@.len() == e,
            forall|a: int|
                0 <= a < e ==> names_entry(
                    router,
                    device.strings(),
                    gsctx@,
                    entries@[a],
                    #[trigger] out@[a],
                ),
        decreases entries@.len() - e,
    {
        let entry = &entries[e];
        let from = pin_name_string(router, device, gsctx, entry.from);
        let to = pin_name_string(router, device, gsctx, entry.to);
        let key = pair_key(from.as_str(), to.as_str());
        assert(key@ == pair_text(from@, to@));
        let named = PinPairRoutingInfoWithExtras {
            requires: dnf_to_serializable(router, device, gsctx, &entry.info.requires),
            implies: dnf_to_serializable(router, device, gsctx, &entry.info.implies),
        };
        assert(names_entry(router, device.strings(), gsctx@, entries@[e as int], (key, named)));
        out.push((key, named));
        e += 1;
    }
    out
}

/// All of the routing information is about pins of the router.
pub open spec fn info_known(router: &BruteRouter, info: &RoutingInfo) -> bool {
    &&& entries_known(router, info.pin_to_pin_routing@)
    &&& lists_known(router, info.out_of_site_sources@)
    &&& lists_known(router, info.out_of_site_sinks@)
}

/// Cubes whose views speak of pins of the router only hold ports of pins
/// of the router only.
proof fn lemma_ports_known(router: &BruteRouter, form: Seq<DNFCube<ConstrainingElement>>)
    requires
        crate::logic_formula::form::all_terms(cubes_view(form), key_below(router.graph().size())),
    ensures
        ports_known(router, form),
{
    let views = cubes_view(form);
    assert forall|i: int, j: int|
        0 <= i < form.len() && 0 <= j < form[i].terms@.len() implies match #[trigger] form[i].terms@[j] {
        FormulaTerm::Var(ConstrainingElement::Port(p)) => p < router.graph().size(),
        FormulaTerm::NegVar(ConstrainingElement::Port(p)) => p < router.graph().size(),
        _ => true,
    } by {
        assert(views[i] == form[i]@);
        assert(views[i][j] == form[i].terms@[j]@);
        assert(key_below(router.graph().size())(views[i][j]));
    }
}

/// All that a router has found out about its site is about pins of the
/// router.
pub proof fn lemma_own_routing_is_known(
    router: &BruteRouter,
    info: &RoutingInfo,
    optimize: bool,
    budget: nat,
)
    requires
        is_routing_of(router.graph(), optimize, budget, *info),
    ensures
        info_known(router, info),
{
    let graph = router.graph();
    let spec = range_spec(graph, 0, graph.size(), optimize, budget);
    let entries = info.pin_to_pin_routing@;
    lemma_range_entries_inside(graph, 0, graph.size(), optimize, budget);
    assert forall|e: int| 0 <= e < entries.len() implies (#[trigger] entries[e]).from.0
        < graph.size() && entries[e].to.0 < graph.size() && ports_known(
        router,
        entries[e].info.requires@,
    ) && ports_known(router, entries[e].info.implies@) by {
        assert(entries_view(entries)[e] == entries[e]@);
        assert(entry_inside(spec[e], graph.size()));
        lemma_ports_known(router, entries[e].info.requires@);
        lemma_ports_known(router, entries[e].info.implies@);
    }
    assert forall|i: int| 0 <= i < spec.len() implies 0 <= (#[trigger] spec[i]).from < graph.size()
        && 0 <= spec[i].to < graph.size() by {
        assert(entry_inside(spec[i], graph.size()));
    }
    lemma_out_lists_inside(graph, spec, spec.len() as int);
    let sources = info.out_of_site_sources@;
    let sinks = info.out_of_site_sinks@;
    assert(pin_lists_view(sources).len() == graph.size());
    assert(pin_lists_view(sinks).len() == graph.size());
    assert forall|p: int, i: int|
        0 <= p < sources.len() && 0 <= i < sources[p]@.len() implies (#[trigger] sources[p]@[i]).0
        < graph.size() by {
        assert(pin_lists_view(sources)[p][i] == sources[p]@[i].0 as int);
    }
    assert forall|p: int, i: int|
        0 <= p < sinks.len() && 0 <= i < sinks[p]@.len() implies (#[trigger] sinks[p]@[i]).0
        < graph.size() by {
        assert(pin_lists_view(sinks)[p][i] == sinks[p]@[i].0 as int);
    }
}

/// Are the ports of all terms of the cubes pins of the router?
fn cubes_fit(router: &BruteRouter, form: &Vec<DNFCube<ConstrainingElement>>) -> (r: bool)
    ensures
        r == ports_known(router, form@),
{
    let n = router.pin_count();
    let mut i: usize = 0;
    while i < form.len()
        invariant
            i <= form@.len(),
            n == router.graph().size(),
            ports_known(router, form@.take(i as int)),
        decreases form@.len() - i,
    {
        let cube = &form[i];
        let mut j: usize = 0;
        while j < cube.terms.len()
            invariant
                i < form@.len(),
                cube == &form@[i as int],
                j <= cube.terms@.len(),
                n == router.graph().size(),
                forall|k: int|
                    0 <= k < j ==> match #[trigger] cube.terms@[k] {
                        FormulaTerm::Var(ConstrainingElement::Port(p)) => p < n,
                        FormulaTerm::NegVar(ConstrainingElement::Port(p)) => p < n,
                        _ => true,
                    },
            decreases cube.terms@.len() - j,
        {
            let fits = match &cube.terms[j] {
                FormulaTerm::Var(ConstrainingElement::Port(p)) => (*p as usize) < n,
                FormulaTerm::NegVar(ConstrainingElement::Port(p)) => (*p as usize) < n,
                _ => true,
            };
            if !fits {
                assert(!ports_known(router, form@)) by {
                }
                return false;
            }
            j += 1;
        }
        proof {
            let now = form@.take(i as int + 1);
            let was = form@.take(i as int);
            assert forall|a: int, b: int|
                0 <= a < now.len() && 0 <= b < now[a].terms@.len() implies match #[trigger] now[a].terms@[b] {
                FormulaTerm::Var(ConstrainingElement::Port(p)) => p < router.graph().size(),
                FormulaTerm::NegVar(ConstrainingElement::Port(p)) => p < router.graph().size(),
                _ => true,
            } by {
                if a < i {
                    assert(now[a] == was[a]);
                }
            }
        }
        i += 1;
    }
    proof {
        assert(form@.take(form@.len() as int) =~= form@);
    }
    true
}

/// Are the pins of the lists pins of the router, and are there no more
/// lists than pins?
fn lists_fit(router: &BruteRouter, lists: &Vec<Vec<SitePinId>>) -> (r: bool)
    ensures
        r == lists_known(router, lists@),
{
    let n = router.pin_count();
    if lists.len() > n {
        return false;
    }
    let mut p: usize = 0;
    while p < lists.len()
        invariant
            p <= lists@.len(),
            lists@.len() <= n,
            n == router.graph().size(),
            forall|q: int, i: int|
                0 <= q < p && 0 <= i < lists@[q]@.len() ==> (#[trigger] lists@[q]@[i]).0 < n,
        decreases lists@.len() - p,
    {
        let mut i: usize = 0;
        while i < lists[p].len()
            invariant
                p < lists@.len(),
                i <= lists@[p as int]@.len(),
                n == router.graph().size(),
                forall|k: int| 0 <= k < i ==> (#[trigger] lists@[p as int]@[k]).0 < n,
            decreases lists@[p as int]@.len() - i,
        {
            if lists[p][i].0 >= n {
                assert(!(lists@[p as int]@[i as int].0 < router.graph().size()));
                return false;
            }
            i += 1;
        }
        p += 1;
    }
    true
}

/// Is all of the routing information about pins of the router?  That of a
/// router's own routing is.
pub fn fits_router(info: &RoutingInfo, router: &BruteRouter) -> (r: bool)
    ensures
        r == info_known(router, info),
{
    let n = router.pin_count();
    let mut e: usize = 0;
    while e < info.pin_to_pin_routing.len()
        invariant
            e <= info.pin_to_pin_routing@.len(),
            n == router.graph().size(),
            entries_known(router, info.pin_to_pin_routing@.take(e as int)),
        decreases info.pin_to_pin_routing@.len() - e,
    {
        let entry = &info.pin_to_pin_routing[e];
        if entry.from.0 >= n || entry.to.0 >= n || !cubes_fit(router, &entry.info.requires)
            || !cubes_fit(router, &entry.info.implies) {
            assert(!entries_known(router, info.pin_to_pin_routing@)) by {
            }
            return false;
        }
        proof {
            let now = info.pin_to_pin_routing@.take(e as int + 1);
            let was = info.pin_to_pin_routing@.take(e as int);
            assert forall|a: int| 0 <= a < now.len() implies (#[trigger] now[a]).from.0
                < router.graph().size() && now[a].to.0 < router.graph().size() && ports_known(
                router,
                now[a].info.requires@,
            ) && ports_known(router, now[a].info.implies@) by {
                if a < e {
                    assert(now[a] == was[a]);
                }
            }
        }
        e += 1;
    }
    proof {
        assert(info.pin_to_pin_routing@.take(info.pin_to_pin_routing@.len() as int)
            =~= info.pin_to_pin_routing@);
    }
    lists_fit(router, &info.out_of_site_sources) && lists_fit(router, &info.out_of_site_sinks)
}

/// Puts the names of the pins in place of their identifiers in all that
/// the router has found out about a site.
pub fn with_extras(
    info: &RoutingInfo,
    router: &BruteRouter,
    device: &Device,
    gsctx: &GlobalStringsCtx,
) -> (r: RoutingInfoWithExtras)
    requires
        router.names_known(device.strings(), gsctx@),
        info_known(router, info),
    ensures
        names_entries(
            router,
            device.strings(),
            gsctx@,
            info.pin_to_pin_routing@,
            r.pin_to_pin_routing@,
        ),
        names_lists(
            router,
            device.strings(),
            gsctx@,
            info.out_of_site_sources@,
            r.out_of_site_sources@,
        ),
        names_lists(
            router,
            device.strings(),
            gsctx@,
            info.out_of_site_sinks@,
            r.out_of_site_sinks@,
        ),
{
    RoutingInfoWithExtras {
        pin_to_pin_routing: map_routing_map_to_serializable(
            router,
            device,
            gsctx,
            &info.pin_to_pin_routing,
        ),
        out_of_site_sources: convert_hashmap(router, device, gsctx, &info.out_of_site_sources),
        out_of_site_sinks: convert_hashmap(router, device, gsctx, &info.out_of_site_sinks),
    }
}

} // verus!
