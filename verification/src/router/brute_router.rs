//! The router of a site: its BELs, its pins and its routing graph.

use super::batch::{infos_view, is_routing_of, range_finished, range_spec, route_all, route_all_in_slices, route_pins, route_pins_observed, route_range, routes_spec, run_finished, PinRoutes, RangeRoutes};
use super::site_brute_router::RouteObserver;
use super::graph::RoutingGraph;
use super::names::{BELInfo, ResourceName, SitePinId, SitePinName};
use super::routing_info::{entries_view, RoutingInfo};
use super::serialize::{info_known, lemma_own_routing_is_known};
use super::site::{gather_bels_in_site_type, gather_fault, gather_ok, is_gathered, SiteError};
use super::site_graph::{create_routing_graph, graph_fault, graph_ok, is_pin, is_site_graph, lemma_pin_id_unique, number_pins, pin_count, pin_id};
use super::virtual_consts::pool_distinct;
use crate::common::IcStr;
use crate::device::{Device, SiteType};
use crate::strings::GlobalStringsCtx;
use vstd::prelude::*;
use vstd::string::StringExecFns;

verus! {

/// No two BELs have the same name.
pub open spec fn names_distinct(bels: Seq<BELInfo>) -> bool {
    forall|i: int, j: int| 0 <= i < j < bels.len() ==> (#[trigger] bels[i]).name != (#[trigger] bels[j]).name
}

/// A router can be built from the BELs: they have names of their own, the
/// number of their pins is one that a routing graph can hold, and the
/// routing graph can be built.
pub open spec fn built_ok(
    device: &Device,
    st: &SiteType,
    add_virtual_consts: bool,
    pool: Seq<Seq<char>>,
    bels: Seq<BELInfo>,
) -> bool {
    &&& names_distinct(bels)
    &&& pin_count(bels) * pin_count(bels) <= usize::MAX
    &&& pin_count(bels) <= u32::MAX
    &&& graph_ok(device, st, bels, pool, add_virtual_consts)
}

/// What an error says of the BELs gathered: that two of them have the same
/// name, that they have too many pins, or that the routing graph cannot be
/// built from them.
pub open spec fn build_fault(
    device: &Device,
    st: &SiteType,
    add_virtual_consts: bool,
    pool: Seq<Seq<char>>,
    bels: Seq<BELInfo>,
    e: SiteError,
) -> bool {
    ||| e matches SiteError::DuplicateBel(i, j) && i < j < bels.len() && bels[i as int].name
        == bels[j as int].name
    ||| e is TooManyPins && !(pin_count(bels) * pin_count(bels) <= usize::MAX && pin_count(bels)
        <= u32::MAX)
    ||| graph_fault(device, st, bels, pool, add_virtual_consts, e)
}

/// What an error says of the site type: that the device has no site type
/// with the index, that its BELs cannot be gathered, or that no router can
/// be built from the BELs gathered.
pub open spec fn site_fault(
    device: &Device,
    st_id: u32,
    add_virtual_consts: bool,
    pool: Seq<Seq<char>>,
    e: SiteError,
) -> bool {
    if st_id >= device.site_type_list@.len() {
        e == SiteError::UnknownSiteType(st_id)
    } else {
        let st = &device.site_type_list@[st_id as int];
        ||| gather_fault(device, st, add_virtual_consts, e)
        ||| exists|bels: Seq<BELInfo>, grown: Seq<Seq<char>>|
            #[trigger] is_gathered(device, st, add_virtual_consts, grown, bels)
                && pool.is_prefix_of(grown) && pool_distinct(grown) && build_fault(
                device,
                st,
                add_virtual_consts,
                grown,
                bels,
                e,
            )
    }
}

/// A router can be built for the site type: the site type exists, its BELs
/// can be gathered, and a router can be built from the BELs, however the
/// names of the BELs for the constant nets are interned.
pub open spec fn admissible(
    device: &Device,
    st_id: u32,
    add_virtual_consts: bool,
    pool: Seq<Seq<char>>,
) -> bool {
    &&& st_id < device.site_type_list@.len()
    &&& gather_ok(device, &device.site_type_list@[st_id as int], add_virtual_consts)
    &&& forall|bels: Seq<BELInfo>, grown: Seq<Seq<char>>|
        #[trigger] is_gathered(
            device,
            &device.site_type_list@[st_id as int],
            add_virtual_consts,
            grown,
            bels,
        ) && pool.is_prefix_of(grown) && pool_distinct(grown) ==> built_ok(
            device,
            &device.site_type_list@[st_id as int],
            add_virtual_consts,
            grown,
            bels,
        )
}

/// Finds two BELs of the same name.
pub fn find_duplicate(bels: &Vec<BELInfo>) -> (r: Option<(usize, usize)>)
    ensures
        match r {
            Some((i, j)) => i < j < bels@.len() && bels@[i as int].name == bels@[j as int].name,
            None => names_distinct(bels@),
        },
{
    let n = bels.len();
    let mut j: usize = 0;
    while j < n
        invariant
            n == bels@.len(),
            j <= n,
            forall|a: int, b: int| 0 <= a < b < j ==> (#[trigger] bels@[a]).name != (#[trigger] bels@[b]).name,
        decreases n - j,
    {
        let mut i: usize = 0;
        while i < j
            invariant
                n == bels@.len(),
                j < n,
                i <= j,
                forall|a: int| 0 <= a < i ==> (#[trigger] bels@[a]).name != bels@[j as int].name,
            decreases j - i,
        {
            if bels[i].name == bels[j].name {
                return Some((i, j));
            }
            i += 1;
        }
        j += 1;
    }
    None
}

/// Is the name one of `strings` strings of the device or of `pooled`
/// interned strings?
fn name_is_known(name: &ResourceName, strings: usize, pooled: usize) -> (r: bool)
    ensures
        r == match name {
            ResourceName::DeviceResources(id) => *id < strings,
            ResourceName::Virtual(id) => id.0 < pooled,
        },
{
    match name {
        ResourceName::DeviceResources(id) => (*id as usize) < strings,
        ResourceName::Virtual(id) => id.0 < pooled,
    }
}

/// The router of a site.
pub struct BruteRouter {
    st_id: u32,
    bels: Vec<BELInfo>,
    site_belpin_idx_to_bel_pin: Vec<(usize, usize)>,
    graph: RoutingGraph,
}

impl BruteRouter {
    #[verifier::type_invariant]
    spec fn fits(self) -> bool {
        &&& self.graph.size() == pin_count(self.bels@)
        &&& self.graph.size() <= u32::MAX
        &&& self.site_belpin_idx_to_bel_pin@.len() == pin_count(self.bels@)
        &&& forall|id: int|
            0 <= id < self.site_belpin_idx_to_bel_pin@.len() ==> is_pin(
                self.bels@,
                (#[trigger] self.site_belpin_idx_to_bel_pin@[id]).0 as int,
                self.site_belpin_idx_to_bel_pin@[id].1 as int,
            ) && pin_id(
                self.bels@,
                self.site_belpin_idx_to_bel_pin@[id].0 as int,
                self.site_belpin_idx_to_bel_pin@[id].1 as int,
            ) == id
    }

    /// The index of the site type in the device.
    pub closed spec fn site_type(&self) -> u32 {
        self.st_id
    }

    /// The BELs of the site.
    pub closed spec fn bels(&self) -> Seq<BELInfo> {
        self.bels@
    }

    /// The routing graph of the site.
    pub closed spec fn graph(&self) -> RoutingGraph {
        self.graph
    }

    /// The strings of the names of all BELs and pins exist.
    pub open spec fn names_known(&self, strings: Seq<Seq<char>>, pool: Seq<Seq<char>>) -> bool {
        forall|b: int|
            0 <= b < self.bels().len() ==> (#[trigger] self.bels()[b]).name.known(strings, pool)
                && forall|k: int|
                0 <= k < self.bels()[b].pins@.len() ==> (#[trigger] self.bels()[b].pins@[k]).name.known(
                    strings,
                    pool,
                )
    }

    /// The pin `id` is the pin at `k` of the BEL at `b`, the BEL is named
    /// `bel_name`, and the pin `pin_name`.
    pub open spec fn pin_named_at(
        &self,
        strings: Seq<Seq<char>>,
        pool: Seq<Seq<char>>,
        id: int,
        b: int,
        k: int,
        bel_name: Seq<char>,
        pin_name: Seq<char>,
    ) -> bool {
        &&& is_pin(self.bels(), b, k)
        &&& pin_id(self.bels(), b, k) == id
        &&& self.bels()[b].name.text(strings, pool) == bel_name
        &&& self.bels()[b].pins@[k].name.text(strings, pool) == pin_name
    }

    /// The pin `id` is the pin named `pin_name` of a BEL named `bel_name`.
    pub open spec fn pin_named(
        &self,
        strings: Seq<Seq<char>>,
        pool: Seq<Seq<char>>,
        id: int,
        bel_name: Seq<char>,
        pin_name: Seq<char>,
    ) -> bool {
        exists|b: int, k: int|
            #![trigger is_pin(self.bels(), b, k)]
            self.pin_named_at(strings, pool, id, b, k, bel_name, pin_name)
    }

    /// Some BEL of the site is named `bel_name`.
    pub open spec fn bel_named(
        &self,
        strings: Seq<Seq<char>>,
        pool: Seq<Seq<char>>,
        bel_name: Seq<char>,
    ) -> bool {
        exists|b: int|
            0 <= b < self.bels().len() && (#[trigger] self.bels()[b]).name.text(strings, pool)
                == bel_name
    }

    /// Is some BEL of the site named `bel_name`?
    pub fn has_bel_named(&self, device: &Device, gsctx: &GlobalStringsCtx, bel_name: &str) -> (r:
        bool)
        requires
            self.names_known(device.strings(), gsctx@),
        ensures
            r == self.bel_named(device.strings(), gsctx@, bel_name@),
    {
        let wanted = String::from_str(bel_name);
        let mut b: usize = 0;
        while b < self.bels.len()
            invariant
                b <= self.bels().len(),
                self.bels@ == self.bels(),
                wanted@ == bel_name@,
                self.names_known(device.strings(), gsctx@),
                forall|c: int|
                    0 <= c < b ==> (#[trigger] self.bels()[c]).name.text(device.strings(), gsctx@)
                        != bel_name@,
            decreases self.bels().len() - b,
        {
            assert(self.bels()[b as int].name.known(device.strings(), gsctx@));
            let this_bel = String::from_str(self.bels[b].name.get(device, gsctx).as_str());
            if this_bel == wanted {
                return true;
            }
            b += 1;
        }
        false
    }

    /// Creates the router of the site type with the index `st_id`: gathers
    /// the BELs, numbers their pins and builds the routing graph.
    ///
    /// With `add_virtual_consts` the site is extended with the BELs by which
    /// the constant nets are modelled: a site port `$VCC` or `$GND` for
    /// every constant that a BEL of the site generates, and a routing BEL
    /// between the port and the wire of every BEL that generates the
    /// constant.
    ///
    /// Fails if the description of the site type is faulty.
    pub fn try_new(
        device: &Device,
        st_id: u32,
        add_virtual_consts: bool,
        gsctx: &mut GlobalStringsCtx,
    ) -> (r: Result<Self, SiteError>)
        requires
            old(gsctx).wf(),
        ensures
            final(gsctx).wf(),
            old(gsctx)@.is_prefix_of(final(gsctx)@),
            match r {
                Ok(router) => {
                    &&& st_id < device.site_type_list@.len()
                    &&& router.site_type() == st_id
                    &&& is_gathered(
                        device,
                        &device.site_type_list@[st_id as int],
                        add_virtual_consts,
                        final(gsctx)@,
                        router.bels(),
                    )
                    &&& built_ok(
                        device,
                        &device.site_type_list@[st_id as int],
                        add_virtual_consts,
                        final(gsctx)@,
                        router.bels(),
                    )
                    &&& is_site_graph(
                        device,
                        &device.site_type_list@[st_id as int],
                        router.bels(),
                        final(gsctx)@,
                        add_virtual_consts,
                        router.graph(),
                    )
                },
                Err(e) => !admissible(device, st_id, add_virtual_consts, old(gsctx)@) && site_fault(
                    device,
                    st_id,
                    add_virtual_consts,
                    old(gsctx)@,
                    e,
                ),
            },
    {
        if st_id as usize >= device.site_type_list.len() {
            return Err(SiteError::UnknownSiteType(st_id));
        }
        let st = &device.site_type_list[st_id as usize];
        let bels = match gather_bels_in_site_type(device, st, add_virtual_consts, gsctx) {
            Ok(bels) => bels,
            Err(e) => {
                return Err(e);
            },
        };
        proof {
            assert(pool_distinct(gsctx@));
        }
        match find_duplicate(&bels) {
            Some((i, j)) => {
                proof {
                    assert(!names_distinct(bels@));
                    assert(is_gathered(device, st, add_virtual_consts, gsctx@, bels@));
                    assert(build_fault(
                        device,
                        st,
                        add_virtual_consts,
                        gsctx@,
                        bels@,
                        SiteError::DuplicateBel(i, j),
                    ));
                }
                return Err(SiteError::DuplicateBel(i, j));
            },
            None => {},
        }
        let (bases, table) = match number_pins(&bels) {
            Ok(numbered) => numbered,
            Err(e) => {
                proof {
                    assert(is_gathered(device, st, add_virtual_consts, gsctx@, bels@));
                    assert(!built_ok(device, st, add_virtual_consts, gsctx@, bels@));
                    assert(build_fault(device, st, add_virtual_consts, gsctx@, bels@, e));
                }
                return Err(e);
            },
        };
        let graph = match create_routing_graph(device, st, &bels, &bases, gsctx, add_virtual_consts) {
            Ok(graph) => graph,
            Err(e) => {
                proof {
                    assert(is_gathered(device, st, add_virtual_consts, gsctx@, bels@));
                    assert(!built_ok(device, st, add_virtual_consts, gsctx@, bels@));
                    assert(build_fault(device, st, add_virtual_consts, gsctx@, bels@, e));
                }
                return Err(e);
            },
        };
        Ok(Self { st_id, bels, site_belpin_idx_to_bel_pin: table, graph })
    }

    /// Creates the router of the site type with the index `st_id`, for a
    /// site type whose description is free of faults.
    pub fn new(device: &Device, st_id: u32, add_virtual_consts: bool, gsctx: &mut GlobalStringsCtx) -> (r:
        Self)
        requires
            old(gsctx).wf(),
            admissible(device, st_id, add_virtual_consts, old(gsctx)@),
        ensures
            final(gsctx).wf(),
            old(gsctx)@.is_prefix_of(final(gsctx)@),
            r.site_type() == st_id,
            is_gathered(
                device,
                &device.site_type_list@[st_id as int],
                add_virtual_consts,
                final(gsctx)@,
                r.bels(),
            ),
            is_site_graph(
                device,
                &device.site_type_list@[st_id as int],
                r.bels(),
                final(gsctx)@,
                add_virtual_consts,
                r.graph(),
            ),
    {
        match Self::try_new(device, st_id, add_virtual_consts, gsctx) {
            Ok(router) => router,
            Err(_) => vstd::pervasive::unreached(),
        }
    }

    /// Do the strings of the names of all BELs and pins exist?
    pub fn has_names_in(&self, device: &Device, gsctx: &GlobalStringsCtx) -> (r: bool)
        ensures
            r == self.names_known(device.strings(), gsctx@),
    {
        let strings = device.str_list.len();
        let pooled = gsctx.len();
        let mut b: usize = 0;
        while b < self.bels.len()
            invariant
                b <= self.bels().len(),
                self.bels@ == self.bels(),
                strings == device.strings().len(),
                pooled == gsctx@.len(),
                forall|c: int|
                    0 <= c < b ==> (#[trigger] self.bels()[c]).name.known(device.strings(), gsctx@)
                        && forall|k: int|
                        0 <= k < self.bels()[c].pins@.len() ==> (
                        #[trigger] self.bels()[c].pins@[k]).name.known(device.strings(), gsctx@),
            decreases self.bels().len() - b,
        {
            let bel = &self.bels[b];
            if !name_is_known(&bel.name, strings, pooled) {
                assert(!self.bels()[b as int].name.known(device.strings(), gsctx@));
                return false;
            }
            let mut k: usize = 0;
            while k < bel.pins.len()
                invariant
                    b < self.bels().len(),
                    bel == &self.bels()[b as int],
                    k <= bel.pins@.len(),
                    strings == device.strings().len(),
                    pooled == gsctx@.len(),
                    forall|m: int|
                        0 <= m < k ==> (#[trigger] bel.pins@[m]).name.known(
                            device.strings(),
                            gsctx@,
                        ),
                decreases bel.pins@.len() - k,
            {
                if !name_is_known(&bel.pins[k].name, strings, pooled) {
                    assert(!self.bels()[b as int].pins@[k as int].name.known(
                        device.strings(),
                        gsctx@,
                    ));
                    return false;
                }
                k += 1;
            }
            b += 1;
        }
        true
    }

    /// The number of pins of the site.
    pub fn pin_count(&self) -> (r: usize)
        ensures
            r == self.graph().size(),
            r == pin_count(self.bels()),
    {
        proof {
            use_type_invariant(self);
        }
        self.graph.node_count()
    }

    /// The routing graph of the site.
    pub fn routing_graph(&self) -> (r: &RoutingGraph)
        ensures
            *r == self.graph(),
            r.size() <= u32::MAX,
    {
        proof {
            use_type_invariant(self);
        }
        &self.graph
    }

    /// The BELs of the site.
    pub fn bel_infos(&self) -> (r: &Vec<BELInfo>)
        ensures
            r@ == self.bels(),
    {
        &self.bels
    }

    /// The BEL of the pin `pin_id` and the place of the pin among the pins
    /// of the BEL.
    pub fn bel_pin_of(&self, pin: SitePinId) -> (r: (usize, usize))
        requires
            pin.0 < self.graph().size(),
        ensures
            is_pin(self.bels(), r.0 as int, r.1 as int),
            pin_id(self.bels(), r.0 as int, r.1 as int) == pin.0,
    {
        proof {
            use_type_invariant(self);
        }
        self.site_belpin_idx_to_bel_pin[pin.0]
    }

    /// The names of the BEL and of the pin of a pin of the site.
    pub fn get_pin_name(&self, device: &Device, gsctx: &GlobalStringsCtx, pin_id: SitePinId) -> (r:
        SitePinName)
        requires
            pin_id.0 < self.graph().size(),
            self.names_known(device.strings(), gsctx@),
        ensures
            exists|b: int, k: int|
                #![trigger is_pin(self.bels(), b, k)]
                self.pin_named_at(device.strings(), gsctx@, pin_id.0 as int, b, k, r.bel@, r.pin@),
    {
        let (bel_id, bel_pin_id) = self.bel_pin_of(pin_id);
        assert(self.bels()[bel_id as int].name.known(device.strings(), gsctx@));
        assert(self.bels()[bel_id as int].pins@[bel_pin_id as int].name.known(
            device.strings(),
            gsctx@,
        ));
        let bel = self.bels[bel_id].name.get(device, gsctx);
        let pin = self.bels[bel_id].pins[bel_pin_id].name.get(device, gsctx);
        let r = SitePinName::new(bel.as_str(), pin.as_str());
        assert(self.pin_named_at(
            device.strings(),
            gsctx@,
            pin_id.0 as int,
            bel_id as int,
            bel_pin_id as int,
            r.bel@,
            r.pin@,
        ));
        r
    }

    /// The message about a pin that a BEL does not have.
    pub open spec fn pin_not_found(st_name: Seq<char>, bel_name: Seq<char>, pin_name: Seq<char>) -> Seq<
        char,
    > {
        "Pin "@ + st_name + "/"@ + bel_name + "."@ + pin_name + " not found"@
    }

    /// The message about a BEL that the site does not have.
    pub open spec fn bel_not_found(st_name: Seq<char>, bel_name: Seq<char>) -> Seq<char> {
        "BEL "@ + st_name + "/"@ + bel_name + " not found"@
    }

    /// Finds the pin named `pin_name` of the BEL named `bel_name`: the
    /// first pin of the site with these names.  The error names what is
    /// missing: the BEL, if the site has no BEL of the name, and else the
    /// pin.
    pub fn get_pin_id(
        &self,
        device: &Device,
        gsctx: &GlobalStringsCtx,
        bel_name: &str,
        pin_name: &str,
    ) -> (r: Result<SitePinId, String>)
        requires
            self.names_known(device.strings(), gsctx@),
            self.site_type() < device.site_type_list@.len(),
            device.site_type_list@[self.site_type() as int].name < device.strings().len(),
        ensures
            match r {
                Ok(id) => {
                    &&& id.0 < self.graph().size()
                    &&& self.pin_named(device.strings(), gsctx@, id.0 as int, bel_name@, pin_name@)
                    &&& forall|other: int|
                        0 <= other < id.0 ==> !self.pin_named(
                            device.strings(),
                            gsctx@,
                            other,
                            bel_name@,
                            pin_name@,
                        )
                },
                Err(message) => {
                    let st_name = device.strings()[device.site_type_list@[self.site_type() as int].name as int];
                    &&& forall|other: int|
                        !self.pin_named(device.strings(), gsctx@, other, bel_name@, pin_name@)
                    &&& message@ == if self.bel_named(device.strings(), gsctx@, bel_name@) {
                        Self::pin_not_found(st_name, bel_name@, pin_name@)
                    } else {
                        Self::bel_not_found(st_name, bel_name@)
                    }
                },
            },
    {
        let n = self.pin_count();
        let bel_wanted = String::from_str(bel_name);
        let pin_wanted = String::from_str(pin_name);
        let ghost strings = device.strings();
        let ghost pool = gsctx@;
        let mut belpin_id: usize = 0;
        while belpin_id < n
            invariant
                belpin_id <= n,
                n == self.graph().size(),
                n == pin_count(self.bels()),
                strings == device.strings(),
                pool == gsctx@,
                bel_wanted@ == bel_name@,
                pin_wanted@ == pin_name@,
                self.names_known(strings, pool),
                forall|other: int|
                    0 <= other < belpin_id ==> !self.pin_named(
                        strings,
                        pool,
                        other,
                        bel_name@,
                        pin_name@,
                    ),
            decreases n - belpin_id,
        {
            let (bel_id, bel_pin_id) = self.bel_pin_of(SitePinId(belpin_id));
            assert(self.bels()[bel_id as int].name.known(strings, pool));
            assert(self.bels()[bel_id as int].pins@[bel_pin_id as int].name.known(strings, pool));
            let this_bel = String::from_str(self.bels[bel_id].name.get(device, gsctx).as_str());
            if this_bel == bel_wanted {
                let this_pin = String::from_str(
                    self.bels[bel_id].pins[bel_pin_id].name.get(device, gsctx).as_str(),
                );
                if this_pin == pin_wanted {
                    assert(self.pin_named_at(
                        strings,
                        pool,
                        belpin_id as int,
                        bel_id as int,
                        bel_pin_id as int,
                        bel_name@,
                        pin_name@,
                    ));
                    return Ok(SitePinId(belpin_id));
                }
            }
            proof {
                assert(!self.pin_named(strings, pool, belpin_id as int, bel_name@, pin_name@)) by {
                    if self.pin_named(strings, pool, belpin_id as int, bel_name@, pin_name@) {
                        let (b, k) = choose|b: int, k: int|
                            #![trigger is_pin(self.bels(), b, k)]
                            self.pin_named_at(
                                strings,
                                pool,
                                belpin_id as int,
                                b,
                                k,
                                bel_name@,
                                pin_name@,
                            );
                        lemma_pin_id_unique(self.bels(), b, k, bel_id as int, bel_pin_id as int);
                    }
                }
            }
            belpin_id += 1;
        }
        proof {
            assert forall|other: int| !self.pin_named(
                strings,
                pool,
                other,
                bel_name@,
                pin_name@,
            ) by {
                if self.pin_named(strings, pool, other, bel_name@, pin_name@) {
                    let (b, k) = choose|b: int, k: int|
                        #![trigger is_pin(self.bels(), b, k)]
                        self.pin_named_at(strings, pool, other, b, k, bel_name@, pin_name@);
                    lemma_pin_id_unique(self.bels(), b, k, b, k);
                }
            }
        }
        let bel_found = self.has_bel_named(device, gsctx, bel_name);
        let st_name = device.ic_str(device.site_type_list[self.st_id as usize].name);
        let mut message = if bel_found {
            String::from_str("Pin ")
        } else {
            String::from_str("BEL ")
        };
        message.append(st_name);
        message.append("/");
        message.append(bel_name);
        if bel_found {
            message.append(".");
            message.append(pin_name);
        }
        message.append(" not found");
        Err(message)
    }

    /// Routes from the pin `from` to all pins of the site, in `max_steps`
    /// steps at most.
    pub fn route_pins(&self, from: SitePinId, optimize: bool, max_steps: usize) -> (r: PinRoutes)
        requires
            from.0 < self.graph().size(),
        ensures
            infos_view(r.routes@) == routes_spec(
                self.graph(),
                from.0 as int,
                optimize,
                max_steps as nat,
            ),
            r.routes@.len() == self.graph().size(),
            r.finished == run_finished(self.graph(), from.0 as int, optimize, max_steps as nat),
    {
        route_pins(self.routing_graph(), from, optimize, max_steps)
    }

    /// Routes from the pin `from` to all pins of the site as `route_pins`
    /// does, and lets the observer watch every step.  The observer gains
    /// access to the accumulator of every frame, and returns the
    /// accumulator for the frames queued next; the first frame bears
    /// `accumulator`.
    pub fn with_callback<A: Clone, O: RouteObserver<A>>(
        &self,
        from: SitePinId,
        optimize: bool,
        max_steps: usize,
        accumulator: A,
        callback: &mut O,
    ) -> (r: PinRoutes)
        requires
            from.0 < self.graph().size(),
        ensures
            infos_view(r.routes@) == routes_spec(
                self.graph(),
                from.0 as int,
                optimize,
                max_steps as nat,
            ),
            r.routes@.len() == self.graph().size(),
            r.finished == run_finished(self.graph(), from.0 as int, optimize, max_steps as nat),
    {
        route_pins_observed(self.routing_graph(), from, optimize, max_steps, accumulator, callback)
    }

    /// Routes from every pin from `start` up to `end`.
    pub fn route_range(&self, start: SitePinId, end: SitePinId, optimize: bool, max_steps: usize) -> (r:
        RangeRoutes)
        requires
            end.0 <= self.graph().size(),
        ensures
            entries_view(r.entries@) == range_spec(
                self.graph(),
                start.0 as int,
                end.0 as int,
                optimize,
                max_steps as nat,
            ),
            r.finished == range_finished(
                self.graph(),
                start.0 as int,
                end.0 as int,
                optimize,
                max_steps as nat,
            ),
    {
        route_range(self.routing_graph(), start, end, optimize, max_steps)
    }

    /// Routes from every pin of the site.
    pub fn route_all(&self, optimize: bool, max_steps: usize) -> (r: RoutingInfo)
        ensures
            is_routing_of(self.graph(), optimize, max_steps as nat, r),
            info_known(self, &r),
    {
        let r = route_all(self.routing_graph(), optimize, max_steps);
        proof {
            lemma_own_routing_is_known(self, &r, optimize, max_steps as nat);
        }
        r
    }

    /// Routes from every pin of the site, range by range; the result is
    /// that of `route_all`.
    pub fn route_all_in_slices(&self, slices: usize, optimize: bool, max_steps: usize) -> (r:
        RoutingInfo)
        requires
            slices > 0,
        ensures
            is_routing_of(self.graph(), optimize, max_steps as nat, r),
            info_known(self, &r),
    {
        let r = route_all_in_slices(self.routing_graph(), slices, optimize, max_steps);
        proof {
            lemma_own_routing_is_known(self, &r, optimize, max_steps as nat);
        }
        r
    }
}

} // verus!
