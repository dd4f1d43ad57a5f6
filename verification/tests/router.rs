use nisp::common::{split_range_nicely, IcStr};
use nisp::device::{ConstantType, Device, SiteBel, SiteBelPin, SitePip, SiteSource, SiteType, SiteWire};
use nisp::logic_formula::FormulaTerm::{NegVar, Var};
use nisp::logic_formula::{DNFCube, DNFForm, FormulaTerm, MergableDNFForm};
use nisp::exporter::{ExportChecker, MultiFileExporter};
use nisp::router::brute_router::find_duplicate;
use nisp::router::serialize::{
    dnf_to_serializable, fits_router, pair_key, with_extras, NamedTerm, StringConstrainingElement,
};
use nisp::router::site::{
    create_belname_pinname_to_wire_lookup, create_input_port_bel, create_pip_bel,
    create_vconst_net_pipbel_name, gather_bels_in_site_type, lookup_wire, SiteError,
};
use nisp::router::site_graph::{create_routing_graph, number_pins, resolve_pin};
use nisp::router::site_brute_router::PTPRMarker;
use nisp::router::site_brute_router::{
    BruteRouter, ConstrainingElement, PinPairRoutingInfo, PortFormula, PortToPortRouter,
    PortToPortRouterFrame, RouteObserver, RoutingGraph, RoutingGraphNode, RoutingGraphNodeKind,
    RoutingInfo,
};
use nisp::router::{BELCategory, PinDir, ResourceName, SitePinId, SitePinName};
use nisp::strings::GlobalStringsCtx;

const STEPS: usize = 100_000;

struct Builder {
    strings: Vec<String>,
    site: SiteType,
    sources: Vec<SiteSource>,
}

impl Builder {
    fn new(site_name: &str) -> Self {
        let mut b = Builder {
            strings: Vec::new(),
            site: SiteType {
                name: 0,
                bels: Vec::new(),
                bel_pins: Vec::new(),
                site_wires: Vec::new(),
                site_pips: Vec::new(),
            },
            sources: Vec::new(),
        };
        b.site.name = b.string(site_name);
        b
    }

    fn string(&mut self, s: &str) -> u32 {
        if let Some(i) = self.strings.iter().position(|x| x == s) {
            return i as u32;
        }
        self.strings.push(s.to_string());
        (self.strings.len() - 1) as u32
    }

    fn bel(&mut self, name: &str, category: BELCategory, pins: &[(&str, PinDir)]) -> Vec<u32> {
        let bel = self.string(name);
        let mut indices = Vec::new();
        for (pin, dir) in pins {
            let pin_name = self.string(pin);
            self.site.bel_pins.push(SiteBelPin { name: pin_name, bel, dir: *dir });
            indices.push((self.site.bel_pins.len() - 1) as u32);
        }
        self.site.bels.push(SiteBel { name: bel, category, pins: indices.clone() });
        indices
    }

    fn wire(&mut self, name: &str, pins: &[u32]) {
        let name = self.string(name);
        self.site.site_wires.push(SiteWire { name, pins: pins.to_vec() });
    }

    fn pip(&mut self, inpin: u32, outpin: u32) {
        self.site.site_pips.push(SitePip { inpin, outpin });
    }

    fn source(&mut self, bel: &str, pin: &str, constant: ConstantType) {
        let site_type = self.site.name;
        let bel = self.string(bel);
        let bel_pin = self.string(pin);
        self.sources.push(SiteSource { site_type, bel, bel_pin, constant });
    }

    fn device(self) -> Device {
        Device { str_list: self.strings, site_type_list: vec![self.site], site_sources: self.sources }
    }
}

fn port(p: u32) -> ConstrainingElement {
    ConstrainingElement::Port(p)
}

fn cube(terms: Vec<FormulaTerm<ConstrainingElement>>) -> DNFCube<ConstrainingElement> {
    DNFCube { terms }
}

fn key_of(
    router: &BruteRouter,
    device: &Device,
    pool: &GlobalStringsCtx,
    from: SitePinId,
    to: SitePinId,
) -> String {
    pair_key(
        &router.get_pin_name(device, pool, from).to_string(),
        &router.get_pin_name(device, pool, to).to_string(),
    )
}

fn same_info(a: &RoutingInfo, b: &RoutingInfo) -> bool {
    a.finished == b.finished
        && a.out_of_site_sources == b.out_of_site_sources
        && a.out_of_site_sinks == b.out_of_site_sinks
        && a.pin_to_pin_routing.len() == b.pin_to_pin_routing.len()
        && a.pin_to_pin_routing.iter().zip(b.pin_to_pin_routing.iter()).all(|(x, y)| {
            x.from == y.from
                && x.to == y.to
                && x.info.requires == y.info.requires
                && x.info.implies == y.info.implies
        })
}

fn pass_through() -> Device {
    let mut b = Builder::new("S");
    let a = b.bel("A", BELCategory::LogicOrRouting, &[("o", PinDir::Output)]);
    let bb = b.bel("B", BELCategory::LogicOrRouting, &[("i", PinDir::Input)]);
    b.wire("w", &[a[0], bb[0]]);
    b.device()
}

#[test]
fn trivial_pass_through() {
    let device = pass_through();
    let mut pool = GlobalStringsCtx::hold();
    let router = BruteRouter::try_new(&device, 0, false, &mut pool).unwrap();
    assert_eq!(router.pin_count(), 2);
    let info = router.route_all(true, STEPS);
    assert!(info.finished);
    assert_eq!(info.pin_to_pin_routing.len(), 1);
    let entry = &info.pin_to_pin_routing[0];
    assert_eq!(key_of(&router, &device, &pool, entry.from, entry.to), "A.o->B.i");
    assert_eq!(entry.info.requires, vec![cube(vec![])]);
    assert_eq!(entry.info.implies, vec![cube(vec![Var(port(0))])]);
    assert!(info.out_of_site_sources.iter().all(|l| l.is_empty()));
    assert!(info.out_of_site_sinks.iter().all(|l| l.is_empty()));
    assert!(info.get(SitePinId(0), SitePinId(1)).is_some());
    assert!(info.get(SitePinId(1), SitePinId(0)).is_none());
}

fn mux() -> Device {
    let mut b = Builder::new("S");
    let m = b.bel("M", BELCategory::LogicOrRouting, &[("q", PinDir::Output)]);
    let x = b.bel("X", BELCategory::LogicOrRouting, &[("o", PinDir::Output)]);
    let y = b.bel("Y", BELCategory::LogicOrRouting, &[("o", PinDir::Output)]);
    let s = b.bel("S", BELCategory::LogicOrRouting, &[("i", PinDir::Input)]);
    b.wire("w", &[m[0], x[0], y[0], s[0]]);
    b.device()
}

#[test]
fn mux_excludes_the_other_drivers() {
    let device = mux();
    let mut pool = GlobalStringsCtx::hold();
    let router = BruteRouter::try_new(&device, 0, false, &mut pool).unwrap();
    let graph = router.routing_graph();
    assert_eq!(graph.edges_to(3), vec![0, 1, 2]);
    assert_eq!(graph.edges_from(1), vec![3]);
    assert_eq!(graph.edges_from(3), Vec::<usize>::new());
    let info = router.route_all(true, STEPS);
    assert!(info.finished);
    let keys: Vec<String> = info
        .pin_to_pin_routing
        .iter()
        .map(|e| key_of(&router, &device, &pool, e.from, e.to))
        .collect();
    assert_eq!(keys, vec!["M.q->S.i", "X.o->S.i", "Y.o->S.i"]);
    let x = info.get(SitePinId(1), SitePinId(3)).unwrap();
    assert_eq!(x.requires, vec![cube(vec![NegVar(port(0)), NegVar(port(2))])]);
    assert_eq!(x.implies, vec![cube(vec![Var(port(1))])]);
    let y = info.get(SitePinId(2), SitePinId(3)).unwrap();
    assert_eq!(y.requires, vec![cube(vec![NegVar(port(0)), NegVar(port(1))])]);
    assert_eq!(y.implies, vec![cube(vec![Var(port(2))])]);
}

#[test]
fn complementary_drivers_reduce() {
    let form: DNFForm<ConstrainingElement> = DNFForm::new()
        .add_cube(cube(vec![NegVar(port(1)), Var(port(2)), NegVar(port(5))]))
        .add_cube(cube(vec![NegVar(port(1)), NegVar(port(2)), NegVar(port(5))]))
        .optimize();
    assert_eq!(form.cubes, vec![cube(vec![NegVar(port(1)), NegVar(port(5))])]);
}

fn with_pip() -> Device {
    let mut b = Builder::new("S");
    let a = b.bel("A", BELCategory::LogicOrRouting, &[("o", PinDir::Output)]);
    let r = b.bel("R", BELCategory::LogicOrRouting, &[("in", PinDir::Input), ("out", PinDir::Output)]);
    let p = b.bel("P", BELCategory::SitePort, &[("P", PinDir::Input)]);
    b.wire("w1", &[a[0], r[0]]);
    b.wire("w2", &[r[1], p[0]]);
    b.pip(r[0], r[1]);
    b.device()
}

#[test]
fn pseudo_pip_promotes_its_pins() {
    let device = with_pip();
    let mut pool = GlobalStringsCtx::hold();
    let router = BruteRouter::try_new(&device, 0, false, &mut pool).unwrap();
    let graph = router.routing_graph();
    assert_eq!(graph.node_count(), 4);
    assert_eq!(graph.edge_count(), 16);
    assert_eq!(
        *graph.get_node(1),
        RoutingGraphNode { kind: RoutingGraphNodeKind::RoutingBelPort(1), dir: PinDir::Input }
    );
    assert_eq!(
        *graph.get_node(2),
        RoutingGraphNode { kind: RoutingGraphNodeKind::RoutingBelPort(1), dir: PinDir::Output }
    );
    assert_eq!(
        *graph.get_node(0),
        RoutingGraphNode { kind: RoutingGraphNodeKind::BelPort(0), dir: PinDir::Output }
    );
    assert_eq!(
        *graph.get_node(3),
        RoutingGraphNode { kind: RoutingGraphNodeKind::SitePort(2), dir: PinDir::Input }
    );
    assert!(*graph.get_edge(1, 2));
    assert!(*graph.get_edge(0, 1));
    assert!(*graph.get_edge(2, 3));
    assert!(!*graph.get_edge(2, 1));
    assert!(!*graph.get_edge(0, 3));

    let info = router.route_all(true, STEPS);
    assert!(info.finished);
    let through = info.get(SitePinId(0), SitePinId(3)).unwrap();
    assert_eq!(through.requires, vec![cube(vec![])]);
    assert_eq!(through.implies, vec![cube(vec![Var(port(0)), Var(port(1)), Var(port(2))])]);
    assert_eq!(info.out_of_site_sinks[0], vec![SitePinId(3)]);
    assert_eq!(info.out_of_site_sinks[1], Vec::<SitePinId>::new());
    assert_eq!(info.out_of_site_sinks[2], vec![SitePinId(3)]);
    assert!(info.out_of_site_sources.iter().all(|l| l.is_empty()));
}

fn with_constant() -> Device {
    let mut b = Builder::new("S");
    let g = b.bel("G", BELCategory::LogicOrRouting, &[("o", PinDir::Output)]);
    let k = b.bel("K", BELCategory::LogicOrRouting, &[("i", PinDir::Input)]);
    let l = b.bel("L", BELCategory::LogicOrRouting, &[("i", PinDir::Input)]);
    b.wire("gw", &[g[0], k[0], l[0]]);
    b.source("G", "o", ConstantType::Vcc);
    b.device()
}

#[test]
fn virtual_constants() {
    let device = with_constant();
    let mut pool = GlobalStringsCtx::hold();
    let router = BruteRouter::try_new(&device, 0, true, &mut pool).unwrap();
    let bels = router.bel_infos();
    assert_eq!(bels.len(), 5);
    let names: Vec<String> =
        bels.iter().map(|b| b.name.get(&device, &pool).as_str().to_string()).collect();
    assert_eq!(names, vec!["G", "K", "L", "$VCC", "G_$VCC_SITE_WIRE"]);
    assert_eq!(bels[3].category, BELCategory::SitePort);
    assert_eq!(bels[3].pins.len(), 1);
    assert_eq!(bels[3].pins[0].name, bels[3].name);
    assert_eq!(bels[3].pins[0].dir, PinDir::Output);
    assert_eq!(bels[4].category, BELCategory::LogicOrRouting);
    assert_eq!(bels[4].pins.len(), 2);
    assert_eq!(bels[4].pins[0].name, ResourceName::DeviceResources(bels_name(&device, "G")));
    assert_eq!(bels[4].pins[0].dir, PinDir::Input);
    assert_eq!(bels[4].pins[1].name, ResourceName::DeviceResources(bels_name(&device, "gw")));
    assert_eq!(bels[4].pins[1].dir, PinDir::Output);

    let graph = router.routing_graph();
    assert_eq!(graph.node_count(), 6);
    assert_eq!(graph.edges_from(0), vec![1, 2]);
    assert_eq!(graph.edges_from(3), vec![4]);
    assert_eq!(graph.edges_from(4), vec![5]);
    assert_eq!(graph.edges_from(5), vec![1, 2]);
    assert_eq!(
        *graph.get_node(3),
        RoutingGraphNode { kind: RoutingGraphNodeKind::SitePort(3), dir: PinDir::Output }
    );

    assert_eq!(router.get_pin_id(&device, &pool, "$VCC", "$VCC"), Ok(SitePinId(3)));
    assert_eq!(router.get_pin_id(&device, &pool, "G_$VCC_SITE_WIRE", "gw"), Ok(SitePinId(5)));
    let name = router.get_pin_name(&device, &pool, SitePinId(4));
    assert_eq!(name.to_string(), "G_$VCC_SITE_WIRE.G");

    let info = router.route_all(true, STEPS);
    assert!(info.finished);
    let from_port = info.get(SitePinId(3), SitePinId(1)).unwrap();
    assert_eq!(from_port.requires, vec![cube(vec![NegVar(port(0))])]);
    assert_eq!(info.out_of_site_sources[1], vec![SitePinId(3)]);
    assert_eq!(info.out_of_site_sources[2], vec![SitePinId(3)]);
    assert_eq!(info.out_of_site_sources[4], vec![SitePinId(3)]);

    let mut plain_pool = GlobalStringsCtx::hold();
    let plain = BruteRouter::try_new(&device, 0, false, &mut plain_pool).unwrap();
    assert_eq!(plain.pin_count(), 3);
    assert_eq!(plain_pool.len(), 0);
}

fn bels_name(device: &Device, s: &str) -> u32 {
    device.str_list.iter().position(|x| x == s).unwrap() as u32
}

#[test]
fn two_constants_share_a_port() {
    let mut b = Builder::new("S");
    let g = b.bel("G", BELCategory::LogicOrRouting, &[("o", PinDir::Output)]);
    let h = b.bel("H", BELCategory::LogicOrRouting, &[("o", PinDir::Output)]);
    let z = b.bel("Z", BELCategory::LogicOrRouting, &[("o", PinDir::Output)]);
    let k = b.bel("K", BELCategory::LogicOrRouting, &[("i", PinDir::Input), ("j", PinDir::Input)]);
    b.wire("gw", &[g[0], k[0]]);
    b.wire("hw", &[h[0], z[0], k[1]]);
    b.source("G", "o", ConstantType::Vcc);
    b.source("Z", "o", ConstantType::Gnd);
    b.source("H", "o", ConstantType::Vcc);
    let other_site = b.string("T");
    b.sources.push(SiteSource { site_type: other_site, bel: 0, bel_pin: 0, constant: ConstantType::Gnd });
    let device = b.device();
    let mut pool = GlobalStringsCtx::hold();
    let bels = gather_bels_in_site_type(&device, &device.site_type_list[0], true, &mut pool).unwrap();
    let names: Vec<String> =
        bels.iter().map(|b| b.name.get(&device, &pool).as_str().to_string()).collect();
    assert_eq!(
        names,
        vec![
            "G",
            "H",
            "Z",
            "K",
            "$VCC",
            "G_$VCC_SITE_WIRE",
            "$GND",
            "Z_$GND_SITE_WIRE",
            "H_$VCC_SITE_WIRE"
        ]
    );
    let mut pool = GlobalStringsCtx::hold();
    let router = BruteRouter::try_new(&device, 0, true, &mut pool).unwrap();
    let graph = router.routing_graph();
    assert_eq!(graph.node_count(), 5 + 1 + 2 + 1 + 2 + 2);
    assert_eq!(graph.edges_from(5), vec![6, 11]);
    assert_eq!(graph.edges_from(8), vec![9]);
    assert_eq!(graph.edges_from(7), vec![3]);
    assert_eq!(graph.edges_from(10), vec![4]);
    assert_eq!(graph.edges_from(12), vec![4]);
    assert_eq!(graph.edges_to(4), vec![1, 2, 10, 12]);
}

#[test]
fn faulty_sites_are_rejected() {
    let mut pool = GlobalStringsCtx::hold();
    let device = pass_through();
    assert!(matches!(
        BruteRouter::try_new(&device, 1, false, &mut pool),
        Err(SiteError::UnknownSiteType(1))
    ));

    let mut b = Builder::new("S");
    b.bel("A", BELCategory::LogicOrRouting, &[("o", PinDir::Output)]);
    b.bel("A", BELCategory::LogicOrRouting, &[("p", PinDir::Output)]);
    let device = b.device();
    assert!(matches!(
        BruteRouter::try_new(&device, 0, false, &mut pool),
        Err(SiteError::DuplicateBel(0, 1))
    ));

    let mut b = Builder::new("S");
    b.bel("A", BELCategory::LogicOrRouting, &[("o", PinDir::Output)]);
    b.site.bels[0].pins.push(7);
    let device = b.device();
    assert!(matches!(
        BruteRouter::try_new(&device, 0, false, &mut pool),
        Err(SiteError::PinOutOfRange(7))
    ));

    let mut b = Builder::new("S");
    let a = b.bel("A", BELCategory::LogicOrRouting, &[("o", PinDir::Output)]);
    b.wire("w", &[a[0], 9]);
    let device = b.device();
    assert!(matches!(
        BruteRouter::try_new(&device, 0, false, &mut pool),
        Err(SiteError::PinOutOfRange(9))
    ));

    let mut b = Builder::new("S");
    let a = b.bel("A", BELCategory::LogicOrRouting, &[("o", PinDir::Output)]);
    let ghost = b.string("GHOST");
    let pin = b.string("x");
    b.site.bel_pins.push(SiteBelPin { name: pin, bel: ghost, dir: PinDir::Input });
    b.wire("w", &[a[0], 1]);
    let device = b.device();
    assert!(matches!(
        BruteRouter::try_new(&device, 0, false, &mut pool),
        Err(SiteError::UnknownBel(_))
    ));

    let mut b = Builder::new("S");
    let a = b.bel("A", BELCategory::LogicOrRouting, &[("o", PinDir::Output)]);
    let a_name = b.string("A");
    let pin = b.string("x");
    b.site.bel_pins.push(SiteBelPin { name: pin, bel: a_name, dir: PinDir::Input });
    b.wire("w", &[a[0], 1]);
    let device = b.device();
    assert!(matches!(
        BruteRouter::try_new(&device, 0, false, &mut pool),
        Err(SiteError::UnknownPin(_, _))
    ));

    let mut b = Builder::new("S");
    let a = b.bel("A", BELCategory::LogicOrRouting, &[("o", PinDir::Output)]);
    let c = b.bel("C", BELCategory::LogicOrRouting, &[("i", PinDir::Input)]);
    b.pip(c[0], a[0]);
    let device = b.device();
    assert!(matches!(
        BruteRouter::try_new(&device, 0, false, &mut pool),
        Err(SiteError::PipAcrossBels(1, 0))
    ));

    let mut b = Builder::new("S");
    let p = b.bel("P", BELCategory::SitePort, &[("i", PinDir::Input), ("o", PinDir::Output)]);
    b.pip(p[0], p[1]);
    let device = b.device();
    assert!(matches!(
        BruteRouter::try_new(&device, 0, false, &mut pool),
        Err(SiteError::PipOnSitePort(0))
    ));

    let mut b = Builder::new("S");
    b.bel("G", BELCategory::LogicOrRouting, &[("o", PinDir::Output)]);
    b.source("G", "o", ConstantType::Vcc);
    let device = b.device();
    assert!(matches!(
        BruteRouter::try_new(&device, 0, true, &mut pool),
        Err(SiteError::SourceOffWire(_, _))
    ));
    assert!(BruteRouter::try_new(&device, 0, false, &mut pool).is_ok());

    let mut b = Builder::new("S");
    let g = b.bel("G", BELCategory::LogicOrRouting, &[("o", PinDir::Output)]);
    b.wire("w", &[g[0]]);
    b.source("G", "o", ConstantType::NoPreference);
    let device = b.device();
    assert!(matches!(
        BruteRouter::try_new(&device, 0, true, &mut pool),
        Err(SiteError::UnsupportedConstant)
    ));

    let mut b = Builder::new("S");
    let g = b.bel("G", BELCategory::LogicOrRouting, &[("o", PinDir::Output), ("p", PinDir::Output)]);
    b.wire("w", &[g[0]]);
    b.wire("v", &[g[1]]);
    b.source("G", "o", ConstantType::Vcc);
    b.source("G", "p", ConstantType::Vcc);
    let device = b.device();
    assert!(matches!(
        BruteRouter::try_new(&device, 0, true, &mut pool),
        Err(SiteError::DuplicateBel(2, 3))
    ));
}

#[test]
fn a_bel_without_pins_lacks_the_pin() {
    let mut b = Builder::new("S");
    let a = b.bel("A", BELCategory::LogicOrRouting, &[("o", PinDir::Output)]);
    b.bel("E", BELCategory::LogicOrRouting, &[]);
    b.wire("w", &[a[0]]);
    let device = b.device();
    let mut pool = GlobalStringsCtx::hold();
    let router = BruteRouter::try_new(&device, 0, false, &mut pool).unwrap();
    assert!(router.has_bel_named(&device, &pool, "E"));
    assert!(!router.has_bel_named(&device, &pool, "F"));
    assert_eq!(router.get_pin_id(&device, &pool, "A", "o"), Ok(SitePinId(0)));
    assert_eq!(
        router.get_pin_id(&device, &pool, "E", "o"),
        Err("Pin S/E.o not found".to_string())
    );
    assert_eq!(
        router.get_pin_id(&device, &pool, "F", "o"),
        Err("BEL S/F not found".to_string())
    );
}

#[test]
fn pins_are_found_by_name() {
    let device = with_pip();
    let mut pool = GlobalStringsCtx::hold();
    let router = BruteRouter::try_new(&device, 0, false, &mut pool).unwrap();
    assert_eq!(router.get_pin_id(&device, &pool, "A", "o"), Ok(SitePinId(0)));
    assert_eq!(router.get_pin_id(&device, &pool, "R", "out"), Ok(SitePinId(2)));
    assert_eq!(router.get_pin_id(&device, &pool, "P", "P"), Ok(SitePinId(3)));
    assert_eq!(
        router.get_pin_id(&device, &pool, "R", "x"),
        Err("Pin S/R.x not found".to_string())
    );
    assert_eq!(
        router.get_pin_id(&device, &pool, "Q", "out"),
        Err("BEL S/Q not found".to_string())
    );
    assert_eq!(router.bel_pin_of(SitePinId(2)), (1, 1));
    let name = router.get_pin_name(&device, &pool, SitePinId(2));
    assert_eq!(name.bel, "R");
    assert_eq!(name.pin, "out");
    assert_eq!(name.to_string(), "R.out");
    assert_eq!(SitePinName::new("X", "y").to_string(), "X.y");
}

fn diamond() -> Device {
    let mut b = Builder::new("S");
    let s = b.bel("IN", BELCategory::SitePort, &[("IN", PinDir::Output)]);
    let x = b.bel("X", BELCategory::LogicOrRouting, &[("i", PinDir::Input), ("o", PinDir::Output)]);
    let y = b.bel("Y", BELCategory::LogicOrRouting, &[("i", PinDir::Input), ("o", PinDir::Output)]);
    let t = b.bel("T", BELCategory::LogicOrRouting, &[("i", PinDir::Input), ("io", PinDir::Inout)]);
    let o = b.bel("OUT", BELCategory::SitePort, &[("OUT", PinDir::Input)]);
    b.wire("a", &[s[0], x[0], y[0]]);
    b.wire("b", &[x[1], y[1], t[0]]);
    b.wire("c", &[t[1], o[0], t[1]]);
    b.pip(x[0], x[1]);
    b.pip(y[0], y[1]);
    b.pip(t[0], t[1]);
    b.device()
}

#[test]
fn alternatives_become_cubes() {
    let device = diamond();
    let mut pool = GlobalStringsCtx::hold();
    let router = BruteRouter::try_new(&device, 0, false, &mut pool).unwrap();
    let graph = router.routing_graph();
    assert_eq!(graph.node_count(), 8);
    assert!(!*graph.get_edge(6, 6));
    assert_eq!(graph.edges_from(6), vec![7]);
    assert_eq!(graph.edges_to(5), vec![2, 4]);
    let routes = router.route_pins(SitePinId(0), false, STEPS);
    assert!(routes.finished);
    assert_eq!(routes.routes.len(), 8);
    assert_eq!(routes.routes[0].requires, vec![cube(vec![])]);
    assert_eq!(
        routes.routes[5].requires,
        vec![cube(vec![NegVar(port(4))]), cube(vec![NegVar(port(2))])]
    );
    assert_eq!(
        routes.routes[5].implies,
        vec![
            cube(vec![Var(port(0)), Var(port(1)), Var(port(2))]),
            cube(vec![Var(port(0)), Var(port(3)), Var(port(4))])
        ]
    );
    assert_eq!(
        routes.routes[7].requires,
        vec![cube(vec![NegVar(port(4))]), cube(vec![NegVar(port(2))])]
    );
    for t in 0..8 {
        assert!(!routes.routes[t].requires.is_empty());
    }
    let info = router.route_all(true, STEPS);
    assert!(info.finished);
    assert_eq!(info.out_of_site_sources[7], vec![SitePinId(0)]);
    assert_eq!(info.out_of_site_sinks[0], vec![SitePinId(7)]);
    assert!(info.get(SitePinId(1), SitePinId(2)).is_none());
    assert!(info.get(SitePinId(0), SitePinId(0)).is_none());
    let short = router.route_pins(SitePinId(0), false, 2);
    assert!(!short.finished);
    assert!(short.routes[7].requires.is_empty());
}

#[test]
fn slices_give_the_same_routes() {
    for device in [pass_through(), mux(), with_pip(), with_constant(), diamond()] {
        for consts in [false, true] {
            let mut pool = GlobalStringsCtx::hold();
            let router = BruteRouter::try_new(&device, 0, consts, &mut pool).unwrap();
            for optimize in [false, true] {
                let whole = router.route_all(optimize, STEPS);
                for slices in [1, 2, 3, 4, 8, 100] {
                    let parts = router.route_all_in_slices(slices, optimize, STEPS);
                    assert!(same_info(&whole, &parts));
                }
                let n = router.pin_count();
                let mut entries = Vec::new();
                for (start, end) in split_range_nicely(0, n, 4) {
                    let part = router.route_range(SitePinId(start), SitePinId(end), optimize, STEPS);
                    assert!(part.finished);
                    entries.extend(part.entries);
                }
                assert_eq!(entries.len(), whole.pin_to_pin_routing.len());
                assert!(router.route_range(SitePinId(2), SitePinId(1), optimize, STEPS).entries.is_empty());
            }
        }
    }
}

#[test]
fn router_steps() {
    let device = mux();
    let mut pool = GlobalStringsCtx::hold();
    let router = BruteRouter::try_new(&device, 0, false, &mut pool).unwrap();
    let graph = router.routing_graph();
    let mut ptp = PortToPortRouter::<Vec<usize>>::new(graph, SitePinId(1), true);
    ptp.start(Vec::new());
    assert!(ptp.is_constr_subformular(None, SitePinId(3)));
    assert!(!ptp.is_constr_subformular(Some(SitePinId(1)), SitePinId(3)));
    assert!(ptp.is_activators_subformular(Some(SitePinId(3)), SitePinId(1)));
    assert_eq!(
        ptp.scan_constraint_requirements(SitePinId(3), Some(SitePinId(1))),
        vec![NegVar(port(0)), NegVar(port(2))]
    );
    assert_eq!(ptp.scan_constraint_requirements(SitePinId(3), None), vec![]);
    assert_eq!(
        ptp.scan_constraint_activators(SitePinId(3), Some(SitePinId(1))),
        vec![Var(port(1))]
    );
    assert_eq!(ptp.scan_constraint_activators(SitePinId(1), Some(SitePinId(3))), vec![]);
    let mut visited = Vec::new();
    while let Some(frame) = ptp.next_frame() {
        let mut path = frame.accumulator.clone();
        path.push(frame.node.0);
        visited.push((frame.prev_node, frame.node, path.clone()));
        ptp.expand(frame.prev_node, frame.node, path);
    }
    assert_eq!(
        visited,
        vec![(None, SitePinId(1), vec![1]), (Some(SitePinId(1)), SitePinId(3), vec![1, 3])]
    );
    let mut ptp = PortToPortRouter::<()>::new(graph, SitePinId(1), true);
    ptp.start(());
    assert_eq!(ptp.routing_step(), Some(SitePinId(1)));
    assert_eq!(ptp.routing_step(), Some(SitePinId(3)));
    assert_eq!(ptp.routing_step(), None);
    let run = PortToPortRouter::<()>::new(graph, SitePinId(1), true).route_all((), STEPS);
    assert!(run.finished);
    assert_eq!(run.steps, 2);
    assert_eq!(run.markers.len(), 4);
    assert_eq!(run.markers[3].constraints.cubes, vec![cube(vec![NegVar(port(0)), NegVar(port(2))])]);
    assert_eq!(run.markers[0].constraints.num_cubes(), 0);
}

#[test]
fn a_run_on_a_graph_with_cycles_is_ended_by_the_budget() {
    // The source drives the four nodes of a ring.
    let edges: [(usize, usize); 8] =
        [(0, 1), (0, 2), (0, 3), (0, 4), (1, 3), (2, 4), (3, 2), (4, 1)];
    let mut graph = RoutingGraph::new(5);
    for (from, to) in edges {
        assert!(graph.connect(from, to));
    }
    for budget in [100usize, 1000, 3000] {
        let run = PortToPortRouter::<()>::new(&graph, SitePinId(0), false).route_all((), budget);
        assert!(!run.finished);
        assert_eq!(run.steps, budget);
        for node in 0..5 {
            assert!(run.markers[node].constraints.num_cubes() > 0);
        }
    }
}

#[test]
fn a_run_on_a_graph_without_cycles_ends_within_the_weight_of_the_source() {
    let mut graph = RoutingGraph::new(4);
    for (from, to) in [(0usize, 1usize), (0, 2), (1, 3), (2, 3)] {
        assert!(graph.connect(from, to));
    }
    // The weights 5, 2, 2 and 1 fall along the edges.
    let run = PortToPortRouter::<()>::new(&graph, SitePinId(0), false).route_all((), 5);
    assert!(run.finished);
    assert_eq!(run.steps, 5);
    assert_eq!(
        run.markers[3].constraints.cubes,
        vec![cube(vec![NegVar(port(2))]), cube(vec![NegVar(port(1))])]
    );
    let run = PortToPortRouter::<()>::new(&graph, SitePinId(0), false).route_all((), 4);
    assert!(!run.finished);
    assert_eq!(run.steps, 4);
}

#[test]
fn a_single_edge_is_routed_in_two_steps() {
    let mut graph = RoutingGraph::new(4);
    for from in [0usize, 1, 2] {
        assert!(graph.connect(from, 3));
    }
    for optimize in [false, true] {
        let run = PortToPortRouter::<()>::new(&graph, SitePinId(1), optimize).route_all((), 2);
        assert!(run.finished);
        assert_eq!(run.steps, 2);
        assert_eq!(
            run.markers[3].constraints.cubes,
            vec![cube(vec![NegVar(port(0)), NegVar(port(2))])]
        );
        assert_eq!(run.markers[3].activated.cubes, vec![cube(vec![Var(port(1))])]);
        let run = PortToPortRouter::<()>::new(&graph, SitePinId(1), optimize).route_all((), 1);
        assert!(!run.finished);
        assert_eq!(run.markers[3].constraints.num_cubes(), 0);
    }
}

#[test]
fn cubes_are_sorted_by_length() {
    let mut info = PinPairRoutingInfo {
        requires: vec![
            cube(vec![NegVar(port(1)), NegVar(port(2))]),
            cube(vec![NegVar(port(9))]),
            cube(vec![NegVar(port(3)), NegVar(port(4))]),
            cube(vec![]),
            cube(vec![NegVar(port(5))]),
        ],
        implies: vec![cube(vec![Var(port(1)), Var(port(2))]), cube(vec![Var(port(3))])],
    };
    info.default_sort();
    assert_eq!(
        info.requires,
        vec![
            cube(vec![]),
            cube(vec![NegVar(port(9))]),
            cube(vec![NegVar(port(5))]),
            cube(vec![NegVar(port(1)), NegVar(port(2))]),
            cube(vec![NegVar(port(3)), NegVar(port(4))]),
        ]
    );
    assert_eq!(info.implies, vec![cube(vec![Var(port(3))]), cube(vec![Var(port(1)), Var(port(2))])]);
    assert!(!info.is_empty());
}

#[test]
fn graph_edges() {
    let mut graph = RoutingGraph::new(3);
    assert_eq!(graph.node_count(), 3);
    assert_eq!(graph.edge_count(), 9);
    assert_eq!(
        *graph.get_node(2),
        RoutingGraphNode { kind: RoutingGraphNodeKind::FreePort, dir: PinDir::Inout }
    );
    assert_eq!(*graph.get_node(2), RoutingGraphNode::default());
    assert!(!*graph.get_edge(0, 1));
    assert!(graph.connect(0, 1));
    assert!(!graph.connect(0, 1));
    assert!(graph.connect(2, 1));
    assert!(graph.connect(2, 2));
    assert!(*graph.get_edge(0, 1));
    assert!(!*graph.get_edge(1, 0));
    assert_eq!(graph.edges_from(2), vec![1, 2]);
    assert_eq!(graph.edges_to(1), vec![0, 2]);
    assert_eq!(graph.edges_to(0), Vec::<usize>::new());
    graph.set_node(1, RoutingGraphNode { kind: RoutingGraphNodeKind::BelPort(4), dir: PinDir::Input });
    assert_eq!(graph.get_node(1).kind, RoutingGraphNodeKind::BelPort(4));
    assert!(*graph.get_edge(0, 1));
    assert_eq!(RoutingGraph::new(0).edge_count(), 0);
}

#[test]
fn ranges_are_split_evenly() {
    assert_eq!(split_range_nicely(0, 10, 3), vec![(0, 4), (4, 7), (7, 10)]);
    assert_eq!(split_range_nicely(0, 10, 1), vec![(0, 10)]);
    assert_eq!(split_range_nicely(0, 3, 8), vec![(0, 1), (1, 2), (2, 3)]);
    assert_eq!(split_range_nicely(0, 0, 4), vec![]);
    assert_eq!(split_range_nicely(0, 8, 4), vec![(0, 2), (2, 4), (4, 6), (6, 8)]);
    assert_eq!(split_range_nicely(5, 12, 2), vec![(5, 9), (9, 12)]);
}

#[test]
fn strings_are_interned_once() {
    let mut pool = GlobalStringsCtx::hold();
    assert_eq!(pool.len(), 0);
    let a = pool.create_global_string("$VCC");
    let b = pool.create_global_string("$GND");
    let c = pool.create_global_string("$VCC");
    assert_eq!(a, c);
    assert_ne!(a, b);
    assert_eq!(pool.len(), 2);
    assert_eq!(pool.get_global_string(a).as_str(), "$VCC");
    assert_eq!(pool.get_global_string(b).as_str(), "$GND");
    assert_eq!(pool.find_global_string("$GND"), Some(b));
    assert_eq!(pool.find_global_string("$"), None);
    let device = pass_through();
    assert_eq!(ResourceName::Virtual(b).get(&device, &pool).as_str(), "$GND");
    assert_eq!(ResourceName::DeviceResources(1).get(&device, &pool).as_str(), "A");
}

fn named(name: &str) -> StringConstrainingElement {
    StringConstrainingElement::Port(name.to_string())
}

#[test]
fn routing_is_named() {
    let device = with_pip();
    let mut pool = GlobalStringsCtx::hold();
    let router = BruteRouter::try_new(&device, 0, false, &mut pool).unwrap();
    assert!(router.has_names_in(&device, &pool));
    let info = router.route_all(true, STEPS);
    assert!(fits_router(&info, &router));
    let with_names = with_extras(&info, &router, &device, &pool);
    let keys: Vec<&str> = with_names.pin_to_pin_routing.iter().map(|(k, _)| k.as_str()).collect();
    assert_eq!(
        keys,
        vec!["A.o->R.in", "A.o->R.out", "A.o->P.P", "R.out->P.P"]
    );
    let through = &with_names.pin_to_pin_routing[2].1;
    assert_eq!(through.requires, vec![Vec::<NamedTerm>::new()]);
    assert_eq!(
        through.implies,
        vec![vec![
            NamedTerm::Var(named("A.o")),
            NamedTerm::Var(named("R.in")),
            NamedTerm::Var(named("R.out"))
        ]]
    );
    assert!(with_names.out_of_site_sources.is_empty());
    let sinks: Vec<(&str, Vec<&str>)> = with_names
        .out_of_site_sinks
        .iter()
        .map(|l| (l.pin.as_str(), l.vec.iter().map(|s| s.as_str()).collect()))
        .collect();
    assert_eq!(sinks, vec![("A.o", vec!["P.P"]), ("R.out", vec!["P.P"])]);
    assert_eq!(pair_key("A.o", "B.i"), "A.o->B.i");

    let form = vec![cube(vec![NegVar(port(1)), FormulaTerm::True]), cube(vec![FormulaTerm::False])];
    assert_eq!(
        dnf_to_serializable(&router, &device, &pool, &form),
        vec![vec![NamedTerm::NegVar(named("R.in")), NamedTerm::True], vec![NamedTerm::False]]
    );

    let mut strange = router.route_all(true, STEPS);
    strange.pin_to_pin_routing[0].info.requires.push(cube(vec![NegVar(port(4))]));
    assert!(!fits_router(&strange, &router));
    let mut strange = router.route_all(true, STEPS);
    strange.out_of_site_sinks[0].push(SitePinId(4));
    assert!(!fits_router(&strange, &router));

    let mut short = pass_through();
    short.str_list.truncate(2);
    let other = BruteRouter::try_new(&short, 0, false, &mut pool).unwrap();
    assert!(!other.has_names_in(&short, &pool));
}

#[test]
fn exports_are_selected() {
    let none = ExportChecker::new(&None);
    assert!(!none.should_export("A"));
    let some = ExportChecker::new(&Some(vec!["A".to_string(), "B".to_string()]));
    assert!(some.should_export("A"));
    assert!(some.should_export("B"));
    assert!(!some.should_export("C"));
    assert!(!some.should_export(":all"));
    let all = ExportChecker::new(&Some(vec!["A".to_string(), ":all".to_string()]));
    assert!(all.should_export("C"));
    assert!(all.should_export(":all"));

    let files = MultiFileExporter::new(
        &Some(vec!["SLICE".to_string()]),
        "out".to_string(),
        ".dot".to_string(),
    );
    assert_eq!(files.prefix(), "out");
    assert_eq!(files.file_name("SLICE"), Some("SLICE.dot".to_string()));
    assert_eq!(files.file_name("IOB"), None);
}

#[test]
fn duplicates_are_found() {
    let device = mux();
    let mut pool = GlobalStringsCtx::hold();
    let mut bels = gather_bels_in_site_type(&device, &device.site_type_list[0], false, &mut pool).unwrap();
    assert_eq!(find_duplicate(&bels), None);
    assert_eq!(bels[1].find_pin(bels[1].pins[0].name), Some(0));
    assert_eq!(bels[1].find_pin(ResourceName::DeviceResources(999)), None);
    bels[3].name = bels[1].name;
    assert_eq!(find_duplicate(&bels), Some((1, 3)));
}

#[test]
fn constant_sources_with_faults() {
    let mut b = Builder::new("S");
    let g = b.bel("G", BELCategory::LogicOrRouting, &[("o", PinDir::Output)]);
    b.wire("w", &[g[0]]);
    b.source("G", "o", ConstantType::Vcc);
    let mut device = b.device();
    device.site_sources[0].bel = 77;
    device.site_type_list[0].bel_pins[0].bel = 77;
    let mut pool = GlobalStringsCtx::hold();
    assert!(matches!(
        gather_bels_in_site_type(&device, &device.site_type_list[0], true, &mut pool),
        Err(SiteError::StringOutOfRange(77))
    ));

    let device = with_constant();
    let mut pool = GlobalStringsCtx::hold();
    let st = &device.site_type_list[0];
    let bels = gather_bels_in_site_type(&device, st, false, &mut pool).unwrap();
    let (bases, table) = number_pins(&bels).unwrap();
    assert_eq!(bases, vec![0, 1, 2]);
    assert_eq!(table, vec![(0, 0), (1, 0), (2, 0)]);
    assert!(matches!(
        create_routing_graph(&device, st, &bels, &bases, &pool, true),
        Err(SiteError::MissingVirtualBel)
    ));
    let graph = create_routing_graph(&device, st, &bels, &bases, &pool, false).unwrap();
    assert_eq!(graph.edges_from(0), vec![1, 2]);
    assert_eq!(resolve_pin(st, &bels, &bases, 2), Ok((2, 0, 2)));
    assert_eq!(resolve_pin(st, &bels, &bases, 3), Err(SiteError::PinOutOfRange(3)));
}

#[test]
fn wires_are_looked_up_by_pin_names() {
    let mut b = Builder::new("S");
    let a = b.bel("A", BELCategory::LogicOrRouting, &[("o", PinDir::Output), ("p", PinDir::Output)]);
    let c = b.bel("C", BELCategory::LogicOrRouting, &[("i", PinDir::Input)]);
    b.wire("first", &[a[0], c[0]]);
    b.wire("second", &[a[1]]);
    b.wire("third", &[a[0]]);
    let device = b.device();
    let st = &device.site_type_list[0];
    let table = create_belname_pinname_to_wire_lookup(st).unwrap();
    assert_eq!(table.len(), 4);
    let name = |s: &str| device.str_list.iter().position(|x| x == s).unwrap() as u32;
    assert_eq!(lookup_wire(st, &table, name("A"), name("o")), Some(2));
    assert_eq!(lookup_wire(st, &table, name("A"), name("p")), Some(1));
    assert_eq!(lookup_wire(st, &table, name("C"), name("i")), Some(0));
    assert_eq!(lookup_wire(st, &table, name("C"), name("o")), None);
    assert_eq!(device.ic_str(name("second")), "second");
}

#[test]
fn virtual_bels_are_made() {
    let mut pool = GlobalStringsCtx::hold();
    let port = create_input_port_bel("$GND", &mut pool);
    assert_eq!(port.category, BELCategory::SitePort);
    assert_eq!(port.pins.len(), 1);
    assert_eq!(port.pins[0].name, port.name);
    assert_eq!(port.pins[0].dir, PinDir::Output);
    assert_eq!(pool.find_global_string("$GND").map(ResourceName::Virtual), Some(port.name));
    let name = create_vconst_net_pipbel_name("LUT", "$GND", &mut pool);
    assert_eq!(pool.find_global_string("LUT_$GND_SITE_WIRE").map(ResourceName::Virtual), Some(name));
    let pip = create_pip_bel(name, ResourceName::DeviceResources(4), ResourceName::DeviceResources(9));
    assert_eq!(pip.name, name);
    assert_eq!(pip.category, BELCategory::LogicOrRouting);
    assert_eq!(pip.pins.len(), 2);
    assert_eq!(pip.pins[0].name, ResourceName::DeviceResources(4));
    assert_eq!(pip.pins[0].dir, PinDir::Input);
    assert_eq!(pip.pins[1].name, ResourceName::DeviceResources(9));
    assert_eq!(pip.pins[1].dir, PinDir::Output);
    assert_eq!(pip.find_pin(ResourceName::DeviceResources(9)), Some(1));
}

#[test]
fn directions_of_pins() {
    assert!(PinDir::Output.is_driver());
    assert!(PinDir::Inout.is_driver());
    assert!(!PinDir::Input.is_driver());
    assert!(PinDir::Input.is_sink());
    assert!(PinDir::Inout.is_sink());
    assert!(!PinDir::Output.is_sink());
}

#[test]
fn markers_become_routing_info() {
    let marker = PTPRMarker {
        constraints: DNFForm::new()
            .add_cube(cube(vec![NegVar(port(1)), NegVar(port(2))]))
            .add_cube(cube(vec![NegVar(port(3))])),
        activated: DNFForm::new().add_cube(cube(vec![Var(port(0))])),
    };
    let info = PinPairRoutingInfo::from_marker(marker);
    assert_eq!(
        info.requires,
        vec![cube(vec![NegVar(port(3))]), cube(vec![NegVar(port(1)), NegVar(port(2))])]
    );
    assert_eq!(info.implies, vec![cube(vec![Var(port(0))])]);
    let empty = PinPairRoutingInfo { requires: vec![], implies: vec![] };
    assert!(empty.is_empty());
}

struct Recorder {
    routes: Vec<Vec<usize>>,
    target: usize,
    required: Vec<Vec<DNFCube<ConstrainingElement>>>,
    activated: usize,
}

impl RouteObserver<Vec<usize>> for Recorder {
    fn frame(&mut self, frame: &PortToPortRouterFrame<Vec<usize>>) -> Vec<usize> {
        let mut path = frame.accumulator.clone();
        path.push(frame.node.0);
        if frame.node.0 == self.target {
            self.routes.push(path.clone());
        }
        path
    }

    fn wants_formulas(&self) -> bool {
        true
    }

    fn requirements(&mut self, formula: PortFormula) {
        self.required.push(formula.cubes);
    }

    fn activators(&mut self, _formula: PortFormula) {
        self.activated += 1;
    }
}

#[test]
fn callbacks_watch_the_routes() {
    let device = diamond();
    let mut pool = GlobalStringsCtx::hold();
    let router = BruteRouter::try_new(&device, 0, false, &mut pool).unwrap();
    let mut recorder = Recorder { routes: Vec::new(), target: 5, required: Vec::new(), activated: 0 };
    let watched = router.with_callback(SitePinId(0), false, STEPS, Vec::new(), &mut recorder);
    let plain = router.route_pins(SitePinId(0), false, STEPS);
    assert!(watched.finished);
    assert_eq!(watched.routes.len(), plain.routes.len());
    for (a, b) in watched.routes.iter().zip(plain.routes.iter()) {
        assert_eq!(a.requires, b.requires);
        assert_eq!(a.implies, b.implies);
    }
    assert_eq!(recorder.routes, vec![vec![0, 1, 2, 5], vec![0, 3, 4, 5]]);
    assert_eq!(recorder.required[0], vec![cube(vec![])]);
    assert_eq!(recorder.activated, recorder.required.len());
    assert!(recorder.required.contains(&vec![cube(vec![NegVar(port(4))])]));
}
