//! Which nets are estimated, their trees, their networks and the SPEF.

use vyges_est::corner::{draw, is_drawable, write_corner};
use vyges_est::cuts::{compute_average_cut_resistance, get_pin_layer};
use vyges_est::db::{
    BTerm, Db, ITerm, ITermClockFacts, Layer, LayerRule, Net, NonDefaultRule, Port,
};
use vyges_est::network::{HalfWire, NetCtx, Node, Parasitic, Resistance, Resistor};
use vyges_est::number::{read_sci, Decimal};
use vyges_est::placement::{
    connected_pins, connected_pins_by_id, estimate_wire_parasitics, first_driver_term, is_pad_net,
    make_steiner_tree, needs_search, pin_key, trace, Branch, Decision, LibertyCell, LibertyClocks, NetEstimate,
    PinLoc, SteinerTree, SttTree, Timing,
};
use vyges_est::rc::Rc;
use vyges_est::session::Session;
use vyges_est::spef::{
    abbrev, escape_special, fix_pin_delimiter, header, io_text, write_net, NetValues, SiPrefix,
    SpefUnits,
};
use vyges_est::steiner::{
    is_sound, make_pad_parasitic, make_steiner_parasitic, ndr_ratio, parasitic_node_connect_pins,
};
use vyges_est::value::{Amount, Double, Quantity};

fn d(v: f64) -> Double {
    Double { bits: v.to_bits() }
}

fn facts(port: bool) -> ITermClockFacts {
    ITermClockFacts { has_liberty_port: port, is_reg_clk: false, cell_is_pad: false }
}

fn iterm(name: &str, id: u32, x: i32, y: i32, io: &str) -> ITerm {
    ITerm {
        name: name.to_string(),
        id: Ok(id),
        avg_xy: Some((x, y)),
        origin_x: 7,
        origin_y: 8,
        placed: true,
        master: "BUF".to_string(),
        master_type: Ok("CORE".to_string()),
        sig_type: "SIGNAL".to_string(),
        io_type: io.to_string(),
        clocked: false,
        layers: vec![4, 2],
        clock: facts(true),
    }
}

fn bterm(name: &str, id: u32, x: i32, y: i32, io: &str) -> BTerm {
    BTerm {
        name: name.to_string(),
        id: Ok(id),
        first_pin: Some((x, y)),
        status: "PLACED".to_string(),
        sig_type: "SIGNAL".to_string(),
        io_type: io.to_string(),
        layers: Ok(vec![6, 2]),
    }
}

fn net(iterms: Vec<ITerm>, bterms: Vec<BTerm>) -> Net {
    Net {
        name: "n".to_string(),
        sig_type: "SIGNAL".to_string(),
        special: false,
        rule: String::new(),
        iterms,
        bterms,
    }
}

fn two_pins() -> Net {
    net(
        vec![iterm("u2/A", 5, 0, 10, "INPUT"), iterm("u1/Z", 3, 0, 0, "OUTPUT")],
        vec![bterm("out", 1, 20, 10, "OUTPUT")],
    )
}

fn layer(name: &str, number: i32, level: i32, kind: &str) -> Layer {
    let zero = Quantity::exactly(Double::zero());
    Layer {
        name: name.to_string(),
        number,
        routing_level: level,
        kind: Ok(kind.to_string()),
        width: 50,
        wire_res: zero,
        wire_cap: zero,
    }
}

fn design(nets: Vec<Net>) -> Db {
    Db {
        block_name: "to$p".to_string(),
        tech_name: "tech".to_string(),
        ports: vec![
            Port { name: "in$".to_string(), io_type: "INPUT".to_string() },
            Port { name: "out".to_string(), io_type: "OUTPUT".to_string() },
            Port { name: "x".to_string(), io_type: "INOUT".to_string() },
        ],
        nets,
        layers: vec![
            layer("m1", 2, 1, "ROUTING"),
            layer("v1", 3, 0, "CUT"),
            layer("m2", 4, 2, "ROUTING"),
            layer("v2", 5, 0, "CUT"),
            layer("m3", 6, 3, "ROUTING"),
        ],
        unnamed_kind: Err("no layer".to_string()),
        directions: Ok(vec![]),
        rules: vec![
            NonDefaultRule {
                name: "wide".to_string(),
                layers: Ok(vec![LayerRule { layer: "m2".to_string(), width: 100 }]),
            },
            NonDefaultRule { name: "empty".to_string(), layers: Ok(vec![]) },
            NonDefaultRule { name: "bad".to_string(), layers: Err("bad rule".to_string()) },
        ],
        min_routing_layer: 1,
        max_routing_layer: 3,
        routing_layer_count: 3,
        first_frontside_layer: "m1".to_string(),
    }
}

fn star(x: &Vec<i32>, y: &Vec<i32>, drvr: usize) -> SttTree {
    let branch = (0..x.len()).map(|i| Branch { x: x[i], y: y[i], n: drvr }).collect();
    SttTree { deg: x.len(), branch }
}

fn clock_type(clock: bool, facts: &Vec<ITermClockFacts>) -> bool {
    clock && facts.iter().all(|f| !f.is_reg_clk)
}

fn timing<'a>(lib: Option<&'a LibertyClocks>) -> Timing<'a> {
    Timing { liberty: lib, clock_sources: vec![], propagated: false }
}

fn decide(n: Net) -> Result<NetEstimate, String> {
    let mut v =
        estimate_wire_parasitics(&design(vec![n]), &timing(None), &Ok(vec![]), &star, &clock_type)?;
    assert_eq!(v.len(), 1);
    Ok(v.remove(0))
}

fn names(v: &[PinLoc]) -> Vec<&str> {
    v.iter().map(|p| p.name.as_str()).collect()
}

fn pin(name: &str, is_port: bool, x: i32, y: i32) -> PinLoc {
    PinLoc { name: name.to_string(), is_port, x, y, placed: true }
}

fn wire_state(layers: bool) -> Rc {
    let mut rc = Rc::new();
    let q = |v: f64| Quantity::exactly(d(v));
    let args: Vec<String> = ["-resistance", "2", "-capacitance", "3"].map(String::from).to_vec();
    let amount = |v: f64| {
        Some(Amount { ohm: q(v), ohm_per_metre: q(v), farad_per_metre: q(v) })
    };
    let amounts = vec![None, amount(2.0), None, amount(3.0)];
    rc.set_wire_rc(&design(vec![]), &args, &amounts, |_: &Vec<Double>| q(0.0)).unwrap();
    if layers {
        let args: Vec<String> = ["-layer", "m3"].map(String::from).to_vec();
        rc.set_wire_rc(&design(vec![]), &args, &vec![None, None], |_: &Vec<Double>| q(0.0))
            .unwrap();
        rc.set_layer_rc_table(3, None, d(5.0), d(0.0));
        rc.set_layer_rc_table(5, None, d(7.0), d(0.0));
    }
    rc
}

fn resistors(g: &Parasitic) -> Vec<(Node, Node)> {
    g.resistors.iter().map(|r| (r.from, r.to)).collect()
}

#[test]
fn pins_are_numbered_by_id() {
    let n = two_pins();
    assert_eq!(pin_key(&n, &pin("u1/Z", false, 0, 0)), Ok(6));
    assert_eq!(pin_key(&n, &pin("out", true, 0, 0)), Ok(3));
    assert_eq!(
        pin_key(&n, &pin("u9/Z", false, 0, 0)),
        Err("pin u9/Z is not of the net".to_string())
    );
    assert_eq!(names(&connected_pins(&n)), ["u2/A", "u1/Z", "out"]);
    assert_eq!(names(&connected_pins_by_id(&n).unwrap()), ["out", "u1/Z", "u2/A"]);
    let mut bad = two_pins();
    bad.iterms[1].id = Err("no id".to_string());
    assert_eq!(connected_pins_by_id(&bad), Err("no id".to_string()));
}

#[test]
fn pins_are_where_their_geometry_is() {
    let mut n = two_pins();
    n.iterms[0].avg_xy = None;
    n.bterms[0].first_pin = None;
    n.bterms[0].status = "NONE".to_string();
    let pins = connected_pins(&n);
    assert_eq!((pins[0].x, pins[0].y, pins[0].placed), (7, 8, true));
    assert_eq!((pins[2].x, pins[2].y, pins[2].placed), (0, 0, false));
    for status in ["FIRM", "LOCKED", "COVER"] {
        n.bterms[0].status = status.to_string();
        assert!(connected_pins(&n)[2].placed);
    }
}

#[test]
fn the_first_driver_drives() {
    let name = |n: &Net| first_driver_term(n).map(|p| p.name);
    let mut n = two_pins();
    assert_eq!(name(&n), Some("u1/Z".to_string()));
    n.iterms[1].clocked = true;
    assert_eq!(name(&n), None);
    n.bterms[0].io_type = "INPUT".to_string();
    assert_eq!(name(&n), Some("out".to_string()));
    n.bterms[0].sig_type = "GROUND".to_string();
    assert_eq!(name(&n), None);
    n.iterms[0].io_type = "INOUT".to_string();
    assert_eq!(name(&n), Some("u2/A".to_string()));
    n.iterms[0].sig_type = "POWER".to_string();
    assert_eq!(name(&n), None);
    let mut supply = two_pins();
    supply.sig_type = "POWER".to_string();
    assert_eq!(name(&supply), None);
}

#[test]
fn supply_and_special_nets_have_no_network() {
    let mut supply = two_pins();
    supply.sig_type = "GROUND".to_string();
    let e = decide(supply).unwrap();
    assert_eq!((e.drivers, e.drvr, e.decision), (0, None, Decision::NoDriver));
    let mut special = two_pins();
    special.special = true;
    let e = decide(special).unwrap();
    assert_eq!((e.drivers, e.drvr.as_deref()), (1, Some("u1/Z")));
    assert_eq!(e.decision, Decision::Special);
}

#[test]
fn a_port_straight_to_a_pad_is_a_pad_net() {
    let mut n = net(vec![iterm("pad/P", 4, 5, 5, "INOUT")], vec![bterm("io", 2, 5, 5, "INOUT")]);
    assert_eq!(is_pad_net(&n, &connected_pins(&n)), Ok(false));
    for ty in ["PAD", "PAD INPUT", "COVER_BUMP", "COVER BUMP"] {
        n.iterms[0].master_type = Ok(ty.to_string());
        assert_eq!(is_pad_net(&n, &connected_pins(&n)), Ok(true), "{ty}");
    }
    n.iterms[0].master_type = Err("no master".to_string());
    assert_eq!(is_pad_net(&n, &connected_pins(&n)), Err("no master".to_string()));
    assert_eq!(is_pad_net(&n, &vec![]), Ok(false));
    n.iterms[0].master_type = Ok("PAD".to_string());
    let pins = connected_pins_by_id(&n).unwrap();
    assert_eq!(decide(n).unwrap().decision, Decision::Pad { pins });
}

#[test]
fn a_net_has_the_tree_of_its_placed_pins() {
    let e = decide(two_pins()).unwrap();
    let Decision::Tree { tree, drvr_idx, non_leaf_clock } = e.decision else {
        panic!("no tree");
    };
    assert_eq!(names(&tree.pinlocs), ["u1/Z", "u2/A", "out"]);
    assert_eq!((drvr_idx, tree.drvr_pt, non_leaf_clock), (Some(0), Some(0), false));
    assert_eq!(tree.tree.deg, 3);
    let mut unplaced = two_pins();
    unplaced.iterms[0].placed = false;
    let e = decide(unplaced).unwrap();
    let Decision::NoTree { pinlocs, drvr_idx } = e.decision else {
        panic!("a tree");
    };
    assert_eq!((names(&pinlocs), drvr_idx), (vec!["u1/Z", "u2/A", "out"], Some(0)));
    let alone = net(vec![iterm("u1/Z", 3, 0, 0, "OUTPUT")], vec![]);
    assert!(matches!(decide(alone).unwrap().decision, Decision::NoTree { .. }));
}

#[test]
fn pins_at_one_place_keep_their_order() {
    let pins = vec![
        pin("c", false, 1, 1),
        pin("a", false, 0, 5),
        pin("b", false, 1, 1),
        pin("z", false, 0, 2),
    ];
    let none = |_: &Vec<i32>, _: &Vec<i32>, i: usize| {
        assert_eq!(i, 2);
        SttTree { deg: 0, branch: vec![Branch { x: 9, y: 9, n: 0 }] }
    };
    let (sorted, idx, tree) = make_steiner_tree(&pins[0], &pins, &none);
    assert_eq!(names(&sorted), ["z", "a", "c", "b"]);
    assert_eq!(idx, Some(2));
    assert_eq!(tree.unwrap().drvr_pt, None);
    let start = |x: &Vec<i32>, y: &Vec<i32>, i: usize| {
        assert_eq!((x.as_slice(), y.as_slice(), i), ([0, 0, 1, 1].as_slice(), [2, 5, 1, 1].as_slice(), 0));
        star(x, y, i)
    };
    let (_, idx, tree) = make_steiner_tree(&pin("q", false, 1, 1), &pins, &start);
    assert_eq!((idx, tree.unwrap().drvr_pt), (None, Some(2)));
}

#[test]
fn an_ideal_clock_is_skipped() {
    let lib = LibertyClocks { cells: vec![] };
    let run = |t: Timing<'_>, search: Result<Vec<String>, String>| {
        estimate_wire_parasitics(&design(vec![two_pins()]), &t, &search, &star, &clock_type)
    };
    let clock = |propagated: bool| Timing {
        liberty: Some(&lib),
        clock_sources: vec!["clk".to_string()],
        propagated,
    };
    assert!(needs_search(&clock(true)));
    assert!(!needs_search(&timing(Some(&lib))));
    let found = || Ok(vec!["n".to_string()]);
    assert_eq!(run(clock(false), found()).unwrap()[0].decision, Decision::Skip);
    assert!(matches!(run(clock(true), found()).unwrap()[0].decision, Decision::Tree { .. }));
    assert!(matches!(run(timing(None), found()).unwrap()[0].decision, Decision::Tree { .. }));
    let failed = || Err("no clocks".to_string());
    assert_eq!(run(clock(false), failed()), Err("no clocks".to_string()));
    assert!(run(timing(None), failed()).is_ok());
}

#[test]
fn a_constant_driver_is_refused() {
    let lib = LibertyClocks {
        cells: vec![LibertyCell {
            name: "BUF".to_string(),
            constant_outputs: vec!["Z".to_string()],
        }],
    };
    let r = estimate_wire_parasitics(
        &design(vec![two_pins()]),
        &timing(Some(&lib)),
        &Ok(vec![]),
        &star,
        &clock_type,
    );
    assert_eq!(
        r,
        Err("net n: driven by a constant (tie) output — isConstant is not modelled".to_string())
    );
}

#[test]
fn a_clock_that_is_no_leaf_is_told_apart() {
    let lib = LibertyClocks { cells: vec![] };
    let mut n = two_pins();
    n.sig_type = "CLOCK".to_string();
    let seen = |clock: bool, f: &Vec<ITermClockFacts>| {
        assert_eq!(f.as_slice(), [facts(true), facts(true)]);
        clock
    };
    let db = design(vec![n]);
    let v = estimate_wire_parasitics(&db, &timing(Some(&lib)), &Ok(vec![]), &star, &seen).unwrap();
    assert!(matches!(v[0].decision, Decision::Tree { non_leaf_clock: true, .. }));
    let blind = |clock: bool, f: &Vec<ITermClockFacts>| {
        assert_eq!(f.as_slice(), [facts(false), facts(false)]);
        !clock
    };
    let v = estimate_wire_parasitics(&db, &timing(None), &Ok(vec![]), &star, &blind).unwrap();
    assert!(matches!(v[0].decision, Decision::Tree { non_leaf_clock: false, .. }));
}

#[test]
fn decisions_are_traced() {
    let line = |decision: Decision, drvr: Option<&str>| NetEstimate {
        net: "n".to_string(),
        drivers: usize::from(drvr.is_some()),
        drvr: drvr.map(String::from),
        decision,
    };
    let pins = || vec![pin("a/Z", false, -1, 2), pin("p", true, 3, 4)];
    let tree = SteinerTree {
        pinlocs: pins(),
        tree: SttTree { deg: 2, branch: vec![Branch { x: -1, y: 2, n: 1 }, Branch { x: 3, y: 4, n: 1 }] },
        drvr_pt: Some(0),
    };
    let nets = vec![
        line(Decision::NoDriver, None),
        line(Decision::Power, Some("d")),
        line(Decision::Ground, Some("d")),
        line(Decision::Special, Some("d")),
        line(Decision::Pad { pins: pins() }, Some("d")),
        line(Decision::Skip, Some("d")),
        line(Decision::NoTree { pinlocs: pins(), drvr_idx: None }, Some("d")),
        line(Decision::NoTree { pinlocs: vec![], drvr_idx: Some(4) }, Some("d")),
        line(Decision::Tree { tree, drvr_idx: Some(0), non_leaf_clock: true }, Some("a/Z")),
    ];
    let head = "VYGE|net|n|drivers=1|drvr=d\n";
    assert_eq!(
        trace(&nets),
        format!(
            "VYGE|net|n|drivers=0|drvr=\n\
             {head}VYGE|kind|n|power\n\
             {head}VYGE|kind|n|ground\n\
             {head}VYGE|kind|n|special\n\
             {head}VYGE|kind|n|pad\n\
             {head}VYGE|kind|n|steiner\nVYGE|skip|n\n\
             {head}VYGE|kind|n|steiner\nVYGE|pins|n|drvr_idx=-1|a/Z@-1,2;p@3,4;\nVYGE|noplace|n\n\
             {head}VYGE|kind|n|steiner\nVYGE|pins|n|drvr_idx=4|\n\
             VYGE|net|n|drivers=1|drvr=a/Z\nVYGE|kind|n|steiner\n\
             VYGE|pins|n|drvr_idx=0|a/Z@-1,2;p@3,4;\n\
             VYGE|tree|n|pins=2|drvr_pt=0|-1,2,1;3,4,1;\nVYGE|clk|n|1\n"
        )
    );
}

fn tree_of(n: Net) -> (Db, SteinerTree) {
    let db = design(vec![n]);
    let v = estimate_wire_parasitics(&db, &timing(None), &Ok(vec![]), &star, &clock_type).unwrap();
    match v.into_iter().next().unwrap().decision {
        Decision::Tree { tree, .. } => (db, tree),
        other => panic!("{other:?}"),
    }
}

fn terms(g: &Parasitic) -> Vec<(i128, usize)> {
    (0..g.sub_nodes.len()).map(|i| (g.sub_nodes.key_at(i), g.sub_nodes.value_at(i).len())).collect()
}

#[test]
fn a_branch_is_a_pi_model() {
    let (db, tree) = tree_of(two_pins());
    let rc = wire_state(false);
    let cx = NetCtx { db: &db, rc: &rc, tech: "tech", corner: 0, is_clk: false };
    let g = make_steiner_parasitic(&cx, &db.nets[0], &tree).unwrap();
    let wire = |along_x: i32, along_y: i32| Resistance::Wire {
        along_x,
        along_y,
        h: d(2.0),
        v: d(2.0),
        rule: None,
    };
    let r = |from: Node, to: Node, value: Resistance| Resistor { from, to, value };
    let average = || Resistance::AverageCut(vec![]);
    assert_eq!(
        g.resistors,
        vec![
            r(Node::Sub(0), Node::Sub(0), Resistance::Link),
            r(Node::Sub(0), Node::Pin(6), average()),
            r(Node::Sub(1), Node::Sub(0), wire(0, 10)),
            r(Node::Sub(1), Node::Pin(10), average()),
            r(Node::Sub(2), Node::Sub(0), wire(20, 10)),
            r(Node::Sub(2), Node::Pin(3), average()),
        ]
    );
    let half = |along_x: i32, along_y: i32| HalfWire { along_x, along_y, h: d(3.0), v: d(3.0) };
    assert_eq!(g.sub_nodes.get(0), Some(&vec![half(0, 10), half(20, 10)]));
    assert_eq!(g.sub_nodes.get(1), Some(&vec![half(0, 10)]));
    assert_eq!(g.sub_nodes.get(2), Some(&vec![half(20, 10)]));
    assert_eq!(
        g.capacitance(),
        vec![
            vec![half(0, 10), half(20, 10)],
            vec![half(0, 10)],
            vec![half(20, 10)],
            vec![],
            vec![],
            vec![]
        ]
    );
    let out = g.pin_nodes.get(3).unwrap();
    assert_eq!((out.name.as_str(), out.is_port, out.master.as_str()), ("out", true, ""));
    let z = g.pin_nodes.get(6).unwrap();
    assert_eq!((z.io_type.as_str(), z.is_port, z.master.as_str()), ("OUTPUT", false, "BUF"));
}

#[test]
fn a_pin_is_joined_once() {
    let mut n = two_pins();
    n.iterms[0].avg_xy = Some((0, 0));
    let (db, tree) = tree_of(n);
    let rc = wire_state(false);
    let cx = NetCtx { db: &db, rc: &rc, tech: "tech", corner: 0, is_clk: false };
    let g = make_steiner_parasitic(&cx, &db.nets[0], &tree).unwrap();
    let joins = |k: u64| resistors(&g).iter().filter(|r| r.1 == Node::Pin(k)).count();
    assert_eq!((joins(6), joins(10), joins(3)), (1, 1, 1));
}

#[test]
fn a_pin_is_joined_by_vias() {
    let (db, tree) = tree_of(two_pins());
    let rc = wire_state(true);
    let cx = NetCtx { db: &db, rc: &rc, tech: "tech", corner: 0, is_clk: false };
    let g = make_steiner_parasitic(&cx, &db.nets[0], &tree).unwrap();
    let cut = |v: f64| Resistance::Cut(d(v));
    let r = |from: Node, to: Node, value: Resistance| Resistor { from, to, value };
    // The wires are on m3: an instance pin on m1 climbs two cuts, the port on m3 none.
    assert_eq!(g.resistors[1], r(Node::Pin(6), Node::Sub(3), cut(5.0)));
    assert_eq!(g.resistors[2], r(Node::Sub(3), Node::Sub(0), cut(7.0)));
    assert_eq!(g.resistors[4], r(Node::Pin(10), Node::Sub(4), cut(5.0)));
    assert_eq!(g.resistors[5], r(Node::Sub(4), Node::Sub(1), cut(7.0)));
    assert_eq!(g.resistors[7], r(Node::Pin(3), Node::Sub(2), Resistance::Link));
    assert_eq!(terms(&g), vec![(0, 2), (1, 1), (2, 1), (3, 0), (4, 0)]);
    let mut one = two_pins();
    one.bterms[0].layers = Ok(vec![4]);
    one.iterms[0].layers = vec![8, 10];
    let (mut db, tree) = tree_of(one);
    db.layers.push(layer("v3", 7, 0, "CUT"));
    db.layers.push(layer("m4", 8, 4, "ROUTING"));
    db.layers.push(layer("v4", 9, 0, "CUT"));
    let cx = NetCtx { db: &db, rc: &rc, tech: "tech", corner: 0, is_clk: false };
    let g = make_steiner_parasitic(&cx, &db.nets[0], &tree).unwrap();
    assert_eq!(g.resistors[4], r(Node::Pin(10), Node::Sub(1), cut(0.0)));
    assert_eq!(g.resistors[6], r(Node::Pin(3), Node::Sub(2), cut(7.0)));
}

#[test]
fn a_chain_leads_down_from_a_high_pin() {
    let mut n = two_pins();
    n.iterms[1].layers = vec![10];
    let (mut db, tree) = tree_of(n);
    for (name, number) in [("v3", 7), ("m4", 8), ("v4", 9), ("m5", 10)] {
        let kind = if number % 2 == 1 { "CUT" } else { "ROUTING" };
        db.layers.push(layer(name, number, number / 2 * (1 - number % 2), kind));
    }
    let rc = wire_state(true);
    let cx = NetCtx { db: &db, rc: &rc, tech: "tech", corner: 0, is_clk: false };
    let g = make_steiner_parasitic(&cx, &db.nets[0], &tree).unwrap();
    assert_eq!(resistors(&g)[1..3], [(Node::Sub(0), Node::Sub(3)), (Node::Sub(3), Node::Pin(6))]);
}

#[test]
fn a_broken_chain_is_refused() {
    let rc = wire_state(true);
    let run = |layers: Vec<i32>| {
        let mut n = two_pins();
        n.iterms[1].layers = layers;
        let (db, tree) = tree_of(n);
        let cx = NetCtx { db: &db, rc: &rc, tech: "tech", corner: 0, is_clk: false };
        make_steiner_parasitic(&cx, &db.nets[0], &tree).map(|g| resistors(&g))
    };
    assert_eq!(
        run(vec![5]),
        Err("via chain from layer 5 to 6: a step with no node — not modelled".to_string())
    );
    assert_eq!(run(vec![0]), Err("no layer".to_string()));
    assert_eq!(run(vec![]), Err("pin u1/Z: no routing geometry".to_string()));
}

#[test]
fn a_pin_has_a_layer() {
    let mut n = two_pins();
    assert_eq!(get_pin_layer(&n, &pin("u1/Z", false, 0, 0)), Ok(2));
    assert_eq!(get_pin_layer(&n, &pin("out", true, 0, 0)), Ok(6));
    n.bterms[0].layers = Ok(vec![]);
    assert_eq!(
        get_pin_layer(&n, &pin("out", true, 0, 0)),
        Err("[ERROR EST-0164] sta::Pin out has no placed iterm or bterm.".to_string())
    );
    n.bterms[0].layers = Err("no boxes".to_string());
    assert_eq!(get_pin_layer(&n, &pin("out", true, 0, 0)), Err("no boxes".to_string()));
}

#[test]
fn the_cuts_of_the_routing_layers_are_averaged() {
    let rc = wire_state(true);
    let run = |db: &Db, rc: &Rc| {
        compute_average_cut_resistance(&NetCtx { db, rc, tech: "tech", corner: 0, is_clk: false })
    };
    let mut db = design(vec![]);
    assert_eq!(run(&db, &rc), Ok(vec![d(5.0), d(7.0)]));
    assert_eq!(run(&db, &wire_state(false)), Ok(vec![]));
    db.min_routing_layer = 2;
    assert_eq!(run(&db, &rc), Ok(vec![d(7.0)]));
    db.min_routing_layer = 1;
    db.max_routing_layer = -1;
    // The first level is 1 of 3: 1 - 1 + (3 - 1 + 1) / 2 = 1.
    assert_eq!(run(&db, &rc), Ok(vec![]));
    db.routing_layer_count = 5;
    assert_eq!(run(&db, &rc), Ok(vec![d(5.0)]));
    db.first_frontside_layer = String::new();
    db.routing_layer_count = 6;
    assert_eq!(run(&db, &rc), Ok(vec![d(5.0), d(7.0)]));
    db.routing_layer_count = 8;
    assert_eq!(run(&db, &rc), Err("max routing layer".to_string()));
    db.min_routing_layer = 9;
    assert_eq!(run(&db, &rc), Err("min routing layer".to_string()));
}

#[test]
fn a_rule_scales_the_wire() {
    let mut n = two_pins();
    let db = design(vec![]);
    assert_eq!(ndr_ratio(&db, &n), Ok(None));
    n.rule = "wide".to_string();
    assert_eq!(ndr_ratio(&db, &n), Ok(Some((100, 50))));
    n.rule = "empty".to_string();
    assert_eq!(ndr_ratio(&db, &n), Err("net n: an NDR with no layer rule".to_string()));
    n.rule = "bad".to_string();
    assert_eq!(ndr_ratio(&db, &n), Err("bad rule".to_string()));
    n.rule = "none".to_string();
    assert_eq!(ndr_ratio(&db, &n), Err("rule none is not of the design".to_string()));
    n.rule = "wide".to_string();
    let (db, tree) = tree_of(n);
    let rc = wire_state(false);
    let cx = NetCtx { db: &db, rc: &rc, tech: "tech", corner: 0, is_clk: true };
    let g = make_steiner_parasitic(&cx, &db.nets[0], &tree).unwrap();
    assert!(matches!(g.resistors[2].value, Resistance::Wire { rule: Some((100, 50)), .. }));
}

#[test]
fn a_pad_net_is_one_link() {
    let n = net(vec![iterm("pad/P", 4, 5, 5, "INOUT")], vec![bterm("io", 2, 5, 5, "INOUT")]);
    let pins = connected_pins_by_id(&n).unwrap();
    let g = make_pad_parasitic(&n, &pins).unwrap();
    assert_eq!(
        g.resistors,
        vec![Resistor { from: Node::Pin(5), to: Node::Pin(8), value: Resistance::Link }]
    );
    assert_eq!((g.pin_nodes.len(), g.sub_nodes.len()), (2, 0));
    let strangers = vec![pin("x/P", false, 0, 0), pin("io", true, 0, 0)];
    assert_eq!(
        make_pad_parasitic(&n, &strangers).err(),
        Some("pin x/P is not of the net".to_string())
    );
}

#[test]
fn a_tree_must_stay_within_itself() {
    let (_, mut tree) = tree_of(two_pins());
    assert!(is_sound(&tree));
    tree.tree.branch[1].n = 3;
    assert!(!is_sound(&tree));
    tree.tree.branch[1].n = 0;
    tree.tree.branch[1].y = i32::MIN;
    assert!(!is_sound(&tree));
    assert!(!is_drawable(&Decision::Pad { pins: vec![] }));
    assert!(is_drawable(&Decision::Skip));
}

fn units() -> SpefUnits {
    SpefUnits {
        time: SiPrefix::Nano,
        capacitance: SiPrefix::Pico,
        resistance: SiPrefix::Kilo,
    }
}

#[test]
fn names_are_escaped() {
    assert_eq!(escape_special("a$b$$"), "a\\$b\\$\\$");
    assert_eq!(escape_special("plain/name[0]"), "plain/name[0]");
    assert_eq!(fix_pin_delimiter("a/b/c"), "a/b:c");
    assert_eq!(fix_pin_delimiter("abc"), "abc");
    assert_eq!((io_text("INPUT"), io_text("OUTPUT"), io_text("INOUT")), ("I", "O", "B"));
}

#[test]
fn units_have_names() {
    let all = [
        (SiPrefix::Femto, "FF"),
        (SiPrefix::Pico, "PF"),
        (SiPrefix::Nano, "NF"),
        (SiPrefix::Micro, "UF"),
        (SiPrefix::Milli, "MF"),
        (SiPrefix::One, "F"),
        (SiPrefix::Kilo, "KF"),
        (SiPrefix::Mega, "MF"),
    ];
    for (p, name) in all {
        assert_eq!(abbrev(p, "F"), name);
    }
    assert_eq!(abbrev(SiPrefix::Kilo, "ohm"), "KOHM");
}

const HEADER: &str = "*SPEF \"ieee 1481-1999\"\n*DESIGN \"to\\$p\"\n*DATE \"11:11:11 Fri 11 11, 1111\"\n*VENDOR \"The OpenROAD Project\"\n*PROGRAM \"OpenROAD\"\n*VERSION \"1.0\"\n*DESIGN_FLOW \"NAME_SCOPE LOCAL\" \"PIN_CAP NONE\"\n*DIVIDER /\n*DELIMITER :\n*BUS_DELIMITER []\n*T_UNIT 1 NS\n*C_UNIT 1 PF\n*R_UNIT 1 KOHM\n*L_UNIT 1 HENRY\n\n*PORTS\nin\\$ I\nout O\nx B\n\n";

#[test]
fn the_header_names_units_and_ports() {
    assert_eq!(header(&design(vec![]), units()), HEADER);
}

fn six(v: f64) -> Decimal {
    if v == 0.0 {
        Decimal::Zero { negative: false }
    } else {
        read_sci(&format!("{:.5e}", v), 6).unwrap()
    }
}

fn values(g: &Parasitic) -> NetValues {
    NetValues {
        total: six(g.capacitance().iter().map(Vec::len).sum::<usize>() as f64 * 0.5),
        caps: (0..g.sub_nodes.len())
            .map(|i| match g.sub_nodes.value_at(i).len() {
                0 => None,
                n => Some(six(n as f64 * 0.5)),
            })
            .collect(),
        res: g
            .resistors
            .iter()
            .map(|r| six(if r.value == Resistance::Link { 0.001 } else { 2.0 }))
            .collect(),
    }
}

#[test]
fn a_network_is_written_in_its_order() {
    let mut n = two_pins();
    n.name = "n$1".to_string();
    let (db, tree) = tree_of(n);
    let rc = wire_state(true);
    let cx = NetCtx { db: &db, rc: &rc, tech: "tech", corner: 0, is_clk: false };
    let g = make_steiner_parasitic(&cx, &db.nets[0], &tree).unwrap();
    assert_eq!(
        write_net("n$1", &g, &values(&g)),
        "*D_NET n\\$1 2\n*CONN\n*P out O\n*I u1:Z O *D BUF\n*I u2:A I *D BUF\n\
         *CAP\n1 n\\$1:0 1\n2 n\\$1:1 0.5\n3 n\\$1:2 0.5\n\
         *RES\n1 n\\$1:0 n\\$1:0 0.001\n2 u1:Z n\\$1:3 2\n3 n\\$1:3 n\\$1:0 2\n4 n\\$1:1 n\\$1:0 2\n\
         5 u2:A n\\$1:4 2\n6 n\\$1:4 n\\$1:1 2\n7 n\\$1:2 n\\$1:0 2\n8 out n\\$1:2 0.001\n*END\n\n"
    );
}

#[test]
fn a_network_without_capacitance_has_no_such_part() {
    let n = net(vec![iterm("pad/P", 4, 5, 5, "INOUT")], vec![bterm("io", 2, 5, 5, "INOUT")]);
    let g = make_pad_parasitic(&n, &connected_pins_by_id(&n).unwrap()).unwrap();
    assert_eq!(
        write_net("n", &g, &values(&g)),
        "*D_NET n 0\n*CONN\n*P io B\n*I pad:P B *D BUF\n*RES\n1 io pad:P 0.001\n*END\n\n"
    );
    let nothing = Parasitic::new();
    assert_eq!(write_net("n", &nothing, &values(&nothing)), "*D_NET n 0\n*CONN\n*END\n\n");
}

#[test]
fn a_corner_is_written_net_by_net() {
    let mut special = two_pins();
    special.name = "s".to_string();
    special.special = true;
    let db = design(vec![special, two_pins()]);
    let rc = wire_state(false);
    let nets =
        estimate_wire_parasitics(&db, &timing(None), &Ok(vec![]), &star, &clock_type).unwrap();
    assert!(draw(&db, &rc, "tech", 0, &nets[0]).unwrap().is_none());
    let g = draw(&db, &rc, "tech", 0, &nets[1]).unwrap().unwrap();
    let text = write_corner(&db, &rc, "tech", 0, &nets, units(), &values).unwrap();
    assert_eq!(text, format!("{HEADER}{}", write_net("n", &g, &values(&g))));
    let other = design(vec![]);
    assert_eq!(
        write_corner(&other, &rc, "tech", 0, &nets, units(), &values),
        Err("net n is not of the design".to_string())
    );
}

#[test]
fn every_resistor_joins_two_nodes() {
    for layers in [false, true] {
        let (db, tree) = tree_of(two_pins());
        let rc = wire_state(layers);
        let cx = NetCtx { db: &db, rc: &rc, tech: "tech", corner: 0, is_clk: false };
        let g = make_steiner_parasitic(&cx, &db.nets[0], &tree).unwrap();
        let known = |n: &Node| match n {
            Node::Pin(k) => g.pin_nodes.get(*k as i128).is_some(),
            Node::Sub(id) => g.sub_nodes.get(*id as i128).is_some(),
        };
        assert!(g.resistors.iter().all(|r| known(&r.from) && known(&r.to)));
        assert!((0..g.pin_nodes.len()).all(|i| g.pin_nodes.value_at(i).cap.is_empty()));
        assert!((0..tree.tree.branch.len()).all(|i| known(&Node::Sub(i as u32))));
        assert!([3, 6, 10].iter().all(|k| known(&Node::Pin(*k))));
    }
}

#[test]
fn pins_joined_again_change_nothing() {
    let (db, tree) = tree_of(two_pins());
    let rc = wire_state(true);
    let cx = NetCtx { db: &db, rc: &rc, tech: "tech", corner: 0, is_clk: false };
    let mut g = Parasitic::new();
    let node = g.ensure_sub(0);
    let (mut connected, mut last) = (vec![], 2);
    let mut join = |g: &mut Parasitic, node: Node| {
        parasitic_node_connect_pins(
            &cx, &db.nets[0], g, node, &tree, 0, &mut connected, &mut last,
        )
        .unwrap();
        (resistors(g), g.pin_nodes.len(), g.sub_nodes.len())
    };
    let once = join(&mut g, node);
    assert_eq!(once.0.len(), 2);
    assert_eq!(join(&mut g, Node::Sub(0)), once);
    assert_eq!((connected, last), (vec!["u1/Z".to_string()], 3));
}

#[test]
fn a_rule_scales_wires_alone() {
    let draw_with = |rule: &str| {
        let mut n = two_pins();
        n.rule = rule.to_string();
        let (db, tree) = tree_of(n);
        let rc = wire_state(true);
        let cx = NetCtx { db: &db, rc: &rc, tech: "tech", corner: 0, is_clk: false };
        make_steiner_parasitic(&cx, &db.nets[0], &tree).unwrap()
    };
    let (plain, wide) = (draw_with(""), draw_with("wide"));
    assert_eq!(plain.capacitance(), wide.capacitance());
    assert_eq!((resistors(&plain), terms(&plain)), (resistors(&wide), terms(&wide)));
    for (a, b) in plain.resistors.iter().zip(&wide.resistors) {
        match (&a.value, &b.value) {
            (
                Resistance::Wire { along_x, along_y, h, v, rule: None },
                Resistance::Wire { along_x: x, along_y: y, h: i, v: w, rule: Some((100, 50)) },
            ) => assert_eq!((along_x, along_y, h, v), (x, y, i, w)),
            (a, b) => assert_eq!(a, b),
        }
    }
}

#[test]
fn a_corners_file_holds_that_corners_text() {
    let db = design(vec![two_pins()]);
    let mut session = Session::new();
    session.rc = wire_state(false);
    session.rc.define_corners(&vec!["slow".to_string(), "fast".to_string()]);
    let q = |v: f64| Quantity::exactly(d(v));
    let amount = |v: f64| Some(Amount { ohm: q(v), ohm_per_metre: q(v), farad_per_metre: q(v) });
    let args: Vec<String> =
        ["-resistance", "8", "-capacitance", "9", "-corner", "fast"].map(String::from).to_vec();
    let amounts = vec![None, amount(8.0), None, amount(9.0), None, None];
    session.rc.set_wire_rc(&db, &args, &amounts, |_: &Vec<Double>| q(0.0)).unwrap();
    assert!(session.start_estimate("tech", &vec![false, false]));
    let nets =
        estimate_wire_parasitics(&db, &timing(None), &Ok(vec![]), &star, &clock_type).unwrap();
    session.finish_estimate("", &nets);
    session.owe_spef("o.spef");
    // The values tell the corners apart: each resistance is the corner's own per metre.
    let told = |g: &Parasitic| NetValues {
        res: g
            .resistors
            .iter()
            .map(|r| match &r.value {
                Resistance::Wire { h, .. } => six(f64::from_bits(h.bits)),
                _ => six(0.001),
            })
            .collect(),
        ..values(g)
    };
    for (corner, file, ohm) in [(0, "o_slow.spef", "2"), (1, "o_fast.spef", "8")] {
        let (name, text) = session.next_spef(&db, "tech", &nets, units(), &told).unwrap();
        assert_eq!(name, file);
        assert_eq!(
            text,
            write_corner(&db, &session.rc, "tech", corner, &nets, units(), &told).unwrap()
        );
        assert!(text.contains(&format!("3 n:1 n:0 {ohm}\n")), "{text}");
        session.wrote_spef();
    }
    assert!(session.owed.is_empty());
    let other = design(vec![]);
    session.owe_spef("p.spef");
    assert_eq!(
        session.next_spef(&other, "tech", &nets, units(), &told),
        Err("net n is not of the design".to_string())
    );
}

#[test]
fn traces_follow_each_other() {
    let list = || {
        estimate_wire_parasitics(
            &design(vec![two_pins(), two_pins()]),
            &timing(None),
            &Ok(vec![]),
            &star,
            &clock_type,
        )
        .unwrap()
    };
    let mut all = list();
    all.extend(list());
    assert_eq!(trace(&all), format!("{0}{0}", trace(&list())));
}
