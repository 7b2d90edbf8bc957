//! Layer RC and wire RC: what the commands set and what reads it back.

use vyges_est::db::{Db, Layer};
use vyges_est::layer_rc::LayerWrite;
use vyges_est::number::{read_sci, Decimal};
use vyges_est::rc::{ClkCap, ClkLayers, ClkRes, Rc, SignalCap, SignalLayers, SignalRes};
use vyges_est::rc_trace::Shown;
use vyges_est::value::{Amount, Double, Quantity, HV};

fn d(v: f64) -> Double {
    Double { bits: v.to_bits() }
}

fn q(v: f64) -> Quantity {
    Quantity { given: d(v), stored: d(f64::from(v as f32)) }
}

fn texts(s: &[&str]) -> Vec<String> {
    s.iter().map(|w| w.to_string()).collect()
}

/// Units in which a number is 10 times as many ohms, 100 times as many ohms per metre and 1000
/// times as many farads per metre.
fn amounts(args: &[String]) -> Vec<Option<Amount>> {
    args.iter()
        .map(|a| {
            a.trim().parse::<f64>().ok().map(|v| Amount {
                ohm: q(v * 10.0),
                ohm_per_metre: q(v * 100.0),
                farad_per_metre: q(v * 1000.0),
            })
        })
        .collect()
}

fn layer(name: &str, number: i32, level: i32, res: f64, cap: f64) -> Layer {
    Layer {
        name: name.to_string(),
        number,
        routing_level: level,
        kind: Ok(if level > 0 { "ROUTING" } else { "CUT" }.to_string()),
        width: 100,
        wire_res: q(res),
        wire_cap: q(cap),
    }
}

fn design() -> Db {
    let pair = |a: &str, b: &str| (a.to_string(), b.to_string());
    Db {
        block_name: "top".to_string(),
        tech_name: "tech".to_string(),
        ports: vec![],
        nets: vec![],
        layers: vec![
            layer("m1", 2, 1, 1.0, 10.0),
            layer("v1", 3, 0, 0.0, 0.0),
            layer("m2", 4, 2, 3.0, 30.0),
            layer("m3", 6, 3, 5.0, 50.0),
        ],
        unnamed_kind: Err("no layer".to_string()),
        directions: Ok(vec![pair("m1", "HORIZONTAL"), pair("m2", "VERTICAL"), pair("m3", "NONE")]),
        rules: vec![],
        min_routing_layer: 1,
        max_routing_layer: 3,
        routing_layer_count: 3,
        first_frontside_layer: "m1".to_string(),
    }
}

fn set_layer(rc: &mut Rc, args: &[&str]) -> Result<Option<LayerWrite>, String> {
    let args = texts(args);
    rc.set_layer_rc(&design(), &args, &amounts(&args))
}

fn mean(v: &Vec<Double>) -> Quantity {
    q(v.iter().map(|x| f64::from_bits(x.bits)).sum::<f64>() / v.len() as f64)
}

fn set_wire(rc: &mut Rc, args: &[&str]) -> Result<(), String> {
    let args = texts(args);
    rc.set_wire_rc(&design(), &args, &amounts(&args), mean)
}

fn hv(h: f64, v: f64) -> HV {
    HV { h: d(h), v: d(v) }
}

#[test]
fn a_layer_reads_back_what_was_set() {
    let mut rc = Rc::new();
    assert_eq!(rc.layer_rc(2, 0), (d(0.0), d(0.0)));
    let write = set_layer(&mut rc, &["-layer", "m1", "-resistance", "2", "-capacitance", "3"]);
    assert_eq!(
        write,
        Ok(Some(LayerWrite::Wire { layer: "m1".to_string(), res: d(200.0), cap: d(3000.0) }))
    );
    assert_eq!(rc.layer_rc(2, 0), (d(200.0), d(3000.0)));
    assert_eq!(rc.layer_rc(4, 0), (d(0.0), d(0.0)));
    let write = set_layer(&mut rc, &["-via", "v1", "-resistance", "2"]);
    assert_eq!(write, Ok(Some(LayerWrite::Via { layer: "v1".to_string(), res: d(20.0) })));
    assert_eq!(rc.layer_rc(3, 0), (d(20.0), d(0.0)));
    assert_eq!(rc.layer_rc(2, 0), (d(200.0), d(3000.0)));
}

#[test]
fn a_corner_of_a_layer_is_set_alone() {
    let mut rc = Rc::new();
    rc.define_corners(&texts(&["a", "b"]));
    let write = set_layer(&mut rc, &["-layer", "m1", "-resistance", "1", "-corner", "b"]);
    assert_eq!(write, Ok(None));
    assert_eq!(rc.layer_rc(2, 0), (d(0.0), d(0.0)));
    assert_eq!(rc.layer_rc(2, 1), (d(100.0), d(0.0)));
    set_layer(&mut rc, &["-layer", "m1", "-resistance", "4"]).unwrap();
    assert_eq!(rc.layer_rc(2, 0).0, d(400.0));
    assert_eq!(rc.layer_rc(2, 1).0, d(400.0));
    assert_eq!(rc.layer_rc(2, 2).0, d(0.0));
}

#[test]
fn a_layer_value_is_stored_narrowed() {
    let mut rc = Rc::new();
    set_layer(&mut rc, &["-layer", "m1", "-resistance", "0.0011"]).unwrap();
    assert_eq!(rc.layer_rc(2, 0).0, d(f64::from((0.0011f64 * 100.0) as f32)));
}

#[test]
fn a_layer_command_fails_by_code() {
    let fails = |args: &[&str]| set_layer(&mut Rc::new(), args).unwrap_err();
    assert_eq!(
        fails(&["-layer", "m1", "-via", "v1"]),
        "[ERROR EST-0201] Use -layer or -via but not both."
    );
    assert_eq!(fails(&["-layer", "m9"]), "[ERROR EST-0202] layer m9 not found.");
    assert_eq!(fails(&["-layer", "v1"]), "[ERROR EST-0203] v1 is not a routing layer.");
    assert_eq!(
        fails(&["-layer", "m1"]),
        "[ERROR EST-0204] missing -capacitance or -resistance argument."
    );
    assert_eq!(fails(&["-via", "v9"]), "[ERROR EST-0205] via v9 not found.");
    assert_eq!(fails(&["-via", "v1"]), "[ERROR EST-0208] no -resistance specified for via.");
    assert_eq!(fails(&[]), "[ERROR EST-0209] missing -layer or -via argument.");
    assert_eq!(fails(&["-layer"]), "-layer requires a value");
    assert_eq!(fails(&["x"]), "unexpected argument x");
    assert_eq!(fails(&["-layer", "m1", "-corner", "c"]), "corner c not found");
    assert_eq!(fails(&["-layer", "m1", "-resistance", "x"]), "x: not a number");
}

#[test]
fn a_via_has_no_capacitance() {
    let mut rc = Rc::new();
    set_layer(&mut rc, &["-via", "v1", "-resistance", "1", "-capacitance", "5"]).unwrap();
    assert_eq!(rc.layer_rc(3, 0), (d(10.0), d(0.0)));
    assert_eq!(rc.log, texts(&["[WARNING EST-0206] -capacitance not supported for vias."]));
}

#[test]
fn wire_values_read_back() {
    let mut rc = Rc::new();
    set_wire(&mut rc, &["-resistance", "2", "-capacitance", "3"]).unwrap();
    assert_eq!(rc.resolve("tech", SignalRes), vec![hv(200.0, 200.0)]);
    assert_eq!(rc.resolve("tech", SignalCap), vec![hv(3000.0, 3000.0)]);
    assert_eq!(rc.resolve("tech", ClkRes), vec![hv(200.0, 200.0)]);
    assert_eq!(rc.resolve("tech", ClkCap), vec![hv(3000.0, 3000.0)]);
    let args = ["-clock", "-h_resistance", "1", "-v_resistance", "2", "-h_capacitance", "3"];
    set_wire(&mut rc, &args).unwrap();
    assert_eq!(
        rc.resolved("tech", 0),
        [200.0, 200.0, 3000.0, 3000.0, 100.0, 200.0, 3000.0, 0.0].map(d)
    );
    assert_eq!(rc.resolved("tech", 1), [0.0; 8].map(d));
    assert_eq!(rc.log, texts(&["[WARNING EST-0013] Clock vertical wire capacitance is 0."]));
}

#[test]
fn a_wire_without_values_is_warned_of() {
    let mut rc = Rc::new();
    set_wire(&mut rc, &["-signal"]).unwrap();
    assert_eq!(
        rc.log,
        texts(&[
            "[WARNING EST-0010] Signal horizontal wire resistance is 0.",
            "[WARNING EST-0011] Signal vertical wire resistance is 0.",
            "[WARNING EST-0012] Signal horizontal wire capacitance is 0.",
            "[WARNING EST-0013] Signal vertical wire capacitance is 0.",
        ])
    );
    let mut both = Rc::new();
    set_wire(&mut both, &["-resistance", "1"]).unwrap();
    assert_eq!(
        both.log,
        texts(&[
            "[WARNING EST-0012] Signal/clock horizontal wire capacitance is 0.",
            "[WARNING EST-0013] Signal/clock vertical wire capacitance is 0.",
        ])
    );
}

#[test]
fn a_wire_takes_a_layers_values() {
    let mut rc = Rc::new();
    set_wire(&mut rc, &["-signal", "-layer", "m2"]).unwrap();
    assert_eq!(rc.resolve("tech", SignalRes), vec![hv(3.0, 3.0)]);
    assert_eq!(rc.resolve("tech", SignalCap), vec![hv(30.0, 30.0)]);
    assert_eq!(rc.resolve("tech", SignalLayers), vec![4]);
    assert_eq!(rc.resolve("tech", ClkLayers).len(), 0);
    assert_eq!(rc.resolve("tech", ClkRes).len(), 0);
}

#[test]
fn a_wire_in_a_corner_takes_the_tables_values() {
    let mut rc = Rc::new();
    rc.define_corners(&texts(&["a", "b"]));
    set_layer(&mut rc, &["-layer", "m2", "-resistance", "7", "-capacitance", "8"]).unwrap();
    set_wire(&mut rc, &["-clock", "-layer", "m2", "-corner", "b"]).unwrap();
    assert_eq!(rc.resolve("tech", ClkRes), vec![hv(0.0, 0.0), hv(700.0, 700.0)]);
    assert_eq!(rc.resolve("tech", ClkCap), vec![hv(0.0, 0.0), hv(8000.0, 8000.0)]);
    assert_eq!(rc.resolve("tech", ClkLayers), vec![4]);
}

#[test]
fn layers_are_averaged_by_direction() {
    let mut rc = Rc::new();
    set_wire(&mut rc, &["-layers", "m3 m1  m2"]).unwrap();
    assert_eq!(rc.resolve("tech", SignalRes), vec![hv(3.0, 4.0)]);
    assert_eq!(rc.resolve("tech", SignalCap), vec![hv(30.0, 40.0)]);
    assert_eq!(rc.resolve("tech", SignalLayers), vec![6, 2, 4]);
    rc.sort_clk_and_signal_layers();
    assert_eq!(rc.resolve("tech", SignalLayers), vec![2, 4, 6]);
    assert_eq!(rc.resolve("tech", ClkLayers), vec![2, 4, 6]);
    assert_eq!(rc.resolve("tech", SignalRes), vec![hv(3.0, 4.0)]);
}

#[test]
fn a_technology_has_its_own_wire_rc() {
    let mut rc = Rc::new();
    set_wire(&mut rc, &["-resistance", "1", "-capacitance", "1"]).unwrap();
    set_wire(&mut rc, &["-tech", "tech", "-signal", "-resistance", "2", "-capacitance", "2"])
        .unwrap();
    assert_eq!(rc.resolve("tech", SignalRes), vec![hv(200.0, 200.0)]);
    assert_eq!(rc.resolve("tech", ClkRes), vec![hv(100.0, 100.0)]);
    assert_eq!(rc.resolve("other", SignalRes), vec![hv(100.0, 100.0)]);
}

#[test]
fn a_wire_command_fails_by_code() {
    let fails = |args: &[&str]| set_wire(&mut Rc::new(), args).unwrap_err();
    assert_eq!(
        fails(&["-layers", "m1", "-h_resistance", "1"]),
        "[ERROR EST-0001] Use -layers or -resistance/-capacitance but not both."
    );
    assert_eq!(fails(&["-layers", "m1 m9"]), "[ERROR EST-0002] layer m9 not found.");
    assert_eq!(
        fails(&["-layers", "m1", "-layer", "m1"]),
        "[ERROR EST-0006] Use -layers or -layer but not both."
    );
    assert_eq!(fails(&["-layer", "m9"]), "[ERROR EST-0015] layer m9 not found.");
    assert_eq!(fails(&["-layers", "m2"]), "[ERROR EST-0016] No horizontal layer specified.");
    assert_eq!(fails(&["-layers", "m1"]), "[ERROR EST-0017] No vertical layer specified.");
    assert_eq!(fails(&["-tech", "x"]), "[ERROR EST-0030] technology x not found.");
    assert_eq!(
        fails(&["-redistribution_layer"]),
        "set_wire_rc -redistribution_layer: RDL chips are not modelled"
    );
    assert_eq!(fails(&["-resistance", "x"]), "x: not a number");
    assert_eq!(fails(&["-corner", "c"]), "corner c not found");
    assert_eq!(fails(&["-corner"]), "-corner requires a value");
    assert_eq!(fails(&["x"]), "unexpected argument x");
    let mut db = design();
    db.directions = Err("no directions".to_string());
    let args = texts(&["-layers", "m1"]);
    assert_eq!(
        Rc::new().set_wire_rc(&db, &args, &amounts(&args), mean),
        Err("no directions".to_string())
    );
}

#[test]
fn a_failed_command_changes_nothing() {
    let mut rc = Rc::new();
    set_wire(&mut rc, &["-resistance", "2", "-capacitance", "3"]).unwrap();
    let before = rc.resolved("tech", 0);
    set_wire(&mut rc, &["-resistance", "5", "-capacitance", "x"]).unwrap_err();
    set_layer(&mut rc, &["-layer", "m1"]).unwrap_err();
    assert_eq!(rc.resolved("tech", 0), before);
    assert!(rc.layer_res.is_empty());
    assert!(rc.log.is_empty());
}

#[test]
fn the_state_is_traced() {
    let mut rc = Rc::new();
    rc.define_corners(&texts(&["a", "b"]));
    set_wire(&mut rc, &["-signal", "-layer", "m2", "-corner", "a"]).unwrap();
    set_layer(&mut rc, &["-layer", "m1", "-resistance", "2", "-capacitance", "3"]).unwrap();
    set_wire(&mut rc, &["-signal", "-layer", "m1"]).unwrap();
    let shown: Vec<Shown> = rc
        .trace_values("tech")
        .iter()
        .map(|v| {
            let x = f64::from_bits(v.bits);
            let decimal = if x == 0.0 {
                Decimal::Zero { negative: false }
            } else {
                read_sci(&format!("{:.16e}", x), 17).unwrap()
            };
            Shown { value: *v, decimal }
        })
        .collect();
    assert_eq!(
        rc.trace("tech", &shown),
        "VYGE|rc|0|a|sig_h_r=1|sig_v_r=1|sig_h_c=10|sig_v_c=10|clk_h_r=0|clk_v_r=0|clk_h_c=0|clk_v_c=0\n\
         VYGE|layer_rc|0|2|r=200|c=3000\n\
         VYGE|rc|1|b|sig_h_r=1|sig_v_r=1|sig_h_c=10|sig_v_c=10|clk_h_r=0|clk_v_r=0|clk_h_c=0|clk_v_c=0\n\
         VYGE|layer_rc|1|2|r=200|c=3000\n\
         VYGE|layers|signal=4;2;|clk=\n"
    );
}
