//! Jobs, the steps of a run, and its report.

use std::io::Write;

use vyges_est::cli::exit_for;
use vyges_est::job::{default_alpha, name_job, read_job, Job, Step};
use vyges_est::placement::{
    count_estimated, Decision, LibertyClocks, NetEstimate, SteinerTree, SttTree,
};
use vyges_est::report::Report;
use vyges_est::session::{
    is_packed, name_text, need_rc_units, need_spef_units, spef_file, spef_files, spef_path, unpack, Action,
    OwedSpef, Session,
};
use vyges_est::value::Double;

fn text(s: &str) -> Option<String> {
    Some(s.to_string())
}

fn texts(s: &[&str]) -> Vec<String> {
    s.iter().map(|w| w.to_string()).collect()
}

fn step(cmd: &str, args: &[&str]) -> Step {
    Step { cmd: text(cmd), args: Some(args.iter().map(|a| text(a)).collect()) }
}

fn number(s: &str) -> Double {
    Double { bits: s.parse::<f64>().unwrap().to_bits() }
}

fn with_signal_cap(s: &mut Session) {
    let db = vyges_est::db::Db {
        block_name: String::new(),
        tech_name: "t".to_string(),
        ports: vec![],
        nets: vec![],
        layers: vec![],
        unnamed_kind: Err("no layer".to_string()),
        directions: Ok(vec![]),
        rules: vec![],
        min_routing_layer: 1,
        max_routing_layer: -1,
        routing_layer_count: 0,
        first_frontside_layer: String::new(),
    };
    let q = vyges_est::value::Quantity::exactly(number("2"));
    let amount = vyges_est::value::Amount { ohm: q, ohm_per_metre: q, farad_per_metre: q };
    let args = texts(&["-resistance", "2", "-capacitance", "2"]);
    let amounts = vec![None, Some(amount), None, Some(amount)];
    s.rc.set_wire_rc(&db, &args, &amounts, |_: &Vec<Double>| q).unwrap();
}

#[test]
fn a_job_is_read_from_json() {
    let json = r#"{
      "steps": [
        { "cmd": "read_lef", "args": ["tech.lef", 7, null, "cells.lef"] },
        { "cmd": 3, "args": "x" },
        "y"
      ],
      "alpha": 0.5,
      "trace": "t.txt"
    }"#;
    let job = read_job("job.json", json).unwrap();
    assert_eq!(
        job,
        Job {
            steps: Some(vec![
                Step {
                    cmd: text("read_lef"),
                    args: Some(vec![text("tech.lef"), None, None, text("cells.lef")])
                },
                Step { cmd: None, args: None },
                Step { cmd: None, args: None },
            ]),
            alpha: Some(number("0.5")),
            trace: text("t.txt"),
        }
    );
    assert_eq!(job.alpha(), number("0.5"));
    assert_eq!(job.steps.unwrap()[0].words(), texts(&["tech.lef", "cells.lef"]));
}

#[test]
fn a_job_without_members_is_empty() {
    let job = read_job("j", "[1, 2]").unwrap();
    assert_eq!(job, Job { steps: None, alpha: None, trace: None });
    assert_eq!(job.alpha(), default_alpha());
    assert_eq!(default_alpha(), number("0.3"));
    assert_eq!(Step { cmd: None, args: None }.words(), texts(&[]));
}

#[test]
fn a_job_that_is_no_json_is_an_error() {
    let e = read_job("job.json", "{").unwrap_err();
    assert!(e.starts_with("job.json: EOF while parsing an object"), "{e}");
    assert_eq!(name_job("a", Err("b".to_string())), Err("a: b".to_string()));
}

#[test]
fn a_step_says_what_is_left_to_do() {
    let mut s = Session::new();
    assert_eq!(s.step(&step("read_lef", &["a", "b"])), Ok(Action::ReadLef("b".to_string())));
    assert_eq!(s.step(&step("read_def", &["a"])), Ok(Action::ReadDef("a".to_string())));
    assert_eq!(s.step(&step("read_db", &["a"])), Ok(Action::ReadDb("a".to_string())));
    assert_eq!(
        s.step(&step("read_liberty", &["-corner", "c", "l"])),
        Ok(Action::ReadLiberty("l".to_string()))
    );
    assert_eq!(s.step(&step("set_layer_rc", &[])), Ok(Action::SetLayerRc));
    assert_eq!(s.step(&step("set_wire_rc", &[])), Ok(Action::SetWireRc));
    assert_eq!(
        s.step(&step("estimate_parasitics", &["-spef_file", "f", "-placement"])),
        Ok(Action::Estimate)
    );
    assert_eq!(s.step(&step("define_corners", &["c1", "c2"])), Ok(Action::Done));
    assert_eq!(s.rc.scenes, texts(&["c1", "c2"]));
    assert_eq!(s.step(&step("create_clock", &["clk1"])), Ok(Action::Done));
    assert_eq!(s.step(&step("create_clock", &["clk2", "clk3"])), Ok(Action::Done));
    assert_eq!(s.clock_sources, texts(&["clk1", "clk2", "clk3"]));
    assert!(!s.propagated);
    assert_eq!(s.step(&step("set_propagated_clock", &[])), Ok(Action::Done));
    assert!(s.propagated);
}

#[test]
fn a_step_fails_by_name() {
    let mut s = Session::new();
    let mut fails = |t: Step| s.step(&t).unwrap_err();
    assert_eq!(fails(Step { cmd: None, args: None }), "cmd");
    assert_eq!(fails(step("read_lef", &[])), "read_lef path");
    assert_eq!(fails(step("read_def", &[])), "read_def path");
    assert_eq!(fails(step("read_db", &[])), "read_db path");
    assert_eq!(fails(step("read_liberty", &[])), "read_liberty path");
    assert_eq!(
        fails(step("estimate_parasitics", &["-global_routing"])),
        "estimate_parasitics without -placement: not modelled"
    );
    assert_eq!(fails(step("set_case_analysis", &[])), "step set_case_analysis: not modelled");
}

#[test]
fn units_come_from_a_library() {
    assert_eq!(need_rc_units(true), Ok(()));
    assert_eq!(
        need_rc_units(false).unwrap_err(),
        "RC before a liberty library: the timer's default units are not modelled"
    );
    assert_eq!(need_spef_units(true), Ok(()));
    assert_eq!(need_spef_units(false).unwrap_err(), "SPEF units need a liberty library");
}

#[test]
fn an_estimate_needs_capacitance() {
    let mut s = Session::new();
    assert!(!s.start_estimate("t", &vec![false]));
    with_signal_cap(&mut s);
    assert!(!s.start_estimate("t", &vec![true]));
    assert_eq!(s.estimates, 0);
    assert!(s.start_estimate("t", &vec![false]));
    assert_eq!(s.estimates, 1);
    s.step(&step("define_corners", &["a", "b"])).unwrap();
    assert!(!s.start_estimate("t", &vec![true, true]));
    assert!(s.start_estimate("t", &vec![false, false]));
    assert!(s.start_estimate("t", &vec![true, false]));
    assert_eq!(s.estimates, 3);
}

fn estimate_of(decision: Decision) -> NetEstimate {
    let drvr = if decision == Decision::NoDriver { None } else { text("d") };
    NetEstimate { net: "n".to_string(), drivers: usize::from(drvr.is_some()), drvr, decision }
}

fn begun() -> Session {
    let mut s = Session::new();
    with_signal_cap(&mut s);
    let lacking = vec![false; s.rc.scenes.len()];
    assert!(s.start_estimate("t", &lacking));
    s
}

#[test]
fn an_estimate_is_counted_and_traced() {
    let mut s = begun();
    s.finish_estimate("RC\n", &vec![estimate_of(Decision::Pad { pins: vec![] })]);
    assert_eq!(s.nets, 1);
    assert_eq!(s.trace_text, "RC\nVYGE|net|n|drivers=1|drvr=d\nVYGE|kind|n|pad\n");
    s.owe_spef("a.spef");
    assert_eq!(s.owed, vec![OwedSpef { corner: 0, file: "a.spef".to_string() }]);
    s.wrote_spef();
    assert!(s.owed.is_empty());
    assert_eq!(
        s.report(),
        Report::Done { estimates: 1, nets: 1, spef_files: texts(&["a.spef"]), log: vec![] }
    );
}

#[test]
fn a_run_that_estimated_no_net_is_vacuous() {
    let skipped = || {
        vec![
            estimate_of(Decision::NoDriver),
            estimate_of(Decision::Power),
            estimate_of(Decision::Ground),
            estimate_of(Decision::Special),
            estimate_of(Decision::Skip),
            estimate_of(Decision::NoTree { pinlocs: vec![], drvr_idx: None }),
        ]
    };
    let tree = || {
        estimate_of(Decision::Tree {
            tree: SteinerTree {
                pinlocs: vec![],
                tree: SttTree { deg: 0, branch: vec![] },
                drvr_pt: None,
            },
            drvr_idx: None,
            non_leaf_clock: false,
        })
    };
    let mut s = begun();
    s.finish_estimate("", &skipped());
    assert_eq!((s.estimates, s.nets), (1, 0));
    assert_eq!((s.report().status(), exit_for(s.report().status())), ("vacuous", 2));
    let mut nets = skipped();
    nets.push(tree());
    assert_eq!((count_estimated(&skipped()), count_estimated(&nets)), (0, 1));
    s.finish_estimate("", &nets);
    assert_eq!((s.report().status(), exit_for(s.report().status())), ("estimated", 0));
}

#[test]
fn every_corner_is_owed_a_spef_file() {
    assert_eq!(spef_files("o.spef", &texts(&["a"])), texts(&["o.spef"]));
    assert_eq!(
        spef_files("o.spef", &texts(&["slow", "fast"])),
        texts(&["o_slow.spef", "o_fast.spef"])
    );
    let mut s = begun();
    s.step(&step("define_corners", &["slow", "fast"])).unwrap();
    s.owe_spef("o.spef");
    let owed = |corner: usize, file: &str| OwedSpef { corner, file: file.to_string() };
    assert_eq!(s.owed, vec![owed(0, "o_slow.spef"), owed(1, "o_fast.spef")]);
    s.wrote_spef();
    assert_eq!(s.spef_files, texts(&["o_slow.spef"]));
    assert_eq!(s.owed, vec![owed(1, "o_fast.spef")]);
    s.wrote_spef();
    assert_eq!(s.spef_files, texts(&["o_slow.spef", "o_fast.spef"]));
    assert!(s.owed.is_empty());
}

#[test]
fn libraries_count_once_they_are_read() {
    let lib = LibertyClocks { cells: vec![] };
    let mut s = Session::new();
    s.step(&step("create_clock", &["clk"])).unwrap();
    assert!(s.timing(&lib).liberty.is_none());
    s.read_liberty();
    let t = s.timing(&lib);
    assert_eq!(t.liberty, Some(&lib));
    assert_eq!(t.clock_sources, texts(&["clk"]));
    assert!(!t.propagated);
}

#[test]
fn a_spef_file_is_asked_for() {
    assert_eq!(spef_path(&texts(&["-placement"])), Ok(None));
    assert_eq!(spef_path(&texts(&["-placement", "-spef_file", "o.spef"])), Ok(text("o.spef")));
    assert_eq!(
        spef_path(&texts(&["-placement", "-spef_file"])),
        Err("-spef_file needs a path".to_string())
    );
}

#[test]
fn a_corner_has_its_own_spef_file() {
    assert_eq!(spef_file("out.spef", "c", 1), "out.spef");
    assert_eq!(spef_file("out.spef", "fast", 2), "out_fast.spef");
    assert_eq!(spef_file("out.SPEF", "fast", 2), "out_fast.SPEF");
    assert_eq!(spef_file("out", "fast", 2), "out_fast");
    assert_eq!(spef_file("d.spef/out.spef", "slow", 3), "d.spef/out_slow.spef");
    assert_eq!(spef_file("dir.spef/out.SPEF", "ff", 2), "dir.spef/out_ff.SPEF");
    assert_eq!(spef_file("dir.SPEF/out.spef", "ff", 2), "dir.SPEF/out_ff.spef");
    assert_eq!(spef_file("out.spef.gz", "ff", 2), "out_ff.spef.gz");
    assert_ne!(spef_file("out.spef", "a", 2), spef_file("out.spef", "b", 2));
}

#[test]
fn packed_libraries_are_unpacked() {
    assert!(is_packed("cells.lib.gz"));
    assert!(!is_packed("cells.lib"));
    let pack = |s: &str| {
        let mut e = flate2::write::GzEncoder::new(Vec::new(), flate2::Compression::default());
        e.write_all(s.as_bytes()).unwrap();
        e.finish().unwrap()
    };
    let mut data = pack("library (");
    data.extend(pack("a) {}"));
    assert_eq!(unpack("l.gz", &data), Ok("library (a) {}".to_string()));
    let e = unpack("l.gz", &b"no gzip data".to_vec()).unwrap_err();
    assert!(e.starts_with("l.gz: "), "{e}");
    assert_eq!(name_text("a", Err("b".to_string())), Err("a: b".to_string()));
    assert_eq!(name_text("a", Ok("b".to_string())), Ok("b".to_string()));
}

#[test]
fn a_report_has_a_status() {
    let done = |nets: usize| Report::Done { estimates: 1, nets, spef_files: vec![], log: vec![] };
    assert_eq!(done(0).status(), "vacuous");
    assert_eq!(done(1).status(), "estimated");
    assert_eq!(Session::new().report().status(), "vacuous");
    let failed = |s: &str| Report::Failed { reason: s.to_string() };
    assert_eq!(failed("step x: not modelled").status(), "refused");
    assert_eq!(failed("cmd").status(), "error");
    let unreadable = Report::Unreadable { reason: "not modelled".to_string() };
    assert_eq!(unreadable.status(), "error");
    assert_eq!(unreadable.reason(), Some("not modelled"));
    assert_eq!(failed("cmd").reason(), Some("cmd"));
    assert_eq!(done(1).reason(), None);
}

#[test]
fn a_report_is_one_line_of_json() {
    let report = Report::Done {
        estimates: 1,
        nets: 412,
        spef_files: texts(&["out.spef", "o\"2"]),
        log: vec![],
    };
    assert_eq!(
        report.json(),
        "{\"estimates\":1,\"log\":[],\"nets\":412,\"spef_files\":[\"out.spef\",\"o\\\"2\"],\"status\":\"estimated\",\"tool\":\"vyges-est\"}\n"
    );
    assert_eq!(report.census(), "estimates=1 nets=412 spef_files=2");
    let odd = "a\\b\"c\nd\te\r\u{8}\u{c}\u{1}\u{1f}\u{7f}é/";
    let failed = Report::Failed { reason: odd.to_string() };
    assert_eq!(
        failed.json(),
        "{\"reason\":\"a\\\\b\\\"c\\nd\\te\\r\\b\\f\\u0001\\u001f\u{7f}é/\",\"status\":\"error\",\"tool\":\"vyges-est\"}\n"
    );
    let v: serde_json::Value = serde_json::from_str(&failed.json()).unwrap();
    assert_eq!(v["reason"], odd);
    assert_eq!(failed.json(), format!("{v}\n"));
}

#[test]
fn what_is_not_modelled_is_refused() {
    let reasons = [
        "step set_case_analysis: not modelled",
        "estimate_parasitics without -placement: not modelled",
        "RC before a liberty library: the timer's default units are not modelled",
        "net n: driven by a constant (tie) output — isConstant is not modelled",
        "via chain from layer 5 to 6: a step with no node — not modelled",
        "set_wire_rc -redistribution_layer: RDL chips are not modelled",
    ];
    for reason in reasons {
        let report = Report::Failed { reason: reason.to_string() };
        assert_eq!((report.status(), exit_for(report.status())), ("refused", 3), "{reason}");
    }
    let failed = Report::Failed { reason: "read_lef path".to_string() };
    assert_eq!((failed.status(), exit_for(failed.status())), ("error", 2));
}

#[test]
fn a_job_without_steps_is_at_fault() {
    let job = read_job("j", "{\"steps\": 3}").unwrap();
    assert_eq!(job.steps(), Err("steps".to_string()));
    let job = read_job("j", "{\"steps\": [{\"cmd\": \"a\"}]}").unwrap();
    assert_eq!(job.steps(), Ok(&vec![Step { cmd: text("a"), args: None }]));
}
