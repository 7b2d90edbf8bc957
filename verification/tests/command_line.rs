//! The command line, its help and its description.

use vyges_est::cli::{
    describe, exit_for, link, outcome, parse_command, reply, Command, Severity, DESCRIBE, PIN_TOKEN,
    USAGE,
};
use vyges_est::job::Step;
use vyges_est::report::Report;
use vyges_est::session::Session;

const PIN: &str = "da9f29f18b6487825aa880597176e0fa97110b31";

/// The page of the book that holds the command's help.
const PAGE: &str = r##"# vyges loom est — CLI reference

_Generated from `vyges loom est --help` — this page is the tool's own output, verbatim._

```text
vyges loom est — parasitic estimation: the RC network of every placed net, as SPEF

USAGE:
  vyges loom est estimate <job.json> [-o FILE]
  vyges loom est --describe
  vyges loom est --help
  vyges loom est --version

JOB FIELDS:
  steps     required — the commands in order, each {"cmd": ..., "args": [...]}:
              read_lef, read_def, read_db, read_liberty [-corner c], define_corners,
              create_clock <sources>, set_propagated_clock, set_layer_rc, set_wire_rc,
              estimate_parasitics -placement [-spef_file F]
  alpha     the Steiner builder's Prim-Dijkstra alpha (default 0.3)
  trace     write the RC state and one decision line per net to this path

OPTIONS:
  -o FILE               write the JSON report to FILE instead of stdout
  --json                accepted; the report is JSON either way
  --describe            print a machine-readable JSON description of the command
  --bug-report          file a bug (central: vyges/community)
  --feature-request     request a feature (central)
  --sponsor             sponsor Vyges (github.com/sponsors/vyges-ip)
  --star                star this tool on GitHub

EXIT STATUS:
  0  estimated    at least one net was estimated and every requested SPEF was written
  2  vacuous      no net was estimated — no estimate step, or every corner lacked wire
                  capacitance (EST-0018). NOT a pass.
  2  error        usage, unreadable input, or a step that failed
  3  refused      a step or an option this engine does not model — see `reason`
```
"##;

fn json() -> serde_json::Value {
    serde_json::from_str(DESCRIBE).expect("--describe must be valid JSON")
}

fn words(s: &[&str]) -> Vec<String> {
    s.iter().map(|w| w.to_string()).collect()
}

#[test]
fn the_descriptor_parses_and_carries_the_contract_fields() {
    let d = json();
    for k in [
        "schema",
        "openroad_pin",
        "name",
        "summary",
        "maturity",
        "provenance_limitations",
        "invocation",
        "inputs",
        "consumes",
        "artifacts",
        "assertion",
    ] {
        assert!(d.get(k).is_some(), "descriptor is missing `{k}`");
    }
    assert_eq!(d["schema"], "vyges-tool-descriptor/1.1");
    assert_eq!(d["name"], "est");
}

#[test]
fn maturity_is_one_of_the_three_legal_rungs() {
    let m = json()["maturity"].as_str().unwrap_or_default().to_string();
    assert!(["discovered", "structured", "workflow-validated"].contains(&m.as_str()), "{m}");
}

#[test]
fn the_descriptor_reports_the_pin_this_binary_was_built_against() {
    let d = describe(PIN);
    assert!(!d.contains(PIN_TOKEN), "the pin placeholder survived into the output");
    let v: serde_json::Value = serde_json::from_str(&d).expect("still valid JSON once filled in");
    assert_eq!(v["openroad_pin"], PIN);
    assert_eq!(PIN.len(), 40, "a full commit SHA, not an abbreviation");
    assert_eq!(json()["openroad_pin"], PIN_TOKEN, "the FIELD must be the token in the source");
}

#[test]
fn only_estimated_passes_and_exits_zero() {
    assert_eq!(json()["assertion"]["pass_when"]["eq"], "estimated");
    assert_eq!(exit_for("estimated"), 0);
    assert_eq!(exit_for("vacuous"), 2);
    assert_eq!(exit_for("error"), 2);
    assert_eq!(exit_for("refused"), 3);
    assert_eq!(exit_for("anything else"), 2);
}

#[test]
fn the_artifact_field_is_in_the_report() {
    let field = json()["artifacts"][0]["field"].as_str().unwrap().to_string();
    let report = Report::Done { estimates: 1, nets: 1, spef_files: vec![], log: vec![] };
    assert!(report.json().contains(&format!("\"{field}\":")), "report has no `{field}`");
}

#[test]
fn the_book_reference_is_the_usage_verbatim() {
    assert!(
        PAGE.contains(&format!("```text\n{USAGE}```")),
        "docs/src/reference/vyges-est.md is stale"
    );
}

#[test]
fn the_usage_documents_every_exit_status_and_step() {
    for w in ["0  estimated", "2  vacuous", "2  error", "3  refused"] {
        assert!(USAGE.contains(w), "USAGE is missing `{w}`");
    }
    for step in [
        "read_lef",
        "read_def",
        "read_db",
        "read_liberty",
        "define_corners",
        "create_clock",
        "set_propagated_clock",
        "set_layer_rc",
        "set_wire_rc",
        "estimate_parasitics",
    ] {
        assert!(USAGE.contains(step), "USAGE does not name the `{step}` step");
        let s = Step {
            cmd: Some(step.to_string()),
            args: Some(vec![Some("-placement".to_string())]),
        };
        assert!(Session::new().step(&s).is_ok(), "`{step}` is not a step");
    }
}

#[test]
fn no_token_survives_in_the_description() {
    assert_eq!(DESCRIBE.matches('@').count(), 2);
    assert_eq!(DESCRIBE.matches(PIN_TOKEN).count(), 1);
    assert_eq!(describe("abc").matches('@').count(), 0);
    assert!(describe("abc").contains("\"openroad_pin\": \"abc\""));
}

#[test]
fn links_lead_to_their_pages() {
    assert_eq!(
        link("--bug-report"),
        Some((
            "Report a bug",
            "https://github.com/vyges/community/issues/new?template=bug_report_template.yaml"
        ))
    );
    assert_eq!(
        link("--feature-request"),
        Some((
            "Request a feature",
            "https://github.com/vyges/community/issues/new?labels=enhancement"
        ))
    );
    assert_eq!(link("--sponsor"), Some(("Sponsor Vyges", "https://github.com/sponsors/vyges-ip")));
    assert_eq!(link("--star"), Some(("Star this tool", "https://github.com/vyges-tools/est")));
    assert_eq!(link("--stars"), None);
}

#[test]
fn an_outcome_names_its_situation() {
    let done = outcome("estimated", "estimated", None, "nets=3");
    assert_eq!((done.code, done.severity), ("EST-DONE", Severity::Info));
    assert_eq!(done.text, "estimated: nets=3");
    let nothing = outcome("vacuous", "estimated", None, "nets=0");
    assert_eq!((nothing.code, nothing.severity), ("EST-DONE", Severity::Warn));
    let refused = outcome("refused", "estimated", Some("not modelled"), "nets=0");
    assert_eq!((refused.code, refused.severity), ("EST-REFUSED", Severity::Error));
    assert_eq!(refused.text, "refused: not modelled");
    let failed = outcome("error", "estimated", Some("x: y"), "");
    assert_eq!((failed.code, failed.severity), ("EST-ERROR", Severity::Error));
    assert_eq!(failed.text, "error: x: y");
}

#[test]
fn a_command_line_asks_for_an_estimate() {
    assert_eq!(
        parse_command(&words(&["estimate", "job.json"])),
        Command::Estimate { job: "job.json".to_string(), out: None }
    );
    for args in [["estimate", "job.json", "-o", "r.json"], ["-o", "r.json", "estimate", "job.json"]]
    {
        assert_eq!(
            parse_command(&words(&args)),
            Command::Estimate { job: "job.json".to_string(), out: Some("r.json".to_string()) }
        );
    }
    assert_eq!(
        parse_command(&words(&["--json", "estimate", "--json", "j"])),
        Command::Estimate { job: "j".to_string(), out: None }
    );
}

#[test]
fn a_command_line_asks_for_something_else() {
    assert_eq!(parse_command(&words(&[])), Command::Help);
    assert_eq!(parse_command(&words(&["-h"])), Command::Help);
    assert_eq!(parse_command(&words(&["--help"])), Command::Help);
    assert_eq!(parse_command(&words(&["-V"])), Command::Version);
    assert_eq!(parse_command(&words(&["--version"])), Command::Version);
    assert_eq!(parse_command(&words(&["--describe"])), Command::Describe);
    assert_eq!(parse_command(&words(&["--star"])), Command::Link("--star".to_string()));
    assert_eq!(parse_command(&words(&["estimate"])), Command::Usage);
    assert_eq!(parse_command(&words(&["estimate", "a", "b"])), Command::Usage);
    assert_eq!(parse_command(&words(&["--nothing"])), Command::Usage);
    assert_eq!(parse_command(&words(&["estimate", "j", "-o"])), Command::NoFile);
    assert_eq!(parse_command(&words(&["estimate", "-x"])), Command::Unknown("-x".to_string()));
}

#[test]
fn a_command_line_is_answered() {
    let answer = |args: &[&str]| reply(&parse_command(&words(args)), "0.1.0", "abc", PIN);
    assert!(answer(&["estimate", "j"]).is_none());
    let help = answer(&["--help"]).unwrap();
    assert_eq!((help.text.as_str(), help.is_error, help.code), (USAGE, false, 0));
    let fault = answer(&["estimate"]).unwrap();
    assert_eq!((fault.text.as_str(), fault.is_error, fault.code), (USAGE, true, 2));
    let no_file = answer(&["-o"]).unwrap();
    assert_eq!(no_file.text, "vyges-est: -o needs a FILE\n");
    assert_eq!((no_file.is_error, no_file.code), (true, 2));
    let unknown = answer(&["estimate", "-x"]).unwrap();
    assert_eq!(unknown.text, format!("vyges-est: unknown option -x\n\n{USAGE}\n"));
    assert_eq!((unknown.is_error, unknown.code), (true, 2));
    let version = answer(&["-V"]).unwrap();
    assert_eq!(version.text, "vyges-est 0.1.0 (abc)\nCopyright (c) Vyges. Apache-2.0.\n");
    assert_eq!((version.is_error, version.code), (false, 0));
    assert_eq!(answer(&["--describe"]).unwrap().text, format!("{}\n", describe(PIN)));
    assert_eq!(
        answer(&["--sponsor"]).unwrap().text,
        "Sponsor Vyges:\n  https://github.com/sponsors/vyges-ip\n"
    );
}
