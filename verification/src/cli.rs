//! The command line: what is asked for, what is answered, and how a run ends.

use vstd::prelude::*;
use vstd::string::*;

use crate::text;
use crate::text::{begins_with, framed, replace, same};

verus! {

/// The help text.
pub const USAGE: &'static str = "\
vyges loom est — parasitic estimation: the RC network of every placed net, as SPEF

USAGE:
  vyges loom est estimate <job.json> [-o FILE]
  vyges loom est --describe
  vyges loom est --help
  vyges loom est --version

JOB FIELDS:
  steps     required — the commands in order, each {\"cmd\": ..., \"args\": [...]}:
              read_lef, read_def, read_db, read_liberty [-corner c], define_corners,
              create_clock <sources>, set_propagated_clock, set_layer_rc, set_wire_rc,
              estimate_parasitics -placement [-spef_file F]
  alpha     the Steiner builder's Prim-Dijkstra alpha (default 0.3)
  trace     write the RC state and one decision line per net to this path

OPTIONS:
  -o FILE               write the JSON report to FILE instead of stdout
  --json                accepted; the report is JSON either way
  --describe            print a machine-readable JSON description of the command
  --bug-report          file a bug (central: vyges/community)
  --feature-request     request a feature (central)
  --sponsor             sponsor Vyges (github.com/sponsors/vyges-ip)
  --star                star this tool on GitHub

EXIT STATUS:
  0  estimated    at least one net was estimated and every requested SPEF was written
  2  vacuous      no net was estimated — no estimate step, or every corner lacked wire
                  capacitance (EST-0018). NOT a pass.
  2  error        usage, unreadable input, or a step that failed
  3  refused      a step or an option this engine does not model — see `reason`
";

/// Stands in [`DESCRIBE`] where the pin goes: the OpenROAD commit that the program was
/// built against.
pub const PIN_TOKEN: &'static str = "@OPENROAD_PIN@";

/// The machine-readable description of the command, with [`PIN_TOKEN`] for the pin.
pub const DESCRIBE: &'static str = r#"{
  "schema": "vyges-tool-descriptor/1.1",
  "openroad_pin": "@OPENROAD_PIN@",
  "name": "est",
  "summary": "parasitic estimation from placement: a Steiner tree per net, its RC network per corner, written as SPEF",
  "maturity": "structured",
  "provenance_limitations": [
    "input_hash covers the argument vector, not the content of the job file or of the design files it names.",
    "status is one of estimated, vacuous, refused or error. VACUOUS IS NOT ESTIMATED: no net was estimated, either because no estimate step ran or because every corner lacked signal wire capacitance (EST-0018, where the reference estimates nothing either). The declared assertion passes only on estimated. Exit status is 0 for estimated, 2 for vacuous and for error, 3 for refused.",
    "Correlated against OpenROAD at pin da9f29f18b6487825aa880597176e0fa97110b31, 2026-09-23, comparing every SPEF byte for byte against a fresh reference run: 8 of 9 cases of the reference's own estimate_parasitics -placement tests, and 180 of 186 cases across the rest of its regression suite that call it, 21,289 nets, 0 differing lines. The one own case not scored, prima_net_recycle, edits the design through the database's Tcl API and selects a delay calculator, which a job cannot express. Of the six corpus cases not scored, four are refusals named below, one sets set_layer_rc after a set_wire_rc read from the database (an ordering the job replay does not reproduce), and one fails in the reference itself. A NUMBER HERE MEANS NOTHING WITHOUT THE BUILD: the pin is part of the claim.",
    "Only -placement is modelled. estimate_parasitics -global_routing is refused as a command; the library's global-route network (the wire module) is used by the router, not by this command.",
    "REFUSED rather than approximated: liberty bus, bundle, ff_bank and latch_bank groups; a net driven by a tie cell's constant output; set_case_analysis, set_logic_*, set_disable_timing, create_generated_clock, set_sense and set_clock_sense, which change which pins are clocks without touching the database.",
    "Units, cell clock pins and constant outputs come from the FIRST liberty library read, as the timer's do. RC commands before any liberty read are refused: the timer's default units are not modelled.",
    "Every value is single precision where the reference's is: Tcl doubles are narrowed to float at the command boundary, resistances and capacitances are summed as float, and SPEF values are printed as %g with six significant digits after a float division by the unit scale.",
    "The Steiner tree is built by vyges-stt, which is correlated separately."
  ],
  "invocation": {
    "args_template": ["estimate", "{job}"],
    "optional": [ { "arg": "out", "flag": "-o" } ],
    "emits_json": true
  },
  "inputs": {
    "type": "object",
    "required": ["job"],
    "properties": {
      "job": { "type": "string", "description": "path to a JSON job: {steps: [{cmd, args}], alpha, trace}" },
      "out": { "type": "string", "description": "write the JSON report to FILE instead of stdout" }
    }
  },
  "consumes": ["job"],
  "artifacts": [ { "role": "spef", "field": "spef_files" } ],
  "assertion": {
    "id": "parasitics-estimated",
    "field": "status",
    "pass_when": { "eq": "estimated" }
  }
}"#;

/// The machine-readable description of the command, with the pin in it.
pub fn describe(pin: &str) -> (r: String)
    ensures
        r@ == text::replaced(DESCRIBE@, PIN_TOKEN@, pin@),
{
    proof {
        reveal_strlit("@OPENROAD_PIN@");
    }
    replace(DESCRIBE, PIN_TOKEN, pin)
}

/// A flag that leads to a page: the page's label and address.
pub open spec fn link_of(flag: Seq<char>) -> Option<(Seq<char>, Seq<char>)> {
    if flag == "--bug-report"@ {
        Some(
            (
                "Report a bug"@,
                "https://github.com/vyges/community/issues/new?template=bug_report_template.yaml"@,
            ),
        )
    } else if flag == "--feature-request"@ {
        Some(
            (
                "Request a feature"@,
                "https://github.com/vyges/community/issues/new?labels=enhancement"@,
            ),
        )
    } else if flag == "--sponsor"@ {
        Some(("Sponsor Vyges"@, "https://github.com/sponsors/vyges-ip"@))
    } else if flag == "--star"@ {
        Some(("Star this tool"@, "https://github.com/vyges-tools/est"@))
    } else {
        None
    }
}

/// A label and an address as sequences.
pub open spec fn link_view(r: Option<(&'static str, &'static str)>) -> Option<
    (Seq<char>, Seq<char>),
> {
    match r {
        Some(p) => Some((p.0@, p.1@)),
        None => None,
    }
}

/// A flag that leads to a page: the page's label and address.
pub fn link(flag: &str) -> (r: Option<(&'static str, &'static str)>)
    ensures
        link_view(r) == link_of(flag@),
{
    if same(flag, "--bug-report") {
        Some(
            (
                "Report a bug",
                "https://github.com/vyges/community/issues/new?template=bug_report_template.yaml",
            ),
        )
    } else if same(flag, "--feature-request") {
        Some(
            (
                "Request a feature",
                "https://github.com/vyges/community/issues/new?labels=enhancement",
            ),
        )
    } else if same(flag, "--sponsor") {
        Some(("Sponsor Vyges", "https://github.com/sponsors/vyges-ip"))
    } else if same(flag, "--star") {
        Some(("Star this tool", "https://github.com/vyges-tools/est"))
    } else {
        None
    }
}

/// The exit status of a run: 0 for `estimated`, 3 for `refused`, else 2.
pub open spec fn exit_code(status: Seq<char>) -> u8 {
    if status == "estimated"@ {
        0
    } else if status == "refused"@ {
        3
    } else {
        2
    }
}

/// The exit status of a run.
pub fn exit_for(status: &str) -> (r: u8)
    ensures
        r == exit_code(status@),
{
    if same(status, "estimated") {
        0
    } else if same(status, "refused") {
        3
    } else {
        2
    }
}

/// How grave an event is.
#[derive(Debug, Clone, Copy, PartialEq, Eq, Structural)]
pub enum Severity {
    Info,
    Warn,
    Error,
}

/// The event of a run's outcome.
#[derive(Debug, PartialEq, Eq)]
pub struct Outcome {
    /// `EST-DONE`, `EST-REFUSED` or `EST-ERROR`.
    pub code: &'static str,
    pub severity: Severity,
    pub text: String,
}

/// An outcome's code.
pub open spec fn outcome_code(status: Seq<char>) -> Seq<char> {
    if status == "refused"@ {
        "EST-REFUSED"@
    } else if status == "error"@ {
        "EST-ERROR"@
    } else {
        "EST-DONE"@
    }
}

/// An outcome's severity: a run that ended in neither refusal nor error is only to be noted where
/// its status is the pass word.
pub open spec fn outcome_severity(status: Seq<char>, pass: Seq<char>) -> Severity {
    if status == "refused"@ || status == "error"@ {
        Severity::Error
    } else if status == pass {
        Severity::Info
    } else {
        Severity::Warn
    }
}

/// The event of a run's outcome, from its status, the reason where there is one, and the census of
/// what it did.
pub fn outcome(status: &str, pass: &str, reason: Option<&str>, census: &str) -> (r: Outcome)
    ensures
        r.code@ == outcome_code(status@),
        r.severity == outcome_severity(status@, pass@),
        r.text@ == status@ + ": "@ + match reason {
            Some(s) => s@,
            None => census@,
        },
{
    let (code, severity): (&'static str, Severity) = if same(status, "refused") {
        ("EST-REFUSED", Severity::Error)
    } else if same(status, "error") {
        ("EST-ERROR", Severity::Error)
    } else if same(status, pass) {
        ("EST-DONE", Severity::Info)
    } else {
        ("EST-DONE", Severity::Warn)
    };
    let said = match reason {
        Some(s) => s,
        None => census,
    };
    Outcome { code, severity, text: framed(status, ": ", said) }
}

/// What a command line asks for.
#[derive(Debug, PartialEq, Eq)]
pub enum Command {
    /// `-o` without a file.
    NoFile,
    /// An option, after the command, that is not known.
    Unknown(String),
    Help,
    Version,
    Describe,
    /// A page, by its flag.
    Link(String),
    /// A job, and the file the report goes to.
    Estimate { job: String, out: Option<String> },
    /// Neither of these.
    Usage,
}

/// A [`Command`] with its texts as sequences.
pub enum CommandView {
    NoFile,
    Unknown(Seq<char>),
    Help,
    Version,
    Describe,
    Link(Seq<char>),
    Estimate { job: Seq<char>, out: Option<Seq<char>> },
    Usage,
}

/// A text, where there is one, as a sequence.
pub open spec fn option_view(s: Option<String>) -> Option<Seq<char>> {
    match s {
        Some(t) => Some(t@),
        None => None,
    }
}

impl View for Command {
    type V = CommandView;

    open spec fn view(&self) -> CommandView {
        match self {
            Command::NoFile => CommandView::NoFile,
            Command::Unknown(s) => CommandView::Unknown(s@),
            Command::Help => CommandView::Help,
            Command::Version => CommandView::Version,
            Command::Describe => CommandView::Describe,
            Command::Link(s) => CommandView::Link(s@),
            Command::Estimate { job, out } => CommandView::Estimate {
                job: job@,
                out: option_view(*out),
            },
            Command::Usage => CommandView::Usage,
        }
    }
}

/// What the words that are no options ask for.
pub open spec fn words_command(words: Seq<Seq<char>>, out: Option<Seq<char>>) -> CommandView {
    if words.len() == 0 || words[0] == "-h"@ || words[0] == "--help"@ {
        CommandView::Help
    } else if words[0] == "-V"@ || words[0] == "--version"@ {
        CommandView::Version
    } else if words[0] == "--describe"@ {
        CommandView::Describe
    } else if link_of(words[0]) is Some {
        CommandView::Link(words[0])
    } else if words[0] == "estimate"@ && words.len() == 2 {
        CommandView::Estimate { job: words[1], out }
    } else {
        CommandView::Usage
    }
}

/// What arguments ask for, after the words and the report's file that came before them: `-o` takes
/// the next argument, `--json` says nothing, and after the first word no other option is known.
pub open spec fn command_from(
    args: Seq<Seq<char>>,
    out: Option<Seq<char>>,
    words: Seq<Seq<char>>,
) -> CommandView
    decreases args.len(),
{
    if args.len() == 0 {
        words_command(words, out)
    } else if args[0] == "-o"@ {
        if args.len() == 1 {
            CommandView::NoFile
        } else {
            command_from(args.skip(2), Some(args[1]), words)
        }
    } else if args[0] == "--json"@ {
        command_from(args.skip(1), out, words)
    } else if text::begins(args[0], "-"@) && words.len() > 0 {
        CommandView::Unknown(args[0])
    } else {
        command_from(args.skip(1), out, words.push(args[0]))
    }
}

fn command_of_words(words: &Vec<String>, out: Option<String>) -> (r: Command)
    ensures
        r@ == words_command(text::views(words@), option_view(out)),
{
    if words.len() == 0 {
        return Command::Help;
    }
    assert(text::views(words@)[0] == words@[0]@);
    let first = words[0].as_str();
    if same(first, "-h") || same(first, "--help") {
        Command::Help
    } else if same(first, "-V") || same(first, "--version") {
        Command::Version
    } else if same(first, "--describe") {
        Command::Describe
    } else if link(first).is_some() {
        Command::Link(first.to_owned())
    } else if same(first, "estimate") && words.len() == 2 {
        Command::Estimate { job: words[1].clone(), out }
    } else {
        Command::Usage
    }
}

/// What a command line asks for: its arguments, without the program's own name.
pub fn parse_command(args: &Vec<String>) -> (r: Command)
    ensures
        r@ == command_from(text::views(args@), None, Seq::empty()),
{
    let n: usize = args.len();
    let mut out: Option<String> = None;
    let mut words: Vec<String> = Vec::new();
    let mut i: usize = 0;
    assert(text::views(words@) =~= Seq::empty());
    assert(text::views(args@).skip(0) =~= text::views(args@));
    while i < n
        invariant
            n == args@.len(),
            i <= n,
            command_from(text::views(args@), None, Seq::empty()) == command_from(
                text::views(args@).skip(i as int),
                option_view(out),
                text::views(words@),
            ),
        decreases n - i,
    {
        let a = args[i].as_str();
        let ghost rest = text::views(args@).skip(i as int);
        assert(rest[0] == a@);
        assert(rest.skip(1) =~= text::views(args@).skip(i + 1));
        if same(a, "-o") {
            if i + 1 < n {
                assert(rest[1] == args@[i + 1]@);
                assert(rest.skip(2) =~= text::views(args@).skip(i + 2));
                out = Some(args[i + 1].clone());
                i = i + 1;
            } else {
                return Command::NoFile;
            }
        } else if same(a, "--json") {
        } else if begins_with(a, "-") && words.len() > 0 {
            return Command::Unknown(a.to_owned());
        } else {
            let ghost before = words@;
            words.push(a.to_owned());
            assert(text::views(words@) =~= text::views(before).push(a@));
        }
        i = i + 1;
    }
    command_of_words(&words, out)
}

/// What is answered to a command line that asks for no estimate.
#[derive(Debug, PartialEq, Eq)]
pub struct Reply {
    pub text: String,
    /// It goes where errors go.
    pub is_error: bool,
    /// The exit status.
    pub code: u8,
}

/// The answer's text.
pub open spec fn reply_text(
    c: CommandView,
    version: Seq<char>,
    commit: Seq<char>,
    pin: Seq<char>,
) -> Seq<char> {
    match c {
        CommandView::NoFile => "vyges-est: -o needs a FILE\n"@,
        CommandView::Unknown(s) => "vyges-est: unknown option "@ + s + "\n\n"@ + USAGE@ + "\n"@,
        CommandView::Version => "vyges-est "@ + version + " ("@ + commit
            + ")\nCopyright (c) Vyges. Apache-2.0.\n"@,
        CommandView::Describe => text::replaced(DESCRIBE@, PIN_TOKEN@, pin) + "\n"@,
        CommandView::Link(flag) => match link_of(flag) {
            Some(p) => p.0 + ":\n  "@ + p.1 + "\n"@,
            None => USAGE@,
        },
        _ => USAGE@,
    }
}

/// The command line was at fault.
pub open spec fn is_fault(c: CommandView) -> bool {
    match c {
        CommandView::NoFile => true,
        CommandView::Unknown(_) => true,
        CommandView::Usage => true,
        CommandView::Link(flag) => link_of(flag) is None,
        _ => false,
    }
}

/// What is answered to a command line; nothing yet where it asks for an estimate. A fault is
/// answered where errors go, with status 2.
pub fn reply(c: &Command, version: &str, commit: &str, pin: &str) -> (r: Option<Reply>)
    ensures
        r is None <==> c@ is Estimate,
        r matches Some(a) ==> a.text@ == reply_text(c@, version@, commit@, pin@) && a.is_error
            == is_fault(c@) && a.code == if is_fault(c@) {
            2u8
        } else {
            0u8
        },
{
    match c {
        Command::Estimate { .. } => None,
        Command::NoFile => Some(
            Reply { text: "vyges-est: -o needs a FILE\n".to_owned(), is_error: true, code: 2 },
        ),
        Command::Unknown(s) => {
            let mut t = framed("vyges-est: unknown option ", s.as_str(), "\n\n");
            t.append(USAGE);
            t.append("\n");
            Some(Reply { text: t, is_error: true, code: 2 })
        },
        Command::Version => {
            let mut t = framed("vyges-est ", version, " (");
            t.append(commit);
            t.append(")\nCopyright (c) Vyges. Apache-2.0.\n");
            Some(Reply { text: t, is_error: false, code: 0 })
        },
        Command::Describe => {
            let mut t = describe(pin);
            t.append("\n");
            Some(Reply { text: t, is_error: false, code: 0 })
        },
        Command::Link(flag) => match link(flag.as_str()) {
            Some(p) => {
                let mut t = framed(p.0, ":\n  ", p.1);
                t.append("\n");
                Some(Reply { text: t, is_error: false, code: 0 })
            },
            None => Some(Reply { text: USAGE.to_owned(), is_error: true, code: 2 }),
        },
        Command::Help => Some(Reply { text: USAGE.to_owned(), is_error: false, code: 0 }),
        Command::Usage => Some(Reply { text: USAGE.to_owned(), is_error: true, code: 2 }),
    }
}

/// Only `estimated` exits with 0.
pub proof fn law_only_estimated_exits_zero(status: Seq<char>)
    ensures
        exit_code(status) == 0 <==> status == "estimated"@,
{
}

proof fn lemma_replaced_holds(s: Seq<char>, from: Seq<char>, to: Seq<char>, c: char)
    requires
        text::replaced(s, from, to).contains(c),
    ensures
        to.contains(c) || text::replaced(s, from, Seq::empty()).contains(c),
    decreases s.len(),
{
    if s.len() > 0 {
        let all = text::replaced(s, from, to);
        let none = text::replaced(s, from, Seq::empty());
        let k = choose|k: int| 0 <= k < all.len() && all[k] == c;
        if from.len() > 0 && text::occurs_at(s, from, 0) {
            let rest = s.skip(from.len() as int);
            assert(none =~= text::replaced(rest, from, Seq::empty()));
            if k < to.len() {
                assert(to[k] == c);
            } else {
                assert(text::replaced(rest, from, to)[k - to.len()] == c);
                lemma_replaced_holds(rest, from, to, c);
            }
        } else {
            let rest = s.skip(1);
            if k == 0 {
                assert(none[0] == c);
            } else {
                assert(text::replaced(rest, from, to)[k - 1] == c);
                lemma_replaced_holds(rest, from, to, c);
                if !to.contains(c) {
                    let j = choose|j: int|
                        0 <= j < text::replaced(rest, from, Seq::empty()).len() && text::replaced(
                            rest,
                            from,
                            Seq::empty(),
                        )[j] == c;
                    assert(none[j + 1] == c);
                }
            }
        }
    }
}

/// No token survives its replacement, where the token's first character stands neither in what
/// replaces it nor in the text beside the tokens.
pub proof fn law_no_token_survives(s: Seq<char>, token: Seq<char>, to: Seq<char>)
    requires
        token.len() > 0,
        !to.contains(token[0]),
        !text::replaced(s, token, Seq::empty()).contains(token[0]),
    ensures
        !text::occurs(text::replaced(s, token, to), token),
{
    let all = text::replaced(s, token, to);
    if text::occurs(all, token) {
        let i = choose|i: int| text::occurs_at(all, token, i);
        assert(all.subrange(i, i + token.len())[0] == token[0]);
        assert(all[i] == token[0]);
        lemma_replaced_holds(s, token, to, token[0]);
    }
}

} // verus!
