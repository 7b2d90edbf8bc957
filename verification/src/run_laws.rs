//! What a run's steps do, which files it writes, and what a command line asks for.

use vstd::prelude::*;
use vstd::string::*;

use crate::args;
use crate::cli;
use crate::cli::CommandView;
use crate::corner;
use crate::db;
use crate::job::StepView;
use crate::network::{Parasitic, ParasiticView};
use crate::placement::{DecisionView, NetEstimateView};
use crate::rc;
use crate::rc::RcView;
use crate::report;
use crate::session;
use crate::session::{ActionView, SessionView};
use crate::spef;
use crate::spef::{NetValues, SpefUnits};
use crate::steiner;
use crate::steiner::CtxView;
use crate::text;
use crate::text_laws;

verus! {

/// A step changes nothing of the state but this: `define_corners` puts its words in place of the
/// corners, `create_clock` adds its words to the clock sources behind those that are there, and
/// `set_propagated_clock` makes the clocks propagated, for good.
pub proof fn law_what_a_step_changes(s: SessionView, step: StepView)
    ensures
        ({
            let after = session::stepped(s, step);
            &&& after.rc.scenes == if step.cmd == Some("define_corners"@) {
                step.words()
            } else {
                s.rc.scenes
            }
            &&& after.clock_sources == if step.cmd == Some("create_clock"@) {
                s.clock_sources + step.words()
            } else {
                s.clock_sources
            }
            &&& after.propagated <==> s.propagated || step.cmd == Some("set_propagated_clock"@)
            &&& after.rc.wire_rc == s.rc.wire_rc
            &&& after.rc.layer_res == s.rc.layer_res
            &&& after.rc.layer_cap == s.rc.layer_cap
            &&& after.rc.log == s.rc.log
            &&& after.have_lib == s.have_lib
            &&& after.estimates == s.estimates
            &&& after.nets == s.nets
            &&& after.spef_files == s.spef_files
            &&& after.owed == s.owed
            &&& after.trace_text == s.trace_text
        }),
{
    reveal_strlit("define_corners");
    reveal_strlit("create_clock");
    reveal_strlit("set_propagated_clock");
    assert("define_corners"@[0] == 'd');
    assert("create_clock"@[0] == 'c');
    assert("set_propagated_clock"@[0] == 's');
}

/// A step asks for one thing by its name: to read the file that its last word names, as the kind of
/// file that it says; to set RC; or to estimate, with `-placement` among its words. Nothing else is
/// asked for by any other name.
pub proof fn law_what_a_step_asks_for(step: StepView, file: Seq<char>)
    ensures
        ({
            let asked = session::asked(step);
            let words = step.words();
            let reads = words.len() > 0 && words.last() == file;
            &&& asked == Ok::<ActionView, Seq<char>>(ActionView::ReadLef(file)) <==> step.cmd == Some(
                "read_lef"@,
            ) && reads
            &&& asked == Ok::<ActionView, Seq<char>>(ActionView::ReadDef(file)) <==> step.cmd == Some(
                "read_def"@,
            ) && reads
            &&& asked == Ok::<ActionView, Seq<char>>(ActionView::ReadDb(file)) <==> step.cmd == Some(
                "read_db"@,
            ) && reads
            &&& asked == Ok::<ActionView, Seq<char>>(ActionView::ReadLiberty(file)) <==> step.cmd
                == Some("read_liberty"@) && reads
            &&& asked == Ok::<ActionView, Seq<char>>(ActionView::SetLayerRc) <==> step.cmd == Some(
                "set_layer_rc"@,
            )
            &&& asked == Ok::<ActionView, Seq<char>>(ActionView::SetWireRc) <==> step.cmd == Some(
                "set_wire_rc"@,
            )
            &&& asked == Ok::<ActionView, Seq<char>>(ActionView::Estimate) <==> step.cmd == Some(
                "estimate_parasitics"@,
            ) && words.contains("-placement"@)
            &&& asked == Ok::<ActionView, Seq<char>>(ActionView::Done) <==> step.cmd == Some(
                "define_corners"@,
            ) || step.cmd == Some("create_clock"@) || step.cmd == Some("set_propagated_clock"@)
        }),
{
    lemma_step_names();
}

proof fn lemma_step_names()
    ensures
        "read_lef"@ != "read_def"@,
        "read_lef"@ != "read_db"@,
        "read_lef"@ != "read_liberty"@,
        "read_def"@ != "read_db"@,
        "read_def"@ != "read_liberty"@,
        "read_db"@ != "read_liberty"@,
        forall|cmd: Seq<char>|
            (cmd == "read_lef"@ || cmd == "read_def"@ || cmd == "read_db"@ || cmd == "read_liberty"@)
                ==> #[trigger] cmd[0] == 'r',
        "define_corners"@[0] == 'd',
        "create_clock"@[0] == 'c',
        "set_propagated_clock"@[0] == 's',
        "set_propagated_clock"@[4] == 'p',
        "set_layer_rc"@[0] == 's',
        "set_layer_rc"@[4] == 'l',
        "set_wire_rc"@[0] == 's',
        "set_wire_rc"@[4] == 'w',
        "estimate_parasitics"@[0] == 'e',
{
    reveal_strlit("read_lef");
    reveal_strlit("read_def");
    reveal_strlit("read_db");
    reveal_strlit("read_liberty");
    reveal_strlit("define_corners");
    reveal_strlit("create_clock");
    reveal_strlit("set_propagated_clock");
    reveal_strlit("set_layer_rc");
    reveal_strlit("set_wire_rc");
    reveal_strlit("estimate_parasitics");
    assert("read_lef"@[5] == 'l' && "read_lef"@[6] == 'e' && "read_lef"@.len() == 8);
    assert("read_def"@[5] == 'd' && "read_def"@[6] == 'e');
    assert("read_db"@[5] == 'd' && "read_db"@[6] == 'b');
    assert("read_liberty"@[5] == 'l' && "read_liberty"@.len() == 12);
}

/// An estimate is made exactly where some signal wire has capacitance by a command and, where there
/// are corners, one of them at least does not lack signal wire capacitance.
pub proof fn law_when_an_estimate_is_made(rc: RcView, tech: Seq<char>, lacking: Seq<bool>)
    ensures
        session::can_estimate(rc, tech, lacking) <==> rc::resolved_list::<rc::SignalCap>(
            rc.wire_rc,
            tech,
        ).len() > 0 && (lacking.len() == 0 || exists|i: int|
            0 <= i < lacking.len() && !#[trigger] lacking[i]),
{
    if lacking.contains(false) {
        let i = choose|i: int| 0 <= i < lacking.len() && lacking[i] == false;
        assert(!lacking[i]);
    }
    if exists|i: int| 0 <= i < lacking.len() && !#[trigger] lacking[i] {
        let i = choose|i: int| 0 <= i < lacking.len() && !#[trigger] lacking[i];
        assert(lacking[i] == false);
    }
}

/// The SPEF of an estimate goes to the word behind the first `-spef_file`; that there is none is an
/// error; without `-spef_file` there is no SPEF.
pub proof fn law_spef_goes_where_it_is_asked(words: Seq<Seq<char>>, k: int)
    requires
        words.contains("-spef_file"@) ==> text_laws::first_at(words, "-spef_file"@, k),
    ensures
        !words.contains("-spef_file"@) ==> session::spef_asked(words) == Ok::<
            Option<Seq<char>>,
            Seq<char>,
        >(None),
        words.contains("-spef_file"@) && k + 1 < words.len() ==> session::spef_asked(words) == Ok::<
            Option<Seq<char>>,
            Seq<char>,
        >(Some(words[k + 1])),
        words.contains("-spef_file"@) && k + 1 == words.len() ==> session::spef_asked(words) is Err,
{
    text_laws::law_place_is_the_first(words, "-spef_file"@);
    if let Some(i) = text::place_in(words, "-spef_file"@) {
        if i < k {
            assert(words[i] != "-spef_file"@);
        } else if k < i {
            assert(words[k] != "-spef_file"@);
        }
    }
}

/// An ending of a SPEF file's name stands at that place.
pub open spec fn ending_at(path: Seq<char>, i: int) -> bool {
    text::occurs_at(path, ".spef"@, i) || text::occurs_at(path, ".SPEF"@, i)
}

/// With more than one corner, a corner's file is the one that was asked for with `_` and the
/// corner's name put in: before the last of its endings, `.spef` or `.SPEF`, or at its end where it
/// has neither. With one corner it is the file that was asked for.
pub proof fn law_file_of_a_corner(path: Seq<char>, name: Seq<char>, corners: int) -> (k: int)
    ensures
        corners <= 1 ==> session::corner_file(path, name, corners) == path,
        corners > 1 ==> {
            &&& 0 <= k <= path.len()
            &&& session::corner_file(path, name, corners) == path.take(k) + "_"@ + name + path.skip(k)
            &&& ending_at(path, k) || k == path.len()
            &&& forall|i: int| k < i ==> !#[trigger] ending_at(path, i)
            &&& k == path.len() ==> forall|i: int| 0 <= i ==> !#[trigger] ending_at(path, i)
        },
{
    reveal_strlit(".spef");
    reveal_strlit(".SPEF");
    let n = path.len() as int;
    text_laws::law_last_occurrence_is_the_last(path, ".spef"@, n);
    text_laws::law_last_occurrence_is_the_last(path, ".SPEF"@, n);
    let k = session::corner_place(path);
    assert forall|i: int| i >= n implies !#[trigger] ending_at(path, i) by {
        assert(i + 5 > n);
    }
    assert forall|i: int| k < i implies !#[trigger] ending_at(path, i) by {
        if 0 <= i < n {
            assert(!text::occurs_at(path, ".spef"@, i));
            assert(!text::occurs_at(path, ".SPEF"@, i));
        }
    }
    if k == n {
        assert forall|i: int| 0 <= i implies !#[trigger] ending_at(path, i) by {
            if i < n {
                assert(!text::occurs_at(path, ".spef"@, i));
                assert(!text::occurs_at(path, ".SPEF"@, i));
            }
        }
    }
    k
}

/// A net with a tree has the network of that tree, as the first net of its name and in the corner
/// that is written; it is a clock's exactly where it was taken for one that is no leaf. A pad net has
/// the network of its pins. No other net has one.
pub proof fn law_network_of_a_net(base: CtxView, n: NetEstimateView, i: int)
    requires
        db::stands_first(base.db.nets@, n.net, i),
    ensures
        n.decision matches DecisionView::Tree { tree, non_leaf_clock, .. } ==> ({
            let cx = CtxView {
                db: base.db,
                rc: base.rc,
                tech: base.tech,
                corner: base.corner,
                is_clk: non_leaf_clock,
            };
            match steiner::steiner_network(cx, base.db.nets@[i], tree) {
                Ok(g) => corner::drawn(base, n) == Ok::<Option<ParasiticView>, Seq<char>>(Some(g)),
                Err(e) => corner::drawn(base, n) == Err::<Option<ParasiticView>, Seq<char>>(e),
            }
        }),
        n.decision matches DecisionView::Pad { pins } ==> (match steiner::pad_network(
            base.db.nets@[i],
            pins,
        ) {
            Ok(g) => corner::drawn(base, n) == Ok::<Option<ParasiticView>, Seq<char>>(Some(g)),
            Err(e) => corner::drawn(base, n) == Err::<Option<ParasiticView>, Seq<char>>(e),
        }),
        !(n.decision is Tree) && !(n.decision is Pad) ==> corner::drawn(base, n) == Ok::<
            Option<ParasiticView>,
            Seq<char>,
        >(None),
{
    db::law_first_named(base.db.nets@, n.net);
}

/// The only option of a command line that has a value.
pub open spec fn file_option() -> Seq<Seq<char>> {
    seq!["-o"@]
}

/// The argument is a word of the command line: it is not `-o`, nor the file behind it, nor `--json`.
pub open spec fn is_word(line: Seq<Seq<char>>, i: int) -> bool {
    args::is_read(line, file_option(), i) && line[i] != "-o"@ && line[i] != "--json"@
}

/// The words among the first `n` arguments, in order.
pub open spec fn words_within(line: Seq<Seq<char>>, n: int) -> Seq<Seq<char>>
    decreases n,
{
    if n <= 0 {
        Seq::empty()
    } else if is_word(line, n - 1) {
        words_within(line, n - 1).push(line[n - 1])
    } else {
        words_within(line, n - 1)
    }
}

/// The report's file by the first `n` arguments: the one behind the last `-o`.
pub open spec fn file_within(line: Seq<Seq<char>>, n: int) -> Option<Seq<char>> {
    match args::value_place(line, file_option(), "-o"@, n) {
        Some(p) => Some(line[p]),
        None => None,
    }
}

proof fn lemma_command_from(line: Seq<Seq<char>>, i: int)
    requires
        0 <= i <= line.len(),
        args::is_read(line, file_option(), i),
    ensures
        cli::command_from(line.skip(i), file_within(line, i), words_within(line, i)) matches CommandView::Estimate {
            job,
            out,
        } ==> {
            &&& words_within(line, line.len() as int) == seq!["estimate"@, job]
            &&& out == file_within(line, line.len() as int)
        },
    decreases line.len() - i,
{
    let rest = line.skip(i);
    let n = line.len() as int;
    assert(file_option()[0] == "-o"@);
    assert(file_option().contains("-o"@));
    lemma_options_differ();
    if i < n {
        assert(rest[0] == line[i]);
        assert(rest.skip(1) =~= line.skip(i + 1));
        if line[i] == "-o"@ {
            if i + 1 < n {
                assert(rest[1] == line[i + 1]);
                assert(rest.skip(2) =~= line.skip(i + 2));
                assert(!args::is_read(line, file_option(), i + 1));
                assert(args::is_read(line, file_option(), i + 2));
                assert(words_within(line, i + 1) == words_within(line, i));
                assert(words_within(line, i + 2) == words_within(line, i));
                assert(args::value_place(line, file_option(), "-o"@, i + 2) == args::value_place(
                    line,
                    file_option(),
                    "-o"@,
                    i + 1,
                ));
                assert(file_within(line, i + 2) == Some(line[i + 1]));
                lemma_command_from(line, i + 2);
            }
        } else {
            assert(!file_option().contains(line[i]));
            assert(args::is_read(line, file_option(), i + 1));
            assert(file_within(line, i + 1) == file_within(line, i));
            if line[i] == "--json"@ {
                assert(words_within(line, i + 1) == words_within(line, i));
            } else {
                assert(words_within(line, i + 1) == words_within(line, i).push(line[i]));
            }
            lemma_command_from(line, i + 1);
        }
    } else {
        let words = words_within(line, n);
        if words.len() == 2 {
            assert(words =~= seq![words[0], words[1]]);
        }
    }
}

proof fn lemma_options_differ()
    ensures
        "-o"@ != "--json"@,
{
    reveal_strlit("-o");
    reveal_strlit("--json");
    assert("-o"@.len() == 2);
    assert("--json"@.len() == 6);
}

/// Where a command line asks for an estimate, its words are `estimate` and the job, in this order,
/// and no other; and the report goes to the file behind the last `-o`, where there is one. `--json`
/// says nothing, wherever it stands.
pub proof fn law_a_command_line_that_estimates(line: Seq<Seq<char>>)
    ensures
        cli::command_from(line, None, Seq::empty()) matches CommandView::Estimate { job, out } ==> {
            &&& words_within(line, line.len() as int) == seq!["estimate"@, job]
            &&& out == file_within(line, line.len() as int)
        },
{
    assert(line.skip(0) =~= line);
    lemma_command_from(line, 0);
}

/// A corner's text is the header alone where there is no net; one net more adds what is written of it
/// at the end: nothing where it has no network, else its network's text under its own name.
pub proof fn law_a_corner_is_written_net_by_net<V: Fn(&Parasitic) -> NetValues>(
    values: V,
    base: CtxView,
    nets: Seq<NetEstimateView>,
    n: NetEstimateView,
    units: SpefUnits,
    t: Seq<char>,
) -> (parts: (Seq<char>, Seq<char>))
    ensures
        corner::corner_written(values, base, Seq::empty(), units, t) <==> t == spef::header_text(
            base.db,
            units,
        ),
        corner::corner_written(values, base, nets.push(n), units, t) ==> {
            &&& t == parts.0 + parts.1
            &&& corner::corner_written(values, base, nets, units, parts.0)
            &&& corner::drawn(base, n) is Ok
            &&& corner::drawn(base, n) == Ok::<Option<ParasiticView>, Seq<char>>(None)
                ==> parts.1.len() == 0
            &&& corner::drawn(base, n) matches Ok(Some(network)) ==> written_of(
                values,
                n.net,
                network,
                parts.1,
            )
        },
{
    let none = Seq::<NetEstimateView>::empty();
    let header = spef::header_text(base.db, units);
    assert(header + corner::joined_texts(Seq::empty()) =~= header);
    if t == header {
        assert(corner::nets_written(values, base, none, Seq::empty()));
    }
    if corner::corner_written(values, base, none, units, t) {
        let p = choose|p: Seq<Seq<char>>| #[trigger]
            corner::nets_written(values, base, none, p) && t == header + corner::joined_texts(p);
        assert(p =~= Seq::empty());
    }
    if corner::corner_written(values, base, nets.push(n), units, t) {
        let all = nets.push(n);
        let p = choose|p: Seq<Seq<char>>| #[trigger]
            corner::nets_written(values, base, all, p) && t == header + corner::joined_texts(p);
        let k = nets.len() as int;
        assert(corner::net_written(values, base, all[k], p[k]));
        let before = p.drop_last();
        assert forall|i: int| 0 <= i < nets.len() implies #[trigger] corner::net_written(
            values,
            base,
            nets[i],
            before[i],
        ) by {
            assert(corner::net_written(values, base, all[i], p[i]));
        }
        assert(corner::nets_written(values, base, nets, before));
        let first = header + corner::joined_texts(before);
        assert(t =~= first + p[k]);
        if let Ok(Some(network)) = corner::drawn(base, n) {
            let (g, v) = choose|g: Parasitic, v: NetValues|
                g.wf() && g@ == network && #[trigger] call_ensures(values, (&g,), v) && p[k]
                    == spef::net_text(n.net, g, v);
            assert(call_ensures(values, (&g,), v));
            assert(written_of(values, n.net, network, p[k]));
        }
        (first, p[k])
    } else {
        (Seq::empty(), Seq::empty())
    }
}

/// The text is that of the network under that name, with the values that it is given.
pub open spec fn written_of<V: Fn(&Parasitic) -> NetValues>(
    values: V,
    net: Seq<char>,
    network: ParasiticView,
    t: Seq<char>,
) -> bool {
    exists|g: Parasitic, v: NetValues| #[trigger]
        call_ensures(values, (&g,), v) && g@ == network && t == spef::net_text(net, g, v)
}

/// The text has no line feed.
pub open spec fn one_line(s: Seq<char>) -> bool {
    !s.contains('\n')
}

proof fn lemma_one_line(a: Seq<char>, b: Seq<char>)
    requires
        one_line(a),
        one_line(b),
    ensures
        one_line(a + b),
{
    let s = a + b;
    if s.contains('\n') {
        let k = choose|k: int| 0 <= k < s.len() && s[k] == '\n';
        if k < a.len() {
            assert(a[k] == '\n');
        } else {
            assert(b[k - a.len()] == '\n');
        }
    }
}

proof fn lemma_json_char(c: char)
    ensures
        one_line(report::json_char(c)),
{
    let s = report::json_char(c);
    let n = c as int;
    if n < 32 {
        let (a, b) = (n / 16, n % 16);
        assert(0 <= a < 10 && 0 <= b < 16);
        assert(report::hex_digit(a) as int == 48 + a);
        assert(report::hex_digit(b) as int >= 48);
    }
    if s.contains('\n') {
        let k = choose|k: int| 0 <= k < s.len() && s[k] == '\n';
        assert(s.len() == 1 || s.len() == 2 || s.len() == 6);
        if s.len() == 1 {
            assert(s[0] == c);
            assert(k == 0);
        } else if s.len() == 2 {
            assert(k == 0 || k == 1);
        } else {
            assert(k == 0 || k == 1 || k == 2 || k == 3 || k == 4 || k == 5);
        }
    }
}

proof fn lemma_json_chars(s: Seq<char>)
    ensures
        one_line(report::json_chars(s)),
    decreases s.len(),
{
    if s.len() > 0 {
        lemma_json_chars(s.drop_last());
        lemma_json_char(s.last());
        lemma_one_line(report::json_chars(s.drop_last()), report::json_char(s.last()));
    }
}

/// A JSON string is on one line, whatever the text.
pub proof fn law_a_json_string_is_on_one_line(s: Seq<char>)
    ensures
        one_line(report::json_string(s)),
        report::json_string(s).len() >= 2,
        report::json_string(s)[0] == '"',
        report::json_string(s).last() == '"',
{
    reveal_strlit("\"");
    assert("\""@[0] == '"');
    lemma_json_chars(s);
    assert(one_line("\""@)) by {
        if "\""@.contains('\n') {
            let k = choose|k: int| 0 <= k < "\""@.len() && "\""@[k] == '\n';
            assert("\""@[k] == '\n');
        }
    }
    lemma_one_line("\""@, report::json_chars(s));
    lemma_one_line("\""@ + report::json_chars(s), "\""@);
}

} // verus!
