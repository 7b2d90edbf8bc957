//! How runs end.

use vstd::prelude::*;
use vstd::string::*;

use crate::args;
use crate::cli;
use crate::cuts;
use crate::db::Db;
use crate::job::StepView;
use crate::layer_rc;
use crate::placement;
use crate::placement::NetEstimateView;
use crate::rc::RcView;
use crate::report;
use crate::report::ReportView;
use crate::session;
use crate::text;
use crate::value::Amount;
use crate::wire_rc;

verus! {

/// A run that failed for that reason is refused.
pub open spec fn refused(reason: Seq<char>) -> bool {
    report::status_of(ReportView::Failed { reason }) == "refused"@
}

proof fn lemma_tail_refused(head: Seq<char>, tail: Seq<char>)
    requires
        text::ends(tail, "not modelled"@),
    ensures
        refused(head + tail),
{
    let p = "not modelled"@;
    let s = head + tail;
    let i = s.len() - p.len();
    assert(s.subrange(i, i + p.len()) =~= tail.subrange(tail.len() - p.len(), tail.len() as int));
    assert(text::occurs_at(s, p, i));
}

/// A named step that fails, and that does not read a file, is refused: it is not known, or it is an
/// estimate that is not from placement.
pub proof fn law_unknown_steps_are_refused(step: StepView)
    requires
        session::asked(step) is Err,
        step.cmd matches Some(cmd) && cmd != "read_lef"@ && cmd != "read_def"@ && cmd != "read_db"@
            && cmd != "read_liberty"@,
    ensures
        refused(session::asked(step)->Err_0),
{
    let p = "not modelled"@;
    reveal_strlit("not modelled");
    reveal_strlit(": not modelled");
    reveal_strlit("estimate_parasitics without -placement: not modelled");
    let cmd = step.cmd->Some_0;
    let (a, b) = (": not modelled"@, "estimate_parasitics without -placement: not modelled"@);
    assert(a.subrange(a.len() - p.len(), a.len() as int) =~= p);
    assert(b.subrange(b.len() - p.len(), b.len() as int) =~= p);
    lemma_tail_refused("step "@ + cmd, a);
    lemma_tail_refused(Seq::empty(), b);
    assert(Seq::<char>::empty() + b =~= b);
}

/// A net that a constant output drives is refused, and a via chain that skips a layer.
pub proof fn law_what_is_not_drawn_is_refused(net: Seq<char>, p: int, t: int)
    ensures
        refused(placement::constant_driver(net)),
        refused(cuts::broken_chain(p, t)),
{
    let end = "not modelled"@;
    reveal_strlit("not modelled");
    reveal_strlit(": driven by a constant (tie) output — isConstant is not modelled");
    reveal_strlit(": a step with no node — not modelled");
    let a = ": driven by a constant (tie) output — isConstant is not modelled"@;
    let b = ": a step with no node — not modelled"@;
    assert(a.subrange(a.len() - end.len(), a.len() as int) =~= end);
    assert(b.subrange(b.len() - end.len(), b.len() as int) =~= end);
    lemma_tail_refused("net "@ + net, a);
    lemma_tail_refused(
        "via chain from layer "@ + text::integer(p) + " to "@ + text::integer(t),
        b,
    );
}

/// An RC command without the units of a timing library is refused.
pub proof fn law_rc_without_units_is_refused(have: bool)
    ensures
        session::rc_units(have) matches Err(e) ==> refused(e),
        session::rc_units(have) is Ok <==> have,
{
    let end = "not modelled"@;
    reveal_strlit("not modelled");
    reveal_strlit("RC before a liberty library: the timer's default units are not modelled");
    let a = "RC before a liberty library: the timer's default units are not modelled"@;
    assert(a.subrange(a.len() - end.len(), a.len() as int) =~= end);
    lemma_tail_refused(Seq::empty(), a);
    assert(Seq::<char>::empty() + a =~= a);
}

/// A `set_wire_rc` for redistribution layers is refused, whatever else it says, unless its corner
/// is not known.
pub proof fn law_redistribution_layers_are_refused(
    state: RcView,
    db: Db,
    args: Seq<Seq<char>>,
    amounts: Seq<Option<Amount>>,
)
    requires
        args::key_args(args, wire_rc::wire_keys(), wire_rc::wire_flags()) matches Ok(given)
            && given.flags.contains("-redistribution_layer"@) && layer_rc::named_corner(
            state.scenes,
            args,
            given.keys,
        ) is Ok,
    ensures
        wire_rc::wire_command(state, db, args, amounts) matches Err(e) && refused(e),
{
    let end = "not modelled"@;
    reveal_strlit("not modelled");
    reveal_strlit("set_wire_rc -redistribution_layer: RDL chips are not modelled");
    let a = "set_wire_rc -redistribution_layer: RDL chips are not modelled"@;
    assert(a.subrange(a.len() - end.len(), a.len() as int) =~= end);
    lemma_tail_refused(Seq::empty(), a);
    assert(Seq::<char>::empty() + a =~= a);
}

/// An estimate that gave no net a tree or a pad link adds nothing to the count: after a run of such
/// estimates alone the status is `vacuous`, whatever nets the design has.
pub proof fn law_skipped_nets_leave_a_run_vacuous(
    nets: Seq<NetEstimateView>,
    estimates: usize,
    spef_files: Seq<Seq<char>>,
    log: Seq<Seq<char>>,
)
    requires
        forall|i: int| 0 <= i < nets.len() ==> !placement::is_estimated(#[trigger] nets[i]),
    ensures
        placement::estimated_count(nets) == 0,
        report::status_of(
            ReportView::Done {
                estimates,
                nets: placement::estimated_count(nets) as usize,
                spef_files,
                log,
            },
        ) == "vacuous"@,
    decreases nets.len(),
{
    if nets.len() > 0 {
        let fewer = nets.drop_last();
        assert forall|i: int| 0 <= i < fewer.len() implies !placement::is_estimated(
            #[trigger] fewer[i],
        ) by {
            assert(fewer[i] == nets[i]);
        }
        law_skipped_nets_leave_a_run_vacuous(fewer, estimates, spef_files, log);
        assert(!placement::is_estimated(nets[nets.len() - 1]));
    }
}

/// A run exits with 0 exactly where it came to its end and estimated a net, with 3 exactly where
/// it was refused, and with 2 otherwise.
pub proof fn law_exit_status(r: ReportView)
    ensures
        cli::exit_code(report::status_of(r)) == 0 <==> (r matches ReportView::Done { nets, .. }
            && nets > 0),
        cli::exit_code(report::status_of(r)) == 3 <==> (r matches ReportView::Failed { reason }
            && text::occurs(reason, "not modelled"@)),
        cli::exit_code(report::status_of(r)) == 0 || cli::exit_code(report::status_of(r)) == 2
            || cli::exit_code(report::status_of(r)) == 3,
{
    reveal_strlit("estimated");
    reveal_strlit("vacuous");
    reveal_strlit("refused");
    reveal_strlit("error");
    assert("estimated"@.len() == 9);
    assert("vacuous"@[0] == 'v');
    assert("refused"@[0] == 'r');
    assert("error"@.len() == 5);
}

} // verus!
