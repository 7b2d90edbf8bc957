//! A run: the state that the steps of a job build up, and what each step asks for.
//!
//! A step that only changes the state is taken here. One that reads a file or the design, or that
//! computes with real numbers, becomes an [`Action`] that the caller performs.

use std::io::Read;

use vstd::prelude::*;
use vstd::string::*;

use crate::corner;
use crate::corner::write_corner;
use crate::db::Db;
use crate::job::{Step, StepView};
use crate::network::Parasitic;
use crate::placement;
use crate::placement::{LibertyClocks, NetEstimate, Timing};
use crate::rc;
use crate::rc::{Rc, RcView, SignalCap};
use crate::report::{Report, ReportView};
use crate::spef::{NetValues, SpefUnits};
use crate::steiner::CtxView;
use crate::text;
use crate::text::{chars_of, copy_texts, ends_with, find_in, find_last_text, framed, holds, same, slice_text};

verus! {

/// What a step asks its caller to do.
#[derive(Debug, PartialEq, Eq)]
pub enum Action {
    /// Nothing: the step is done.
    Done,
    ReadLef(String),
    ReadDef(String),
    ReadDb(String),
    ReadLiberty(String),
    SetLayerRc,
    SetWireRc,
    Estimate,
}

/// An [`Action`] with its text as a sequence.
pub enum ActionView {
    Done,
    ReadLef(Seq<char>),
    ReadDef(Seq<char>),
    ReadDb(Seq<char>),
    ReadLiberty(Seq<char>),
    SetLayerRc,
    SetWireRc,
    Estimate,
}

impl View for Action {
    type V = ActionView;

    open spec fn view(&self) -> ActionView {
        match self {
            Action::Done => ActionView::Done,
            Action::ReadLef(s) => ActionView::ReadLef(s@),
            Action::ReadDef(s) => ActionView::ReadDef(s@),
            Action::ReadDb(s) => ActionView::ReadDb(s@),
            Action::ReadLiberty(s) => ActionView::ReadLiberty(s@),
            Action::SetLayerRc => ActionView::SetLayerRc,
            Action::SetWireRc => ActionView::SetWireRc,
            Action::Estimate => ActionView::Estimate,
        }
    }
}

/// An action or what is wrong, as sequences.
pub open spec fn action_view(r: Result<Action, String>) -> Result<ActionView, Seq<char>> {
    match r {
        Ok(a) => Ok(a@),
        Err(e) => Err(e@),
    }
}

/// A corner's SPEF file that was asked for.
#[derive(Debug, PartialEq, Eq)]
pub struct OwedSpef {
    /// The corner, by its place among the corners.
    pub corner: usize,
    pub file: String,
}

/// An [`OwedSpef`] with its text as a sequence.
pub struct OwedSpefView {
    pub corner: usize,
    pub file: Seq<char>,
}

impl View for OwedSpef {
    type V = OwedSpefView;

    open spec fn view(&self) -> OwedSpefView {
        OwedSpefView { corner: self.corner, file: self.file@ }
    }
}

/// Files that were asked for, with their texts as sequences.
pub open spec fn owed_view(s: Seq<OwedSpef>) -> Seq<OwedSpefView> {
    Seq::new(s.len(), |i: int| s[i]@)
}

/// The state of a run.
pub struct Session {
    pub rc: Rc,
    /// The source ports of every clock.
    pub clock_sources: Vec<String>,
    /// The clocks are propagated.
    pub propagated: bool,
    /// A timing library was read.
    pub have_lib: bool,
    /// How many estimates ran.
    pub estimates: usize,
    /// How many nets they estimated: those that got a tree or a pad link.
    pub nets: usize,
    /// The SPEF files that were written.
    pub spef_files: Vec<String>,
    /// The SPEF files that were asked for and are not written yet.
    pub owed: Vec<OwedSpef>,
    /// The trace.
    pub trace_text: String,
}

/// A [`Session`] with its state, texts and lists as maps and sequences.
pub struct SessionView {
    pub rc: RcView,
    pub clock_sources: Seq<Seq<char>>,
    pub propagated: bool,
    pub have_lib: bool,
    pub estimates: usize,
    pub nets: usize,
    pub spef_files: Seq<Seq<char>>,
    pub owed: Seq<OwedSpefView>,
    pub trace_text: Seq<char>,
}

impl View for Session {
    type V = SessionView;

    open spec fn view(&self) -> SessionView {
        SessionView {
            rc: self.rc@,
            clock_sources: text::views(self.clock_sources@),
            propagated: self.propagated,
            have_lib: self.have_lib,
            estimates: self.estimates,
            nets: self.nets,
            spef_files: text::views(self.spef_files@),
            owed: owed_view(self.owed@),
            trace_text: self.trace_text@,
        }
    }
}

/// The file that a step reads: its last argument, or what is missing.
pub open spec fn file_of(words: Seq<Seq<char>>, missing: Seq<char>) -> Result<Seq<char>, Seq<char>> {
    if words.len() > 0 {
        Ok(words.last())
    } else {
        Err(missing)
    }
}

/// What a step asks for, or why it fails.
pub open spec fn asked(step: StepView) -> Result<ActionView, Seq<char>> {
    let words = step.words();
    match step.cmd {
        None => Err("cmd"@),
        Some(cmd) => if cmd == "read_lef"@ {
            match file_of(words, "read_lef path"@) {
                Ok(s) => Ok(ActionView::ReadLef(s)),
                Err(e) => Err(e),
            }
        } else if cmd == "read_def"@ {
            match file_of(words, "read_def path"@) {
                Ok(s) => Ok(ActionView::ReadDef(s)),
                Err(e) => Err(e),
            }
        } else if cmd == "read_db"@ {
            match file_of(words, "read_db path"@) {
                Ok(s) => Ok(ActionView::ReadDb(s)),
                Err(e) => Err(e),
            }
        } else if cmd == "read_liberty"@ {
            match file_of(words, "read_liberty path"@) {
                Ok(s) => Ok(ActionView::ReadLiberty(s)),
                Err(e) => Err(e),
            }
        } else if cmd == "define_corners"@ || cmd == "create_clock"@ || cmd
            == "set_propagated_clock"@ {
            Ok(ActionView::Done)
        } else if cmd == "set_layer_rc"@ {
            Ok(ActionView::SetLayerRc)
        } else if cmd == "set_wire_rc"@ {
            Ok(ActionView::SetWireRc)
        } else if cmd == "estimate_parasitics"@ {
            if words.contains("-placement"@) {
                Ok(ActionView::Estimate)
            } else {
                Err("estimate_parasitics without -placement: not modelled"@)
            }
        } else {
            Err("step "@ + cmd + ": not modelled"@)
        },
    }
}

/// The state after a step's own part: corners are defined, clock sources added, or the clocks made
/// propagated.
pub open spec fn stepped(s: SessionView, step: StepView) -> SessionView {
    match step.cmd {
        None => s,
        Some(cmd) => if cmd == "define_corners"@ {
            SessionView { rc: RcView { scenes: step.words(), ..s.rc }, ..s }
        } else if cmd == "create_clock"@ {
            SessionView { clock_sources: s.clock_sources + step.words(), ..s }
        } else if cmd == "set_propagated_clock"@ {
            SessionView { propagated: true, ..s }
        } else {
            s
        },
    }
}

/// A step that reads a file has no part of its own.
proof fn lemma_reading_is_apart(cmd: Seq<char>)
    requires
        cmd == "read_lef"@ || cmd == "read_def"@ || cmd == "read_db"@ || cmd == "read_liberty"@,
    ensures
        cmd != "define_corners"@,
        cmd != "create_clock"@,
        cmd != "set_propagated_clock"@,
{
    reveal_strlit("read_lef");
    reveal_strlit("read_def");
    reveal_strlit("read_db");
    reveal_strlit("read_liberty");
    reveal_strlit("define_corners");
    reveal_strlit("create_clock");
    reveal_strlit("set_propagated_clock");
    assert(cmd[0] == 'r');
    assert("define_corners"@[0] == 'd');
    assert("create_clock"@[0] == 'c');
    assert("set_propagated_clock"@[0] == 's');
}

fn last_word(words: &Vec<String>, missing: &str) -> (r: Result<String, String>)
    ensures
        text::outcome(match r {
            Ok(s) => Ok::<Seq<char>, String>(s@),
            Err(e) => Err(e),
        }) == file_of(text::views(words@), missing@),
{
    let n: usize = words.len();
    if n > 0 {
        Ok(words[n - 1].clone())
    } else {
        Err(missing.to_owned())
    }
}

impl Session {
    /// The wire RC is in order; and there are estimated nets and SPEF files only where an estimate
    /// was begun.
    pub open spec fn wf(&self) -> bool {
        &&& self.rc.wf()
        &&& self.nets > 0 ==> self.estimates > 0
        &&& self.spef_files@.len() + self.owed@.len() > 0 ==> self.estimates > 0
    }

    /// A run before its first step.
    pub fn new() -> (r: Session)
        ensures
            r.wf(),
            r@.rc.scenes == seq!["default"@],
            r@.rc.wire_rc == Map::<Option<Seq<char>>, rc::WireRcView>::empty(),
            r@.rc.layer_res == Map::<int, Seq<crate::value::Double>>::empty(),
            r@.rc.layer_cap == Map::<int, Seq<crate::value::Double>>::empty(),
            r@.rc.log == Seq::<Seq<char>>::empty(),
            r@.clock_sources == Seq::<Seq<char>>::empty(),
            !r@.propagated,
            !r@.have_lib,
            r@.estimates == 0,
            r@.nets == 0,
            r@.spef_files == Seq::<Seq<char>>::empty(),
            r@.owed == Seq::<OwedSpefView>::empty(),
            r@.trace_text == Seq::<char>::empty(),
    {
        let r = Session {
            rc: Rc::new(),
            clock_sources: Vec::new(),
            propagated: false,
            have_lib: false,
            estimates: 0,
            nets: 0,
            spef_files: Vec::new(),
            owed: Vec::new(),
            trace_text: String::new(),
        };
        assert(text::views(r.clock_sources@) =~= Seq::empty());
        assert(text::views(r.spef_files@) =~= Seq::empty());
        assert(owed_view(r.owed@) =~= Seq::empty());
        r
    }

    /// Takes a step's own part and says what is left to do.
    pub fn step(&mut self, step: &Step) -> (r: Result<Action, String>)
        requires
            old(self).wf(),
        ensures
            final(self).wf(),
            action_view(r) == asked(step@),
            final(self)@ == stepped(old(self)@, step@),
    {
        let words = step.words();
        let cmd = match &step.cmd {
            None => {
                return Err("cmd".to_owned());
            },
            Some(cmd) => cmd.as_str(),
        };
        proof {
            if cmd@ == "read_lef"@ || cmd@ == "read_def"@ || cmd@ == "read_db"@ || cmd@
                == "read_liberty"@ {
                lemma_reading_is_apart(cmd@);
            }
        }
        if same(cmd, "read_lef") {
            match last_word(&words, "read_lef path") {
                Ok(s) => Ok(Action::ReadLef(s)),
                Err(e) => Err(e),
            }
        } else if same(cmd, "read_def") {
            match last_word(&words, "read_def path") {
                Ok(s) => Ok(Action::ReadDef(s)),
                Err(e) => Err(e),
            }
        } else if same(cmd, "read_db") {
            match last_word(&words, "read_db path") {
                Ok(s) => Ok(Action::ReadDb(s)),
                Err(e) => Err(e),
            }
        } else if same(cmd, "read_liberty") {
            match last_word(&words, "read_liberty path") {
                Ok(s) => Ok(Action::ReadLiberty(s)),
                Err(e) => Err(e),
            }
        } else if same(cmd, "define_corners") {
            self.rc.define_corners(&words);
            Ok(Action::Done)
        } else if same(cmd, "create_clock") {
            let ghost before = self.clock_sources@;
            let n: usize = words.len();
            let mut i: usize = 0;
            while i < n
                invariant
                    self.wf(),
                    n == words@.len(),
                    i <= n,
                    before == old(self).clock_sources@,
                    text::views(self.clock_sources@) == text::views(before) + text::views(
                        words@,
                    ).take(i as int),
                    self@ == (SessionView {
                        clock_sources: text::views(self.clock_sources@),
                        ..old(self)@
                    }),
                decreases n - i,
            {
                let ghost so_far = self.clock_sources@;
                self.clock_sources.push(words[i].clone());
                i = i + 1;
                assert(text::views(self.clock_sources@) =~= text::views(so_far).push(
                    words@[i - 1]@,
                ));
                assert(text::views(self.clock_sources@) =~= text::views(before) + text::views(
                    words@,
                ).take(i as int));
            }
            assert(text::views(words@).take(n as int) =~= text::views(words@));
            Ok(Action::Done)
        } else if same(cmd, "set_propagated_clock") {
            self.propagated = true;
            Ok(Action::Done)
        } else if same(cmd, "set_layer_rc") {
            Ok(Action::SetLayerRc)
        } else if same(cmd, "set_wire_rc") {
            Ok(Action::SetWireRc)
        } else if same(cmd, "estimate_parasitics") {
            if holds(&words, "-placement") {
                Ok(Action::Estimate)
            } else {
                Err("estimate_parasitics without -placement: not modelled".to_owned())
            }
        } else {
            Err(framed("step ", cmd, ": not modelled"))
        }
    }
}

/// An estimate can be made: some signal wire has capacitance by a command, and it is not that every
/// corner lacks signal wire capacitance.
pub open spec fn can_estimate(rc: RcView, tech: Seq<char>, lacking: Seq<bool>) -> bool {
    rc::resolved_list::<SignalCap>(rc.wire_rc, tech).len() > 0 && (lacking.len() == 0
        || lacking.contains(false))
}

/// Wire RCs with their layer lists in ascending order.
pub open spec fn all_sorted(m: Map<Option<Seq<char>>, rc::WireRcView>) -> Map<
    Option<Seq<char>>,
    rc::WireRcView,
> {
    m.map_values(|w: rc::WireRcView| rc::layers_sorted(w))
}

fn holds_false(v: &Vec<bool>) -> (r: bool)
    ensures
        r == v@.contains(false),
{
    let n: usize = v.len();
    let mut i: usize = 0;
    while i < n
        invariant
            n == v@.len(),
            i <= n,
            forall|k: int| 0 <= k < i ==> v@[k],
        decreases n - i,
    {
        if !v[i] {
            assert(v@[i as int] == false);
            return true;
        }
        i = i + 1;
    }
    false
}

impl Session {
    /// Begins an estimate, where one can be made: it is counted, and the layer lists are put in
    /// order. `lacking` says of each corner whether it lacks signal wire capacitance.
    pub fn start_estimate(&mut self, tech: &str, lacking: &Vec<bool>) -> (r: bool)
        requires
            old(self).wf(),
            lacking@.len() == old(self)@.rc.scenes.len(),
            old(self)@.estimates < usize::MAX,
        ensures
            final(self).wf(),
            r == can_estimate(old(self)@.rc, tech@, lacking@),
            !r ==> *final(self) == *old(self),
            r ==> final(self)@ == (SessionView {
                rc: RcView { wire_rc: all_sorted(old(self)@.rc.wire_rc), ..old(self)@.rc },
                estimates: (old(self)@.estimates + 1) as usize,
                ..old(self)@
            }),
    {
        let resolved = self.rc.resolve(tech, SignalCap);
        if resolved.len() == 0 || (lacking.len() > 0 && !holds_false(lacking)) {
            return false;
        }
        self.estimates = self.estimates + 1;
        self.rc.sort_clk_and_signal_layers();
        true
    }

    /// What the timer knows that an estimate reads.
    pub fn timing<'a>(&self, lib: &'a LibertyClocks) -> (r: Timing<'a>)
        ensures
            r.liberty == if self@.have_lib {
                Some(lib)
            } else {
                None
            },
            text::views(r.clock_sources@) == self@.clock_sources,
            r.propagated == self@.propagated,
    {
        Timing {
            liberty: if self.have_lib {
                Some(lib)
            } else {
                None
            },
            clock_sources: copy_texts(&self.clock_sources),
            propagated: self.propagated,
        }
    }

    /// Counts the estimated nets of an estimate that was begun, and adds the RC state's lines and
    /// the nets' to the trace.
    pub fn finish_estimate(&mut self, rc_lines: &str, nets: &Vec<NetEstimate>)
        requires
            old(self).wf(),
            old(self)@.estimates > 0,
            old(self)@.nets + placement::estimated_count(placement::estimates(nets@)) <= usize::MAX,
        ensures
            final(self).wf(),
            final(self)@ == (SessionView {
                nets: (old(self)@.nets + placement::estimated_count(
                    placement::estimates(nets@),
                )) as usize,
                trace_text: old(self)@.trace_text + rc_lines@ + placement::nets_trace(
                    placement::estimates(nets@),
                ),
                ..old(self)@
            }),
    {
        self.nets = self.nets + placement::count_estimated(nets);
        self.trace_text.append(rc_lines);
        self.trace_text.append(placement::trace(nets).as_str());
    }

    /// Asks for the SPEF of an estimate: one file for each corner, in the order of the corners.
    pub fn owe_spef(&mut self, path: &str)
        requires
            old(self).wf(),
            old(self)@.estimates > 0,
        ensures
            final(self).wf(),
            final(self)@ == (SessionView {
                owed: old(self)@.owed + owed_files(path@, old(self)@.rc.scenes),
                ..old(self)@
            }),
    {
        let files = spef_files(path, &self.rc.scenes);
        let ghost asked = owed_files(path@, self@.rc.scenes);
        let ghost before = self.owed@;
        let n: usize = files.len();
        assert(n == corner_files(path@, self@.rc.scenes).len());
        let mut i: usize = 0;
        assert(owed_view(self.owed@) =~= owed_view(before) + asked.take(0));
        while i < n
            invariant
                n == files@.len(),
                n == asked.len(),
                i <= n,
                self.wf(),
                self.estimates > 0,
                before == old(self).owed@,
                asked == owed_files(path@, old(self)@.rc.scenes),
                text::views(files@) == corner_files(path@, old(self)@.rc.scenes),
                owed_view(self.owed@) == owed_view(before) + asked.take(i as int),
                self@ == (SessionView { owed: owed_view(self.owed@), ..old(self)@ }),
            decreases n - i,
        {
            let ghost so_far = self.owed@;
            let one = OwedSpef { corner: i, file: files[i].clone() };
            assert(text::views(files@)[i as int] == files@[i as int]@);
            assert(one@ == asked[i as int]);
            let ghost shown = one@;
            self.owed.push(one);
            i = i + 1;
            assert(owed_view(self.owed@) =~= owed_view(so_far).push(shown));
            assert(owed_view(self.owed@) =~= owed_view(before) + asked.take(i as int));
        }
        assert(asked.take(n as int) =~= asked);
    }

    /// The first of the SPEF files that are owed, and its text: that of the file's own corner.
    pub fn next_spef<V: Fn(&Parasitic) -> NetValues>(
        &self,
        db: &Db,
        tech: &str,
        nets: &Vec<NetEstimate>,
        units: SpefUnits,
        values: &V,
    ) -> (r: Result<(String, String), String>)
        requires
            self.wf(),
            self@.owed.len() > 0,
            corner::evaluates(*values),
            forall|i: int|
                0 <= i < nets@.len() ==> corner::drawable((#[trigger] nets@[i]).decision@),
        ensures
            ({
                let base = CtxView {
                    db: *db,
                    rc: self@.rc,
                    tech: tech@,
                    corner: self@.owed[0].corner as int,
                    is_clk: false,
                };
                match r {
                    Ok(p) => p.0@ == self@.owed[0].file && corner::corner_written(
                        *values,
                        base,
                        placement::estimates(nets@),
                        units,
                        p.1@,
                    ),
                    Err(e) => corner::corner_fails(base, placement::estimates(nets@), e@),
                }
            }),
    {
        assert(self@.owed[0] == self.owed@[0]@);
        let first = &self.owed[0];
        match write_corner(db, &self.rc, tech, first.corner, nets, units, values) {
            Err(e) => Err(e),
            Ok(t) => Ok((first.file.clone(), t)),
        }
    }

    /// Notes that the first of the SPEF files that are owed was written.
    pub fn wrote_spef(&mut self)
        requires
            old(self).wf(),
            old(self)@.owed.len() > 0,
        ensures
            final(self).wf(),
            final(self)@ == (SessionView {
                spef_files: old(self)@.spef_files.push(old(self)@.owed[0].file),
                owed: old(self)@.owed.skip(1),
                ..old(self)@
            }),
    {
        let ghost (files, owed) = (self.spef_files@, self.owed@);
        let first = self.owed.remove(0);
        self.spef_files.push(first.file);
        assert(text::views(self.spef_files@) =~= text::views(files).push(owed[0].file@));
        assert(owed_view(self.owed@) =~= owed_view(owed).skip(1));
    }

    /// Notes that a timing library was read.
    pub fn read_liberty(&mut self)
        requires
            old(self).wf(),
        ensures
            final(self).wf(),
            final(self)@ == (SessionView { have_lib: true, ..old(self)@ }),
    {
        self.have_lib = true;
    }

    /// The report of a run that came to its end: every SPEF file that was asked for is written.
    pub fn report(&self) -> (r: Report)
        requires
            self.wf(),
            self@.owed.len() == 0,
        ensures
            r matches Report::Done { estimates, nets, spef_files, .. } && (nets > 0 ==> estimates > 0)
                && (estimates == 0 ==> spef_files@.len() == 0),
            r@ == (ReportView::Done {
                estimates: self@.estimates,
                nets: self@.nets,
                spef_files: self@.spef_files,
                log: self@.rc.log,
            }),
    {
        Report::Done {
            estimates: self.estimates,
            nets: self.nets,
            spef_files: copy_texts(&self.spef_files),
            log: copy_texts(&self.rc.log),
        }
    }
}

/// An RC command needs the units of a timing library.
pub open spec fn rc_units(have: bool) -> Result<(), Seq<char>> {
    if have {
        Ok(())
    } else {
        Err("RC before a liberty library: the timer's default units are not modelled"@)
    }
}

/// An RC command needs the units of a timing library.
pub fn need_rc_units(have: bool) -> (r: Result<(), String>)
    ensures
        text::outcome(r) == rc_units(have),
{
    if have {
        Ok(())
    } else {
        Err("RC before a liberty library: the timer's default units are not modelled".to_owned())
    }
}

/// SPEF needs the units of a timing library.
pub fn need_spef_units(have: bool) -> (r: Result<(), String>)
    ensures
        text::outcome(r) == if have {
            Ok::<(), Seq<char>>(())
        } else {
            Err::<(), Seq<char>>("SPEF units need a liberty library"@)
        },
{
    if have {
        Ok(())
    } else {
        Err("SPEF units need a liberty library".to_owned())
    }
}

/// The file that an estimate's SPEF goes to: the argument after the first `-spef_file`.
pub open spec fn spef_asked(words: Seq<Seq<char>>) -> Result<Option<Seq<char>>, Seq<char>> {
    match text::place_in(words, "-spef_file"@) {
        None => Ok(None),
        Some(k) => if k + 1 < words.len() {
            Ok(Some(words[k + 1]))
        } else {
            Err("-spef_file needs a path"@)
        },
    }
}

/// A file, where there is one, or what is wrong, as sequences.
pub open spec fn path_view(r: Result<Option<String>, String>) -> Result<Option<Seq<char>>, Seq<char>> {
    match r {
        Ok(Some(s)) => Ok(Some(s@)),
        Ok(None) => Ok(None),
        Err(e) => Err(e@),
    }
}

/// The file that an estimate's SPEF goes to.
pub fn spef_path(words: &Vec<String>) -> (r: Result<Option<String>, String>)
    ensures
        path_view(r) == spef_asked(text::views(words@)),
{
    let n: usize = words.len();
    match find_in(words, "-spef_file") {
        None => Ok(None),
        Some(k) => if k + 1 < n {
            Ok(Some(words[k + 1].clone()))
        } else {
            Err("-spef_file needs a path".to_owned())
        },
    }
}

/// The last place of an ending in a path; before its start where there is none.
pub open spec fn ending_place(path: Seq<char>, ending: Seq<char>) -> int {
    match text::last_occurrence(path, ending, path.len() as int) {
        Some(i) => i,
        None => -1,
    }
}

/// Where a corner's name goes in a SPEF file's name: before the last `.spef` or `.SPEF`, whichever
/// stands later, and at the end where there is neither.
pub open spec fn corner_place(path: Seq<char>) -> int {
    let (small, large) = (ending_place(path, ".spef"@), ending_place(path, ".SPEF"@));
    if small < 0 && large < 0 {
        path.len() as int
    } else if small > large {
        small
    } else {
        large
    }
}

/// A corner's SPEF file: the file that was asked for, with the corner's name in it where there is
/// more than one corner.
pub open spec fn corner_file(path: Seq<char>, corner: Seq<char>, corners: int) -> Seq<char> {
    if corners > 1 {
        path.take(corner_place(path)) + "_"@ + corner + path.skip(corner_place(path))
    } else {
        path
    }
}

/// A corner's SPEF file.
pub fn spef_file(path: &str, corner: &str, corners: usize) -> (r: String)
    ensures
        r@ == corner_file(path@, corner@, corners as int),
{
    if corners <= 1 {
        return path.to_owned();
    }
    let cs = chars_of(path);
    let n: usize = cs.len();
    let (small, large) = (
        find_last_text(&cs, &chars_of(".spef")),
        find_last_text(&cs, &chars_of(".SPEF")),
    );
    let place: usize = match (small, large) {
        (None, None) => n,
        (Some(i), None) => i,
        (None, Some(j)) => j,
        (Some(i), Some(j)) => if i > j {
            i
        } else {
            j
        },
    };
    proof {
        lemma_occurrence_is_a_place(path@, ".spef"@, n as int);
        lemma_occurrence_is_a_place(path@, ".SPEF"@, n as int);
    }
    assert(path@.subrange(0, place as int) =~= path@.take(place as int));
    assert(path@.subrange(place as int, n as int) =~= path@.skip(place as int));
    let mut file = framed(slice_text(&cs, 0, place).as_str(), "_", corner);
    file.append(slice_text(&cs, place, n).as_str());
    file
}

/// The SPEF files of an estimate: one for each corner, in the order of the corners.
pub open spec fn corner_files(path: Seq<char>, corners: Seq<Seq<char>>) -> Seq<Seq<char>> {
    Seq::new(corners.len(), |i: int| corner_file(path, corners[i], corners.len() as int))
}

/// The SPEF files of an estimate: one for each corner, in the order of the corners.
pub fn spef_files(path: &str, corners: &Vec<String>) -> (r: Vec<String>)
    ensures
        text::views(r@) == corner_files(path@, text::views(corners@)),
{
    let n: usize = corners.len();
    let ghost all = corner_files(path@, text::views(corners@));
    let mut out: Vec<String> = Vec::new();
    let mut i: usize = 0;
    assert(text::views(out@) =~= all.take(0));
    while i < n
        invariant
            n == corners@.len(),
            i <= n,
            all == corner_files(path@, text::views(corners@)),
            text::views(out@) == all.take(i as int),
        decreases n - i,
    {
        let ghost before = out@;
        let file = spef_file(path, corners[i].as_str(), n);
        let ghost name = file@;
        out.push(file);
        i = i + 1;
        assert(text::views(out@) =~= text::views(before).push(name));
        assert(text::views(out@) =~= all.take(i as int));
    }
    assert(all.take(n as int) =~= all);
    out
}

/// The SPEF files of an estimate, each with the corner that it is for.
pub open spec fn owed_files(path: Seq<char>, corners: Seq<Seq<char>>) -> Seq<OwedSpefView> {
    Seq::new(
        corners.len(),
        |i: int| OwedSpefView { corner: i as usize, file: corner_files(path, corners)[i] },
    )
}

/// What `flate2::read::MultiGzDecoder` reads out of gzip data to its end as UTF-8 text, or its
/// error's text.
pub uninterp spec fn gunzipped(data: Seq<u8>) -> Result<Seq<char>, Seq<char>>;

/// Texts or what is wrong, as sequences.
pub open spec fn text_view(r: Result<String, String>) -> Result<Seq<char>, Seq<char>> {
    match r {
        Ok(s) => Ok(s@),
        Err(e) => Err(e@),
    }
}

/// `flate2::read::MultiGzDecoder` on gzip data of one member or more, read to its end as text.
/// Nothing more is claimed of it than that its answer is a function of the data.
#[verifier::external_body]
fn gunzip(data: &Vec<u8>) -> (r: Result<String, String>)
    ensures
        text_view(r) == gunzipped(data@),
{
    let mut s = String::new();
    match flate2::read::MultiGzDecoder::new(data.as_slice()).read_to_string(&mut s) {
        Ok(_) => Ok(s),
        Err(e) => Err(e.to_string()),
    }
}

/// A file that holds gzip data, by its name.
pub fn is_packed(path: &str) -> (r: bool)
    ensures
        r == text::ends(path@, ".gz"@),
{
    ends_with(path, ".gz")
}

/// What was read from a file, or what is wrong with it, after the file's name.
pub open spec fn named_text(path: Seq<char>, read: Result<Seq<char>, Seq<char>>) -> Result<
    Seq<char>,
    Seq<char>,
> {
    match read {
        Ok(s) => Ok(s),
        Err(e) => Err(path + ": "@ + e),
    }
}

/// What was read from a file, or what is wrong with it, after the file's name.
pub fn name_text(path: &str, read: Result<String, String>) -> (r: Result<String, String>)
    ensures
        text_view(r) == named_text(path@, text_view(read)),
{
    match read {
        Ok(s) => Ok(s),
        Err(e) => Err(framed(path, ": ", e.as_str())),
    }
}

/// The text in a file of gzip data.
pub fn unpack(path: &str, data: &Vec<u8>) -> (r: Result<String, String>)
    ensures
        text_view(r) == named_text(path@, gunzipped(data@)),
{
    name_text(path, gunzip(data))
}

/// Two corners' SPEF files are two files.
pub proof fn law_corners_have_files_of_their_own(
    path: Seq<char>,
    a: Seq<char>,
    b: Seq<char>,
    corners: int,
)
    requires
        corners > 1,
        a != b,
    ensures
        corner_file(path, a, corners) != corner_file(path, b, corners),
{
    let k = corner_place(path);
    let (head, tail) = (path.take(k), path.skip(k));
    let (x, y) = (corner_file(path, a, corners), corner_file(path, b, corners));
    let from = (head + "_"@).len() as int;
    if x == y {
        assert(x.len() == from + a.len() + tail.len());
        assert(y.len() == from + b.len() + tail.len());
        assert(a =~= x.subrange(from, from + a.len()));
        assert(b =~= y.subrange(from, from + b.len()));
    }
}

/// The names of files that were asked for.
pub open spec fn owed_names(s: Seq<OwedSpefView>) -> Seq<Seq<char>> {
    Seq::new(s.len(), |i: int| s[i].file)
}

/// Writing the file that is owed first keeps the list of the files that were asked for: written and
/// owed together, in order. When none is owed, every file that was asked for is written.
pub proof fn law_asked_files_are_written_in_order(written: Seq<Seq<char>>, owed: Seq<OwedSpefView>)
    ensures
        owed.len() > 0 ==> written.push(owed[0].file) + owed_names(owed.skip(1)) == written
            + owed_names(owed),
        owed.len() == 0 ==> written == written + owed_names(owed),
{
    if owed.len() > 0 {
        assert(written.push(owed[0].file) + owed_names(owed.skip(1)) =~= written + owed_names(owed));
    } else {
        assert(written + owed_names(owed) =~= written);
    }
}

/// There are as many SPEF files as corners, each for the corner at its place and with that corner's
/// name, and corners of different names never share one.
pub proof fn law_one_spef_file_per_corner(path: Seq<char>, corners: Seq<Seq<char>>)
    requires
        corners.len() <= usize::MAX,
    ensures
        corner_files(path, corners).len() == corners.len(),
        owed_files(path, corners).len() == corners.len(),
        forall|i: int|
            0 <= i < corners.len() ==> (#[trigger] owed_files(path, corners)[i]).corner == i
                && owed_files(path, corners)[i].file == corner_file(
                path,
                corners[i],
                corners.len() as int,
            ),
        forall|i: int, j: int|
            0 <= i < corners.len() && 0 <= j < corners.len() && corners[i] != corners[j]
                ==> #[trigger] corner_files(path, corners)[i] != #[trigger] corner_files(path, corners)[j],
{
    assert forall|i: int, j: int|
        0 <= i < corners.len() && 0 <= j < corners.len() && corners[i] != corners[j] implies
        #[trigger] corner_files(path, corners)[i] != #[trigger] corner_files(path, corners)[j] by {
        law_corners_have_files_of_their_own(path, corners[i], corners[j], corners.len() as int);
    }
}

/// With one corner the SPEF goes to the file that was asked for; with more, a file whose name ends
/// in `.spef` or `.SPEF` has `_` and the corner before that ending, whatever stands before it.
pub proof fn law_corner_goes_before_the_ending(
    stem: Seq<char>,
    ending: Seq<char>,
    corner: Seq<char>,
    corners: int,
)
    requires
        ending == ".spef"@ || ending == ".SPEF"@,
    ensures
        corners <= 1 ==> corner_file(stem + ending, corner, corners) == stem + ending,
        corners > 1 ==> corner_file(stem + ending, corner, corners) == stem + "_"@ + corner + ending,
{
    reveal_strlit(".spef");
    reveal_strlit(".SPEF");
    let path = stem + ending;
    let (n, k) = (path.len() as int, stem.len() as int);
    assert(path.subrange(k, n) =~= ending);
    assert(text::occurs_at(path, ending, k));
    assert forall|i: int| k < i < n implies !text::occurs_at(path, ending, i) by {
        assert(i + 5 > n);
    }
    lemma_last_occurrence(path, ending, n, k);
    lemma_occurrence_is_a_place(path, ".spef"@, n);
    lemma_occurrence_is_a_place(path, ".SPEF"@, n);
    assert(path.take(k) =~= stem);
    assert(path.skip(k) =~= ending);
}

/// A last place is one where the text stands, below the bound.
proof fn lemma_occurrence_is_a_place(s: Seq<char>, p: Seq<char>, bound: int)
    ensures
        text::last_occurrence(s, p, bound) matches Some(i) ==> 0 <= i < bound && text::occurs_at(
            s,
            p,
            i,
        ),
    decreases bound,
{
    if bound > 0 && !text::occurs_at(s, p, bound - 1) {
        lemma_occurrence_is_a_place(s, p, bound - 1);
    }
}

proof fn lemma_last_occurrence(s: Seq<char>, p: Seq<char>, bound: int, at: int)
    requires
        0 <= at < bound,
        text::occurs_at(s, p, at),
        forall|i: int| at < i < bound ==> !text::occurs_at(s, p, i),
    ensures
        text::last_occurrence(s, p, bound) == Some(at),
    decreases bound,
{
    if bound - 1 > at {
        lemma_last_occurrence(s, p, bound - 1, at);
    }
}

/// A run's status is `estimated` exactly where it estimated a net, and `vacuous` exactly where it
/// came to its end without one.
pub proof fn law_pass_word_needs_a_net(r: ReportView)
    ensures
        crate::report::status_of(r) == "estimated"@ <==> (r matches ReportView::Done { nets, .. }
            && nets > 0),
        crate::report::status_of(r) == "vacuous"@ <==> (r matches ReportView::Done { nets, .. }
            && nets == 0),
{
    reveal_strlit("estimated");
    reveal_strlit("vacuous");
    reveal_strlit("refused");
    reveal_strlit("error");
    assert("estimated"@.len() == 9);
    assert("vacuous"@[0] == 'v');
    assert("refused"@[0] == 'r');
    assert("error"@.len() == 5);
}

/// Where every corner lacks signal wire capacitance, nothing is estimated; where all have it and
/// a command gave it, something is.
pub proof fn law_capacitance_decides(rc: RcView, tech: Seq<char>, lacking: Seq<bool>)
    requires
        lacking.len() > 0,
    ensures
        (forall|i: int| 0 <= i < lacking.len() ==> #[trigger] lacking[i]) ==> !can_estimate(
            rc,
            tech,
            lacking,
        ),
        (forall|i: int| 0 <= i < lacking.len() ==> !#[trigger] lacking[i]) && rc::resolved_list::<
            SignalCap,
        >(rc.wire_rc, tech).len() > 0 ==> can_estimate(rc, tech, lacking),
{
    if forall|i: int| 0 <= i < lacking.len() ==> !#[trigger] lacking[i] {
        assert(lacking[0] == false);
    }
}

} // verus!
