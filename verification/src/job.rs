//! A job: the commands to run, as its JSON text gives them.

use vstd::prelude::*;
use vstd::string::*;

use crate::text;
use crate::text::framed;
use crate::value::Double;

verus! {

/// One command of a job.
#[derive(Debug, PartialEq, Eq)]
pub struct Step {
    /// The command's name, where it is a text.
    pub cmd: Option<String>,
    /// The arguments, where they are a list; each, where it is a text.
    pub args: Option<Vec<Option<String>>>,
}

/// A job.
#[derive(Debug, PartialEq, Eq)]
pub struct Job {
    /// The commands in order, where they are a list.
    pub steps: Option<Vec<Step>>,
    /// The Steiner builder's alpha, where it is a number.
    pub alpha: Option<Double>,
    /// Where the trace goes, where it is a text.
    pub trace: Option<String>,
}

/// A [`Step`] with its texts and its list as sequences.
pub struct StepView {
    pub cmd: Option<Seq<char>>,
    pub args: Option<Seq<Option<Seq<char>>>>,
}

/// A [`Job`] with its texts and its list as sequences.
pub struct JobView {
    pub steps: Option<Seq<StepView>>,
    pub alpha: Option<Double>,
    pub trace: Option<Seq<char>>,
}

/// A text, where there is one, as a sequence.
pub open spec fn maybe(s: Option<String>) -> Option<Seq<char>> {
    match s {
        Some(t) => Some(t@),
        None => None,
    }
}

/// Texts, where they are, as sequences.
pub open spec fn maybes(s: Seq<Option<String>>) -> Seq<Option<Seq<char>>> {
    Seq::new(s.len(), |i: int| maybe(s[i]))
}

impl View for Step {
    type V = StepView;

    open spec fn view(&self) -> StepView {
        StepView {
            cmd: maybe(self.cmd),
            args: match self.args {
                Some(v) => Some(maybes(v@)),
                None => None,
            },
        }
    }
}

/// Steps with their texts and lists as sequences.
pub open spec fn steps_view(s: Seq<Step>) -> Seq<StepView> {
    Seq::new(s.len(), |i: int| s[i]@)
}

impl View for Job {
    type V = JobView;

    open spec fn view(&self) -> JobView {
        JobView {
            steps: match self.steps {
                Some(v) => Some(steps_view(v@)),
                None => None,
            },
            alpha: self.alpha,
            trace: maybe(self.trace),
        }
    }
}

/// A job or what is wrong, as sequences.
pub open spec fn job_view(r: Result<Job, String>) -> Result<JobView, Seq<char>> {
    match r {
        Ok(j) => Ok(j@),
        Err(e) => Err(e@),
    }
}

/// What `serde_json::from_str` makes of a text as a JSON value, as far as a job reads it: the
/// members `steps`, `alpha` and `trace`, and of each step `cmd` and `args`; or its error's text.
pub uninterp spec fn job_in(json: Seq<char>) -> Result<JobView, Seq<char>>;

/// `serde_json::from_str` into a JSON value, whose members are then handed over one for one: a
/// member that is missing or of another type is `None`. Nothing more is claimed of it than that
/// its answer is a function of the text.
#[verifier::external_body]
fn parse_job(json: &str) -> (r: Result<Job, String>)
    ensures
        job_view(r) == job_in(json@),
{
    let v: serde_json::Value = serde_json::from_str(json).map_err(|e| e.to_string())?;
    let text = |v: &serde_json::Value| v.as_str().map(String::from);
    let step = |v: &serde_json::Value| Step {
        cmd: text(&v["cmd"]),
        args: v["args"].as_array().map(|a| a.iter().map(text).collect()),
    };
    Ok(Job {
        steps: v["steps"].as_array().map(|a| a.iter().map(step).collect()),
        alpha: v["alpha"].as_f64().map(|d| Double { bits: d.to_bits() }),
        trace: text(&v["trace"]),
    })
}

/// A job that was read from a file, or what is wrong with it, after the file's name.
pub open spec fn named_job(path: Seq<char>, read: Result<JobView, Seq<char>>) -> Result<
    JobView,
    Seq<char>,
> {
    match read {
        Ok(j) => Ok(j),
        Err(e) => Err(path + ": "@ + e),
    }
}

/// A job that was read from a file, or what is wrong with it, after the file's name.
pub fn name_job(path: &str, read: Result<Job, String>) -> (r: Result<Job, String>)
    ensures
        job_view(r) == named_job(path@, job_view(read)),
{
    match read {
        Ok(j) => Ok(j),
        Err(e) => Err(framed(path, ": ", e.as_str())),
    }
}

/// The job in a file's text.
pub fn read_job(path: &str, json: &str) -> (r: Result<Job, String>)
    ensures
        job_view(r) == named_job(path@, job_in(json@)),
{
    name_job(path, parse_job(json))
}

/// The texts among arguments, in order.
pub open spec fn texts_of(s: Seq<Option<Seq<char>>>) -> Seq<Seq<char>>
    decreases s.len(),
{
    if s.len() == 0 {
        Seq::empty()
    } else {
        match s.last() {
            Some(t) => texts_of(s.drop_last()).push(t),
            None => texts_of(s.drop_last()),
        }
    }
}

impl StepView {
    /// The step's arguments: the texts in its list, none without one.
    pub open spec fn words(self) -> Seq<Seq<char>> {
        match self.args {
            Some(s) => texts_of(s),
            None => Seq::empty(),
        }
    }
}

impl Step {
    /// The step's arguments: the texts in its list, none without one.
    pub fn words(&self) -> (r: Vec<String>)
        ensures
            text::views(r@) == self@.words(),
    {
        let mut out: Vec<String> = Vec::new();
        assert(text::views(out@) =~= Seq::empty());
        match &self.args {
            None => {},
            Some(v) => {
                let n: usize = v.len();
                let mut i: usize = 0;
                while i < n
                    invariant
                        n == v@.len(),
                        i <= n,
                        text::views(out@) == texts_of(maybes(v@).take(i as int)),
                    decreases n - i,
                {
                    let ghost before = out@;
                    assert(maybes(v@).take(i + 1).drop_last() =~= maybes(v@).take(i as int));
                    if let Some(t) = &v[i] {
                        out.push(t.clone());
                        assert(text::views(out@) =~= text::views(before).push(t@));
                    }
                    i = i + 1;
                }
                assert(maybes(v@).take(n as int) =~= maybes(v@));
            },
        }
        out
    }
}

/// The alpha that trees are built with where a job gives none: three tenths.
#[verifier::allow_in_spec]
pub fn default_alpha() -> Double
    returns
        (Double { bits: 0x3fd3_3333_3333_3333 }),
{
    Double { bits: 0x3fd3_3333_3333_3333 }
}

impl Job {
    /// The commands in order; a job without a list of them is at fault.
    pub fn steps(&self) -> (r: Result<&Vec<Step>, String>)
        ensures
            match self@.steps {
                Some(s) => r matches Ok(v) && steps_view(v@) == s,
                None => r matches Err(e) && e@ == "steps"@,
            },
    {
        match &self.steps {
            Some(v) => Ok(v),
            None => Err("steps".to_owned()),
        }
    }

    /// The alpha that trees are built with: the job's, or three tenths.
    pub fn alpha(&self) -> (r: Double)
        ensures
            r == match self@.alpha {
                Some(d) => d,
                None => default_alpha(),
            },
    {
        match self.alpha {
            Some(d) => d,
            None => default_alpha(),
        }
    }
}

} // verus!
