//! The report of a run, as JSON.

use vstd::prelude::*;
use vstd::string::*;

use crate::text;
use crate::text::{contains_text, framed};

verus! {

/// The report of a run.
#[derive(Debug, PartialEq, Eq)]
pub enum Report {
    /// The job could not be read.
    Unreadable { reason: String },
    /// A step failed or was refused.
    Failed { reason: String },
    /// The run came to its end: so many estimates, so many estimated nets, the files and the log.
    Done { estimates: usize, nets: usize, spef_files: Vec<String>, log: Vec<String> },
}

/// A [`Report`] with its texts and lists as sequences.
pub enum ReportView {
    Unreadable { reason: Seq<char> },
    Failed { reason: Seq<char> },
    Done { estimates: usize, nets: usize, spef_files: Seq<Seq<char>>, log: Seq<Seq<char>> },
}

impl View for Report {
    type V = ReportView;

    open spec fn view(&self) -> ReportView {
        match self {
            Report::Unreadable { reason } => ReportView::Unreadable { reason: reason@ },
            Report::Failed { reason } => ReportView::Failed { reason: reason@ },
            Report::Done { estimates, nets, spef_files, log } => ReportView::Done {
                estimates: *estimates,
                nets: *nets,
                spef_files: text::views(spef_files@),
                log: text::views(log@),
            },
        }
    }
}

/// A report's status. A run that estimated no net is `vacuous`, never `estimated`; a failure that
/// says something is not modelled is a refusal.
pub open spec fn status_of(r: ReportView) -> Seq<char> {
    match r {
        ReportView::Unreadable { .. } => "error"@,
        ReportView::Failed { reason } => if text::occurs(reason, "not modelled"@) {
            "refused"@
        } else {
            "error"@
        },
        ReportView::Done { nets, .. } => if nets == 0 {
            "vacuous"@
        } else {
            "estimated"@
        },
    }
}

/// A hexadecimal digit.
pub open spec fn hex_digit(d: int) -> char {
    if d < 10 {
        text::digit(d)
    } else {
        (('a' as int) + d - 10) as char
    }
}

/// A character within a JSON string.
pub open spec fn json_char(c: char) -> Seq<char> {
    if c == '"' || c == '\\' {
        seq!['\\', c]
    } else if c as int == 8 {
        seq!['\\', 'b']
    } else if c == '\t' {
        seq!['\\', 't']
    } else if c == '\n' {
        seq!['\\', 'n']
    } else if c as int == 12 {
        seq!['\\', 'f']
    } else if c == '\r' {
        seq!['\\', 'r']
    } else if (c as int) < 32 {
        seq!['\\', 'u', '0', '0', hex_digit(c as int / 16), hex_digit(c as int % 16)]
    } else {
        seq![c]
    }
}

/// The characters of a text within a JSON string.
pub open spec fn json_chars(s: Seq<char>) -> Seq<char>
    decreases s.len(),
{
    if s.len() == 0 {
        Seq::empty()
    } else {
        json_chars(s.drop_last()) + json_char(s.last())
    }
}

/// A text as a JSON string.
pub open spec fn json_string(s: Seq<char>) -> Seq<char> {
    "\""@ + json_chars(s) + "\""@
}

/// How `serde_json::Value` shows a string: between quotes, with a backslash before a quote and a
/// backslash, the short escapes for backspace, tab, line feed, form feed and carriage return,
/// `\u00` and two digits for every other control character, and all else as it is.
#[verifier::external_body]
fn quote(s: &str) -> (r: String)
    ensures
        r@ == json_string(s@),
{
    serde_json::Value::String(s.to_owned()).to_string()
}

/// Texts as JSON strings, a comma between two.
pub open spec fn json_items(s: Seq<Seq<char>>) -> Seq<char>
    decreases s.len(),
{
    if s.len() == 0 {
        Seq::empty()
    } else if s.len() == 1 {
        json_string(s[0])
    } else {
        json_items(s.drop_last()) + ","@ + json_string(s.last())
    }
}

/// A report's JSON: its members in the order of their names, on one line.
pub open spec fn json_of(r: ReportView) -> Seq<char> {
    match r {
        ReportView::Done { estimates, nets, spef_files, log } => "{\"estimates\":"@
            + text::integer(estimates as int) + ",\"log\":["@ + json_items(log) + "],\"nets\":"@
            + text::integer(nets as int) + ",\"spef_files\":["@ + json_items(spef_files)
            + "],\"status\":"@ + json_string(status_of(r)) + ",\"tool\":\"vyges-est\"}\n"@,
        ReportView::Unreadable { reason } => "{\"reason\":"@ + json_string(reason) + ",\"status\":"@
            + json_string(status_of(r)) + ",\"tool\":\"vyges-est\"}\n"@,
        ReportView::Failed { reason } => "{\"reason\":"@ + json_string(reason) + ",\"status\":"@
            + json_string(status_of(r)) + ",\"tool\":\"vyges-est\"}\n"@,
    }
}

/// What a run did, in one line; a run that did not come to its end did nothing to count.
pub open spec fn census_of(r: ReportView) -> Seq<char> {
    match r {
        ReportView::Done { estimates, nets, spef_files, .. } => "estimates="@ + text::integer(
            estimates as int,
        ) + " nets="@ + text::integer(nets as int) + " spef_files="@ + text::integer(
            spef_files.len() as int,
        ),
        _ => "estimates=null nets=null spef_files=0"@,
    }
}

fn quote_all(v: &Vec<String>) -> (r: String)
    ensures
        r@ == json_items(text::views(v@)),
{
    let n: usize = v.len();
    let mut t = String::new();
    let mut i: usize = 0;
    while i < n
        invariant
            n == v@.len(),
            i <= n,
            t@ == json_items(text::views(v@).take(i as int)),
        decreases n - i,
    {
        let ghost all = text::views(v@);
        assert(all.take(i + 1).drop_last() =~= all.take(i as int));
        if i > 0 {
            t.append(",");
        }
        let ghost before = t@;
        t.append(quote(v[i].as_str()).as_str());
        if i == 0 {
            assert(t@ =~= json_string(all[0]));
        }
        i = i + 1;
    }
    assert(text::views(v@).take(n as int) =~= text::views(v@));
    t
}

impl Report {
    /// The report's status.
    pub fn status(&self) -> (r: &'static str)
        ensures
            r@ == status_of(self@),
    {
        match self {
            Report::Unreadable { .. } => "error",
            Report::Failed { reason } => if contains_text(reason.as_str(), "not modelled") {
                "refused"
            } else {
                "error"
            },
            Report::Done { nets, .. } => if *nets == 0 {
                "vacuous"
            } else {
                "estimated"
            },
        }
    }

    /// Why the run did not come to its end, where it did not.
    pub fn reason(&self) -> (r: Option<&str>)
        ensures
            match self@ {
                ReportView::Unreadable { reason } => r matches Some(s) && s@ == reason,
                ReportView::Failed { reason } => r matches Some(s) && s@ == reason,
                ReportView::Done { .. } => r is None,
            },
    {
        match self {
            Report::Unreadable { reason } => Some(reason.as_str()),
            Report::Failed { reason } => Some(reason.as_str()),
            Report::Done { .. } => None,
        }
    }

    /// What the run did, in one line.
    pub fn census(&self) -> (r: String)
        ensures
            r@ == census_of(self@),
    {
        match self {
            Report::Done { estimates, nets, spef_files, .. } => {
                let mut t = "estimates=".to_owned();
                text::push_int(&mut t, *estimates as i128);
                t.append(" nets=");
                text::push_int(&mut t, *nets as i128);
                t.append(" spef_files=");
                text::push_int(&mut t, spef_files.len() as i128);
                t
            },
            _ => "estimates=null nets=null spef_files=0".to_owned(),
        }
    }

    /// The report as JSON, on one line.
    pub fn json(&self) -> (r: String)
        ensures
            r@ == json_of(self@),
    {
        let mut t = match self {
            Report::Done { estimates, nets, spef_files, log } => {
                let mut t = "{\"estimates\":".to_owned();
                text::push_int(&mut t, *estimates as i128);
                t.append(",\"log\":[");
                t.append(quote_all(log).as_str());
                t.append("],\"nets\":");
                text::push_int(&mut t, *nets as i128);
                t.append(",\"spef_files\":[");
                t.append(quote_all(spef_files).as_str());
                t.append("],\"status\":");
                t
            },
            Report::Unreadable { reason } => framed(
                "{\"reason\":",
                quote(reason.as_str()).as_str(),
                ",\"status\":",
            ),
            Report::Failed { reason } => framed(
                "{\"reason\":",
                quote(reason.as_str()).as_str(),
                ",\"status\":",
            ),
        };
        t.append(quote(self.status()).as_str());
        t.append(",\"tool\":\"vyges-est\"}\n");
        t
    }
}

} // verus!
