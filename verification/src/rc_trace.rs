//! The RC state as text: one line per corner, one per layer and corner, and the layer lists.

use vstd::prelude::*;
use vstd::string::*;

use crate::number;
use crate::number::{fmt_g17, Decimal, DecimalView};
use crate::rc;
use crate::rc::{ClkLayers, Rc, RcView, SignalLayers};
use crate::text::push_int;
use crate::text;
use crate::value::Double;

verus! {

/// A double and what it is in decimal.
#[derive(Debug, PartialEq, Eq)]
pub struct Shown {
    pub value: Double,
    pub decimal: Decimal,
}

/// What `d` is in decimal: as the first of `shown` says that speaks of it.
pub open spec fn shown_as(shown: Seq<Shown>, d: Double) -> Option<DecimalView>
    decreases shown.len(),
{
    if shown.len() == 0 {
        None
    } else if shown[0].value == d {
        Some(shown[0].decimal@)
    } else {
        shown_as(shown.skip(1), d)
    }
}

/// `d` with 17 significant digits.
pub open spec fn g17(shown: Seq<Shown>, d: Double) -> Seq<char> {
    number::g_text(shown_as(shown, d)->0, 17)
}

/// `shown` says what `d` is with 17 significant digits.
pub open spec fn shows(shown: Seq<Shown>, d: Double) -> bool {
    shown_as(shown, d) matches Some(v) && v.wf(17)
}

/// A layer's row reaches corner `k`.
pub open spec fn reaches(state: RcView, layer: int, k: int) -> bool {
    k < rc::row_at(state.layer_res, layer).len()
}

/// The values that the lines of corner `k` show for the layers `rows`.
pub open spec fn layer_values_shown(state: RcView, rows: Seq<int>, k: int) -> Seq<Double>
    decreases rows.len(),
{
    if rows.len() == 0 {
        Seq::empty()
    } else {
        let before = layer_values_shown(state, rows.drop_last(), k);
        if reaches(state, rows.last(), k) {
            before.push(rc::layer_value(state.layer_res, rows.last(), k)).push(
                rc::layer_value(state.layer_cap, rows.last(), k),
            )
        } else {
            before
        }
    }
}

/// The values that the lines of the first `n` corners show.
pub open spec fn values_shown(state: RcView, rows: Seq<int>, tech: Seq<char>, n: int) -> Seq<Double>
    decreases n,
{
    if n <= 0 {
        Seq::empty()
    } else {
        values_shown(state, rows, tech, n - 1) + rc::resolved_values(state.wire_rc, tech, n - 1)
            + layer_values_shown(state, rows, n - 1)
    }
}

/// The line of corner `k`.
pub open spec fn corner_line(k: int, name: Seq<char>, v: Seq<Double>, shown: Seq<Shown>) -> Seq<char> {
    "VYGE|rc|"@ + text::integer(k) + "|"@ + name + "|sig_h_r="@ + g17(shown, v[0]) + "|sig_v_r="@ + g17(shown, v[1])
        + "|sig_h_c="@ + g17(shown, v[2]) + "|sig_v_c="@ + g17(shown, v[3]) + "|clk_h_r="@ + g17(shown, v[4])
        + "|clk_v_r="@ + g17(shown, v[5]) + "|clk_h_c="@ + g17(shown, v[6]) + "|clk_v_c="@ + g17(shown, v[7]) + "\n"@
}

/// The line of a layer in corner `k`.
pub open spec fn layer_line(k: int, layer: int, res: Double, cap: Double, shown: Seq<Shown>) -> Seq<char> {
    "VYGE|layer_rc|"@ + text::integer(k) + "|"@ + text::integer(layer) + "|r="@ + g17(shown, res) + "|c="@ + g17(
        shown,
        cap,
    ) + "\n"@
}

/// The lines of the layers `rows` in corner `k`: of those whose row reaches it.
pub open spec fn layer_lines(state: RcView, rows: Seq<int>, k: int, shown: Seq<Shown>) -> Seq<char>
    decreases rows.len(),
{
    if rows.len() == 0 {
        Seq::empty()
    } else {
        let before = layer_lines(state, rows.drop_last(), k, shown);
        if reaches(state, rows.last(), k) {
            before + layer_line(
                k,
                rows.last(),
                rc::layer_value(state.layer_res, rows.last(), k),
                rc::layer_value(state.layer_cap, rows.last(), k),
                shown,
            )
        } else {
            before
        }
    }
}

/// The lines of the first `n` corners.
pub open spec fn corner_lines(state: RcView, rows: Seq<int>, tech: Seq<char>, shown: Seq<Shown>, n: int) -> Seq<char>
    decreases n,
{
    if n <= 0 {
        Seq::empty()
    } else {
        corner_lines(state, rows, tech, shown, n - 1) + corner_line(
            n - 1,
            state.scenes[n - 1],
            rc::resolved_values(state.wire_rc, tech, n - 1),
            shown,
        ) + layer_lines(state, rows, n - 1, shown)
    }
}

/// Numbers, each with a semicolon behind it.
pub open spec fn number_list(v: Seq<i32>) -> Seq<char>
    decreases v.len(),
{
    if v.len() == 0 {
        Seq::empty()
    } else {
        number_list(v.drop_last()) + text::integer(v.last() as int) + ";"@
    }
}

/// The RC state as text.
pub open spec fn rc_trace(state: RcView, rows: Seq<int>, tech: Seq<char>, shown: Seq<Shown>) -> Seq<char> {
    corner_lines(state, rows, tech, shown, state.scenes.len() as int) + ("VYGE|layers|signal="@ + number_list(
        rc::resolved_list::<SignalLayers>(state.wire_rc, tech),
    ) + "|clk="@ + number_list(rc::resolved_list::<ClkLayers>(state.wire_rc, tech)) + "\n"@)
}

/// Puts numbers at the end of `out`, each with a semicolon behind it.
fn push_numbers(out: &mut String, v: &Vec<i32>)
    ensures
        final(out)@ == old(out)@ + number_list(v@),
{
    let ghost before = out@;
    let n: usize = v.len();
    let mut i: usize = 0;
    assert(out@ =~= before + number_list(v@.take(0)));
    while i < n
        invariant
            n == v@.len(),
            i <= n,
            out@ == before + number_list(v@.take(i as int)),
        decreases n - i,
    {
        push_int(out, v[i] as i128);
        out.append(";");
        i = i + 1;
        assert(v@.take(i as int).drop_last() =~= v@.take(i - 1));
        assert(out@ =~= before + number_list(v@.take(i as int)));
    }
    assert(v@.take(n as int) =~= v@);
}

/// Puts `d` with 17 significant digits at the end of `out`.
fn push_g17(out: &mut String, shown: &Vec<Shown>, d: Double)
    requires
        shows(shown@, d),
    ensures
        final(out)@ == old(out)@ + g17(shown@, d),
{
    let n: usize = shown.len();
    let mut i: usize = 0;
    assert(shown@.skip(0) =~= shown@);
    while i < n
        invariant
            n == shown@.len(),
            i <= n,
            shows(shown@, d),
            shown_as(shown@, d) == shown_as(shown@.skip(i as int), d),
            out@ == old(out)@,
        decreases n - i,
    {
        assert(shown@.skip(i as int).skip(1) =~= shown@.skip(i + 1));
        if shown[i].value.bits == d.bits {
            out.append(fmt_g17(&shown[i].decimal).as_str());
            return;
        }
        i = i + 1;
    }
}

/// Puts a label and then `d` with 17 significant digits at the end of `out`.
fn push_field(out: &mut String, label: &str, shown: &Vec<Shown>, d: Double)
    requires
        shows(shown@, d),
    ensures
        final(out)@ == old(out)@ + label@ + g17(shown@, d),
{
    out.append(label);
    push_g17(out, shown, d);
}

impl Rc {
    /// The values that [`Rc::trace`] shows, in the order in which it shows them.
    pub fn trace_values(&self, tech: &str) -> (r: Vec<Double>)
        requires
            self.wf(),
        ensures
            r@ == values_shown(self@, self.layer_res.order(), tech@, self@.scenes.len() as int),
    {
        let ghost rows = self.layer_res.order();
        let (n, m): (usize, usize) = (self.scenes.len(), self.layer_res.len());
        let mut out: Vec<Double> = Vec::new();
        let mut k: usize = 0;
        while k < n
            invariant
                self.wf(),
                rows == self.layer_res.order(),
                n == self@.scenes.len(),
                m == rows.len(),
                k <= n,
                out@ == values_shown(self@, rows, tech@, k as int),
            decreases n - k,
        {
            let v = self.resolved(tech, k);
            let ghost before = out@;
            let mut j: usize = 0;
            assert(out@ =~= before + v@.take(0));
            while j < 8
                invariant
                    j <= 8,
                    out@ == before + v@.take(j as int),
                decreases 8 - j,
            {
                out.push(v[j]);
                j = j + 1;
                assert(out@ =~= before + v@.take(j as int));
            }
            assert(v@.take(8) =~= v@);
            let ghost base = out@;
            let mut i: usize = 0;
            assert(out@ =~= base + layer_values_shown(self@, rows.take(0), k as int));
            while i < m
                invariant
                    self.wf(),
                    rows == self.layer_res.order(),
                    m == rows.len(),
                    i <= m,
                    out@ == base + layer_values_shown(self@, rows.take(i as int), k as int),
                decreases m - i,
            {
                assert(rows.take(i + 1).drop_last() =~= rows.take(i as int));
                if k < self.layer_res.value_at(i).len() {
                    let l: i128 = self.layer_res.key_at(i);
                    let (res, cap) = self.layer_rc_at(l, k);
                    out.push(res);
                    out.push(cap);
                }
                i = i + 1;
                assert(out@ =~= base + layer_values_shown(self@, rows.take(i as int), k as int));
            }
            assert(rows.take(m as int) =~= rows);
            k = k + 1;
        }
        out
    }

    /// The RC state as text: one line per corner, one per layer that reaches it, then the layer
    /// lists. `shown` says what each value of [`Rc::trace_values`] is with 17 significant digits.
    pub fn trace(&self, tech: &str, shown: &Vec<Shown>) -> (r: String)
        requires
            self.wf(),
            forall|i: int|
                0 <= i < values_shown(
                    self@,
                    self.layer_res.order(),
                    tech@,
                    self@.scenes.len() as int,
                ).len() ==> shows(
                    shown@,
                    #[trigger] values_shown(
                        self@,
                        self.layer_res.order(),
                        tech@,
                        self@.scenes.len() as int,
                    )[i],
                ),
        ensures
            r@ == rc_trace(self@, self.layer_res.order(), tech@, shown@),
    {
        let ghost rows = self.layer_res.order();
        let (n, m): (usize, usize) = (self.scenes.len(), self.layer_res.len());
        let ghost all = values_shown(self@, rows, tech@, n as int);
        let mut out = String::new();
        let mut k: usize = 0;
        while k < n
            invariant
                self.wf(),
                rows == self.layer_res.order(),
                n == self@.scenes.len(),
                m == rows.len(),
                k <= n,
                all == values_shown(self@, rows, tech@, n as int),
                forall|i: int| 0 <= i < all.len() ==> shows(shown@, #[trigger] all[i]),
                out@ == corner_lines(self@, rows, tech@, shown@, k as int),
            decreases n - k,
        {
            let v = self.resolved(tech, k);
            proof {
                lemma_corner_shown(self@, rows, tech@, n as int, k as int, shown@);
            }
            let mut line = "VYGE|rc|".to_owned();
            push_int(&mut line, k as i128);
            line.append("|");
            line.append(self.scenes[k].as_str());
            push_field(&mut line, "|sig_h_r=", shown, v[0]);
            push_field(&mut line, "|sig_v_r=", shown, v[1]);
            push_field(&mut line, "|sig_h_c=", shown, v[2]);
            push_field(&mut line, "|sig_v_c=", shown, v[3]);
            push_field(&mut line, "|clk_h_r=", shown, v[4]);
            push_field(&mut line, "|clk_v_r=", shown, v[5]);
            push_field(&mut line, "|clk_h_c=", shown, v[6]);
            push_field(&mut line, "|clk_v_c=", shown, v[7]);
            line.append("\n");
            assert(line@ == corner_line(k as int, self@.scenes[k as int], v@, shown@));
            out.append(line.as_str());
            let ghost base = out@;
            let mut i: usize = 0;
            assert(out@ =~= base + layer_lines(self@, rows.take(0), k as int, shown@));
            while i < m
                invariant
                    self.wf(),
                    rows == self.layer_res.order(),
                    m == rows.len(),
                    i <= m,
                    forall|j: int| 0 <= j < m && #[trigger] reaches(self@, rows[j], k as int) ==> shows(
                        shown@,
                        rc::layer_value(self@.layer_res, rows[j], k as int),
                    ) && shows(shown@, rc::layer_value(self@.layer_cap, rows[j], k as int)),
                    out@ == base + layer_lines(self@, rows.take(i as int), k as int, shown@),
                decreases m - i,
            {
                assert(rows.take(i + 1).drop_last() =~= rows.take(i as int));
                if k < self.layer_res.value_at(i).len() {
                    assert(reaches(self@, rows[i as int], k as int));
                    let l: i128 = self.layer_res.key_at(i);
                    let (res, cap) = self.layer_rc_at(l, k);
                    let mut line = "VYGE|layer_rc|".to_owned();
                    push_int(&mut line, k as i128);
                    line.append("|");
                    push_int(&mut line, l);
                    push_field(&mut line, "|r=", shown, res);
                    push_field(&mut line, "|c=", shown, cap);
                    line.append("\n");
                    out.append(line.as_str());
                }
                i = i + 1;
                assert(out@ =~= base + layer_lines(self@, rows.take(i as int), k as int, shown@));
            }
            assert(rows.take(m as int) =~= rows);
            k = k + 1;
        }
        let mut line = "VYGE|layers|signal=".to_owned();
        push_numbers(&mut line, &self.resolve(tech, SignalLayers));
        line.append("|clk=");
        push_numbers(&mut line, &self.resolve(tech, ClkLayers));
        line.append("\n");
        out.append(line.as_str());
        out
    }
}

/// What is shown of all the layers in one corner is shown of each.
proof fn lemma_layer_shown(state: RcView, rows: Seq<int>, k: int, j: int)
    requires
        0 <= j < rows.len(),
        reaches(state, rows[j], k),
    ensures
        layer_values_shown(state, rows, k).contains(rc::layer_value(state.layer_res, rows[j], k)),
        layer_values_shown(state, rows, k).contains(rc::layer_value(state.layer_cap, rows[j], k)),
    decreases rows.len(),
{
    let last = rows.len() - 1;
    let all = layer_values_shown(state, rows, k);
    let before = layer_values_shown(state, rows.drop_last(), k);
    if j == last {
        assert(all[before.len() as int] == rc::layer_value(state.layer_res, rows[j], k));
        assert(all[before.len() as int + 1] == rc::layer_value(state.layer_cap, rows[j], k));
    } else {
        lemma_layer_shown(state, rows.drop_last(), k, j);
        let a = before.index_of(rc::layer_value(state.layer_res, rows[j], k));
        let b = before.index_of(rc::layer_value(state.layer_cap, rows[j], k));
        assert(all[a] == before[a]);
        assert(all[b] == before[b]);
    }
}

/// What is shown of all corners is shown of each.
proof fn lemma_shown_of(state: RcView, rows: Seq<int>, tech: Seq<char>, n: int, k: int, d: Double)
    requires
        0 <= k < n,
        rc::resolved_values(state.wire_rc, tech, k).contains(d) || layer_values_shown(state, rows, k).contains(d),
    ensures
        values_shown(state, rows, tech, n).contains(d),
    decreases n,
{
    let before = values_shown(state, rows, tech, n - 1);
    let mid = rc::resolved_values(state.wire_rc, tech, n - 1);
    let end = layer_values_shown(state, rows, n - 1);
    let all = values_shown(state, rows, tech, n);
    if k == n - 1 {
        if mid.contains(d) {
            let i = mid.index_of(d);
            assert(all[before.len() as int + i] == d);
        } else {
            let i = end.index_of(d);
            assert(all[before.len() as int + mid.len() as int + i] == d);
        }
    } else {
        lemma_shown_of(state, rows, tech, n - 1, k, d);
        let i = before.index_of(d);
        assert(all[i] == d);
    }
}

proof fn lemma_corner_shown(state: RcView, rows: Seq<int>, tech: Seq<char>, n: int, k: int, shown: Seq<Shown>)
    requires
        0 <= k < n,
        forall|i: int|
            0 <= i < values_shown(state, rows, tech, n).len() ==> shows(
                shown,
                #[trigger] values_shown(state, rows, tech, n)[i],
            ),
    ensures
        forall|i: int| 0 <= i < 8 ==> shows(shown, #[trigger] rc::resolved_values(state.wire_rc, tech, k)[i]),
        forall|j: int| 0 <= j < rows.len() && #[trigger] reaches(state, rows[j], k) ==> shows(
            shown,
            rc::layer_value(state.layer_res, rows[j], k),
        ) && shows(shown, rc::layer_value(state.layer_cap, rows[j], k)),
{
    let all = values_shown(state, rows, tech, n);
    let mid = rc::resolved_values(state.wire_rc, tech, k);
    assert forall|i: int| 0 <= i < 8 implies shows(shown, #[trigger] mid[i]) by {
        lemma_shown_of(state, rows, tech, n, k, mid[i]);
        assert(all[all.index_of(mid[i])] == mid[i]);
    }
    assert forall|j: int| 0 <= j < rows.len() && #[trigger] reaches(state, rows[j], k) implies shows(
        shown,
        rc::layer_value(state.layer_res, rows[j], k),
    ) && shows(shown, rc::layer_value(state.layer_cap, rows[j], k)) by {
        let (r, c) = (rc::layer_value(state.layer_res, rows[j], k), rc::layer_value(state.layer_cap, rows[j], k));
        lemma_layer_shown(state, rows, k, j);
        lemma_shown_of(state, rows, tech, n, k, r);
        lemma_shown_of(state, rows, tech, n, k, c);
        assert(all[all.index_of(r)] == r);
        assert(all[all.index_of(c)] == c);
    }
}

} // verus!
