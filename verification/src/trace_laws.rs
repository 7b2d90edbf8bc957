//! What the trace says of a net.

use vstd::prelude::*;
use vstd::string::*;

use crate::placement;
use crate::placement::{Branch, DecisionView, NetEstimateView, PinLoc};
use crate::text;

verus! {

/// Pins are shown one after the other, each as its name, `@`, its place along x, a comma, its place
/// along y and a semicolon.
pub proof fn law_pins_are_shown(a: Seq<PinLoc>, b: Seq<PinLoc>, p: PinLoc)
    ensures
        placement::pins_text(a + b) == placement::pins_text(a) + placement::pins_text(b),
        placement::pins_text(seq![p]) == p.name@ + "@"@ + text::integer(p.x as int) + ","@
            + text::integer(p.y as int) + ";"@,
    decreases b.len(),
{
    let one = seq![p];
    assert(one.drop_last() =~= Seq::empty());
    assert(placement::pins_text(one.drop_last()) =~= Seq::empty());
    assert(placement::pins_text(one) =~= placement::pin_text(p));
    if b.len() == 0 {
        assert(a + b =~= a);
        assert(placement::pins_text(a) + placement::pins_text(b) =~= placement::pins_text(a));
    } else {
        law_pins_are_shown(a, b.drop_last(), p);
        assert((a + b).drop_last() =~= a + b.drop_last());
        assert((a + b).last() == b.last());
        assert(placement::pins_text(a + b) =~= placement::pins_text(a) + placement::pins_text(b));
    }
}

/// Branches are shown one after the other, each as its place along x, its place along y and the point
/// that it goes to, with commas between and a semicolon behind.
pub proof fn law_branches_are_shown(a: Seq<Branch>, b: Seq<Branch>, p: Branch)
    ensures
        placement::branches_text(a + b) == placement::branches_text(a) + placement::branches_text(b),
        placement::branches_text(seq![p]) == text::integer(p.x as int) + ","@ + text::integer(
            p.y as int,
        ) + ","@ + text::integer(p.n as int) + ";"@,
    decreases b.len(),
{
    let one = seq![p];
    assert(one.drop_last() =~= Seq::empty());
    assert(placement::branches_text(one.drop_last()) =~= Seq::empty());
    assert(placement::branches_text(one) =~= placement::branch_text(p));
    if b.len() == 0 {
        assert(a + b =~= a);
        assert(placement::branches_text(a) + placement::branches_text(b)
            =~= placement::branches_text(a));
    } else {
        law_branches_are_shown(a, b.drop_last(), p);
        assert((a + b).drop_last() =~= a + b.drop_last());
        assert((a + b).last() == b.last());
        assert(placement::branches_text(a + b) =~= placement::branches_text(a)
            + placement::branches_text(b));
    }
}

/// A place is shown as a number, and -1 where there is none.
pub proof fn law_places_are_shown(at: Option<usize>)
    ensures
        at is None ==> placement::signed_place(at) == -1,
        at matches Some(i) ==> i <= i64::MAX ==> placement::signed_place(at) == i,
{
}

/// A net's trace begins with its name, how many drivers it has and the driver's name. Without a
/// driver that is all. Else the net's kind follows, and then, for a net with a tree, its pins with
/// the driver's index, its tree with the driver's point, and whether it is a clock's that is no leaf;
/// for a net without one, its pins with the driver's index, and that they are not placed where there
/// are two or more; for an ideal clock, that it is skipped; and for every other net nothing.
pub proof fn law_what_is_traced_of_a_net(n: NetEstimateView)
    ensures
        ({
            let first = "VYGE|net|"@ + n.net + "|drivers="@ + text::integer(n.drivers as int)
                + "|drvr="@ + (match n.drvr {
                Some(s) => s,
                None => Seq::empty(),
            }) + "\n"@;
            let kind = |word: Seq<char>| "VYGE|kind|"@ + n.net + "|"@ + word + "\n"@;
            let pins = |v: Seq<PinLoc>, at: Option<usize>|
                "VYGE|pins|"@ + n.net + "|drvr_idx="@ + text::integer(placement::signed_place(at))
                    + "|"@ + placement::pins_text(v) + "\n"@;
            match n.decision {
                DecisionView::NoDriver => placement::net_trace(n) == first,
                DecisionView::Power => placement::net_trace(n) == first + kind("power"@),
                DecisionView::Ground => placement::net_trace(n) == first + kind("ground"@),
                DecisionView::Special => placement::net_trace(n) == first + kind("special"@),
                DecisionView::Pad { .. } => placement::net_trace(n) == first + kind("pad"@),
                DecisionView::Skip => placement::net_trace(n) == first + kind("steiner"@)
                    + ("VYGE|skip|"@ + n.net + "\n"@),
                DecisionView::NoTree { pinlocs, drvr_idx } => if pinlocs.len() < 2 {
                    placement::net_trace(n) == first + kind("steiner"@) + pins(pinlocs, drvr_idx)
                } else {
                    placement::net_trace(n) == first + kind("steiner"@) + (pins(pinlocs, drvr_idx) + (
                    "VYGE|noplace|"@ + n.net + "\n"@))
                },
                DecisionView::Tree { tree, drvr_idx, non_leaf_clock } => placement::net_trace(n)
                    == first + kind("steiner"@) + (pins(tree.pinlocs, drvr_idx) + ("VYGE|tree|"@
                    + n.net + "|pins="@ + text::integer(tree.pinlocs.len() as int) + "|drvr_pt="@
                    + text::integer(placement::signed_place(tree.drvr_pt)) + "|"@
                    + placement::branches_text(tree.tree.branch) + "\n"@) + ("VYGE|clk|"@ + n.net
                    + if non_leaf_clock {
                    "|1\n"@
                } else {
                    "|0\n"@
                })),
            }
        }),
{
    let t = placement::net_trace(n);
    if n.decision is Power || n.decision is Ground || n.decision is Special || n.decision is Pad {
        assert(t =~= placement::net_line(n) + placement::kind_line(n.net, n.decision));
    }
}

} // verus!
