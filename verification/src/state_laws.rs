//! What resolves of the RC state, and how it is shown.

use vstd::prelude::*;
use vstd::string::*;

use crate::order;
use crate::rc;
use crate::rc::{RcView, WireRcView};
use crate::rc_trace;
use crate::rc_trace::Shown;
use crate::session;
use crate::text;
use crate::value::Double;

verus! {

/// The eight values of a corner are, for signal nets and then for clocks, what the technology's
/// resistances and then its capacitances resolve to there: the horizontal value and then the
/// vertical one.
pub proof fn law_values_of_a_corner(
    wire: Map<Option<Seq<char>>, WireRcView>,
    tech: Seq<char>,
    corner: int,
)
    ensures
        ({
            let v = rc::resolved_values(wire, tech, corner);
            &&& v.len() == 8
            &&& v[0] == rc::hv_at(rc::resolved_list::<rc::SignalRes>(wire, tech), corner).h
            &&& v[1] == rc::hv_at(rc::resolved_list::<rc::SignalRes>(wire, tech), corner).v
            &&& v[2] == rc::hv_at(rc::resolved_list::<rc::SignalCap>(wire, tech), corner).h
            &&& v[3] == rc::hv_at(rc::resolved_list::<rc::SignalCap>(wire, tech), corner).v
            &&& v[4] == rc::hv_at(rc::resolved_list::<rc::ClkRes>(wire, tech), corner).h
            &&& v[5] == rc::hv_at(rc::resolved_list::<rc::ClkRes>(wire, tech), corner).v
            &&& v[6] == rc::hv_at(rc::resolved_list::<rc::ClkCap>(wire, tech), corner).h
            &&& v[7] == rc::hv_at(rc::resolved_list::<rc::ClkCap>(wire, tech), corner).v
        }),
{
}

/// A technology takes each list from its own entry as soon as that entry has one, whatever the
/// shared entry says; else from the shared entry; and never from another technology's.
pub proof fn law_own_list_goes_before_the_shared_one<C: rc::Category>(
    wire: Map<Option<Seq<char>>, WireRcView>,
    tech: Seq<char>,
    other: Seq<char>,
    w: WireRcView,
)
    requires
        other != tech,
    ensures
        C::of(w).len() > 0 ==> rc::resolved_list::<C>(wire.insert(Some(tech), w), tech) == C::of(w),
        rc::resolved_list::<C>(wire.insert(Some(other), w), tech) == rc::resolved_list::<C>(wire, tech),
        wire.contains_key(Some(tech)) && C::of(wire[Some(tech)]).len() > 0 ==> rc::resolved_list::<
            C,
        >(wire.insert(None, w), tech) == C::of(wire[Some(tech)]),
        !(wire.contains_key(Some(tech)) && C::of(wire[Some(tech)]).len() > 0)
            ==> rc::resolved_list::<C>(wire.insert(None, w), tech) == C::of(w),
        rc::resolved_list::<C>(Map::empty(), tech).len() == 0,
{
}

/// Each list of a wire RC is its own: the lists of signal nets and of clocks, of resistances, of
/// capacitances and of layers.
pub proof fn law_lists_of_a_wire_rc(w: WireRcView)
    ensures
        <rc::SignalRes as rc::Category>::of(w) == w.signal_res,
        <rc::SignalCap as rc::Category>::of(w) == w.signal_cap,
        <rc::ClkRes as rc::Category>::of(w) == w.clk_res,
        <rc::ClkCap as rc::Category>::of(w) == w.clk_cap,
        <rc::SignalLayers as rc::Category>::of(w) == w.signal_layers,
        <rc::ClkLayers as rc::Category>::of(w) == w.clk_layers,
{
}

/// The numbers are the same, each as often, and in ascending order.
pub open spec fn put_in_order(before: Seq<i32>, after: Seq<i32>) -> bool {
    &&& after.to_multiset() == before.to_multiset()
    &&& forall|i: int, j: int| 0 <= i <= j < after.len() ==> #[trigger] after[i] <= #[trigger] after[j]
}

proof fn lemma_put_in_order(s: Seq<i32>)
    ensures
        put_in_order(s, order::sorted(s)),
{
    order::law_sorted_keeps_values(s);
    order::law_sorted_ascends(s);
    let t = order::sorted(s);
    assert forall|i: int, j: int| 0 <= i <= j < t.len() implies #[trigger] t[i] <= #[trigger] t[j] by {
        assert(order::Keyed::key(&t[i]) <= order::Keyed::key(&t[j]));
    }
}

/// An estimate puts the layers of signal nets and of clocks in ascending order, in every
/// technology's entry, each list for itself and no layer lost; the values stay.
pub proof fn law_layers_are_put_in_order(
    wire: Map<Option<Seq<char>>, WireRcView>,
    tech: Option<Seq<char>>,
)
    ensures
        ({
            let after = session::all_sorted(wire);
            &&& after.dom() == wire.dom()
            &&& wire.contains_key(tech) ==> {
                &&& put_in_order(wire[tech].signal_layers, after[tech].signal_layers)
                &&& put_in_order(wire[tech].clk_layers, after[tech].clk_layers)
                &&& after[tech].signal_res == wire[tech].signal_res
                &&& after[tech].signal_cap == wire[tech].signal_cap
                &&& after[tech].clk_res == wire[tech].clk_res
                &&& after[tech].clk_cap == wire[tech].clk_cap
            }
        }),
{
    let after = session::all_sorted(wire);
    assert(after.dom() =~= wire.dom());
    if wire.contains_key(tech) {
        lemma_put_in_order(wire[tech].signal_layers);
        lemma_put_in_order(wire[tech].clk_layers);
    }
}

/// The line of a corner shows its place and its name, and then, each by its label, the horizontal
/// and the vertical resistance and capacitance that resolve there: for signal nets and then for
/// clocks.
pub proof fn law_line_of_a_corner(state: RcView, tech: Seq<char>, shown: Seq<Shown>, k: int)
    ensures
        ({
            let w = state.wire_rc;
            let sig_res = rc::hv_at(rc::resolved_list::<rc::SignalRes>(w, tech), k);
            let sig_cap = rc::hv_at(rc::resolved_list::<rc::SignalCap>(w, tech), k);
            let clk_res = rc::hv_at(rc::resolved_list::<rc::ClkRes>(w, tech), k);
            let clk_cap = rc::hv_at(rc::resolved_list::<rc::ClkCap>(w, tech), k);
            rc_trace::corner_line(k, state.scenes[k], rc::resolved_values(w, tech, k), shown)
                == "VYGE|rc|"@ + text::integer(k) + "|"@ + state.scenes[k] + "|sig_h_r="@
                + rc_trace::g17(shown, sig_res.h) + "|sig_v_r="@ + rc_trace::g17(shown, sig_res.v)
                + "|sig_h_c="@ + rc_trace::g17(shown, sig_cap.h) + "|sig_v_c="@ + rc_trace::g17(
                shown,
                sig_cap.v,
            ) + "|clk_h_r="@ + rc_trace::g17(shown, clk_res.h) + "|clk_v_r="@ + rc_trace::g17(
                shown,
                clk_res.v,
            ) + "|clk_h_c="@ + rc_trace::g17(shown, clk_cap.h) + "|clk_v_c="@ + rc_trace::g17(
                shown,
                clk_cap.v,
            ) + "\n"@
        }),
{
}

/// A layer has one line in each corner that its row reaches, and none in another: by its number,
/// with its resistance and then its capacitance there. The lines of two lists of layers, one after
/// the other, follow each other.
pub proof fn law_lines_of_layers(
    state: RcView,
    a: Seq<int>,
    b: Seq<int>,
    layer: int,
    k: int,
    shown: Seq<Shown>,
)
    requires
        k >= 0,
    ensures
        rc_trace::layer_lines(state, a + b, k, shown) == rc_trace::layer_lines(state, a, k, shown)
            + rc_trace::layer_lines(state, b, k, shown),
        state.layer_res.contains_key(layer) && k < state.layer_res[layer].len()
            ==> rc_trace::layer_lines(state, seq![layer], k, shown) == "VYGE|layer_rc|"@
            + text::integer(k) + "|"@ + text::integer(layer) + "|r="@ + rc_trace::g17(
            shown,
            rc::layer_value(state.layer_res, layer, k),
        ) + "|c="@ + rc_trace::g17(shown, rc::layer_value(state.layer_cap, layer, k)) + "\n"@,
        !(state.layer_res.contains_key(layer) && k < state.layer_res[layer].len())
            ==> rc_trace::layer_lines(state, seq![layer], k, shown).len() == 0,
    decreases b.len(),
{
    let one = seq![layer];
    assert(one.drop_last() =~= Seq::empty());
    assert(one.last() == layer);
    assert(rc_trace::layer_lines(state, one.drop_last(), k, shown) =~= Seq::empty());
    if state.layer_res.contains_key(layer) && k < state.layer_res[layer].len() {
        assert(rc_trace::layer_lines(state, one, k, shown) =~= rc_trace::layer_line(
            k,
            layer,
            rc::layer_value(state.layer_res, layer, k),
            rc::layer_value(state.layer_cap, layer, k),
            shown,
        ));
    }
    if b.len() == 0 {
        assert(a + b =~= a);
        assert(rc_trace::layer_lines(state, b, k, shown) =~= Seq::empty());
        assert(rc_trace::layer_lines(state, a, k, shown) + rc_trace::layer_lines(state, b, k, shown)
            =~= rc_trace::layer_lines(state, a, k, shown));
    } else {
        law_lines_of_layers(state, a, b.drop_last(), layer, k, shown);
        assert((a + b).drop_last() =~= a + b.drop_last());
        assert((a + b).last() == b.last());
        assert(rc_trace::layer_lines(state, a + b, k, shown) =~= rc_trace::layer_lines(
            state,
            a,
            k,
            shown,
        ) + rc_trace::layer_lines(state, b, k, shown));
    }
}

/// The state is shown corner by corner: with no corner there is only the line of the layer lists,
/// those of signal nets and then those of clocks; each corner more adds, before that line, its own
/// line and then its layers'.
pub proof fn law_state_is_shown_corner_by_corner(
    state: RcView,
    rows: Seq<int>,
    tech: Seq<char>,
    shown: Seq<Shown>,
    n: int,
)
    requires
        0 <= n,
    ensures
        rc_trace::corner_lines(state, rows, tech, shown, 0).len() == 0,
        rc_trace::corner_lines(state, rows, tech, shown, n + 1) == rc_trace::corner_lines(
            state,
            rows,
            tech,
            shown,
            n,
        ) + rc_trace::corner_line(
            n,
            state.scenes[n],
            rc::resolved_values(state.wire_rc, tech, n),
            shown,
        ) + rc_trace::layer_lines(state, rows, n, shown),
        rc_trace::rc_trace(state, rows, tech, shown) == rc_trace::corner_lines(
            state,
            rows,
            tech,
            shown,
            state.scenes.len() as int,
        ) + ("VYGE|layers|signal="@ + rc_trace::number_list(
            rc::resolved_list::<rc::SignalLayers>(state.wire_rc, tech),
        ) + "|clk="@ + rc_trace::number_list(
            rc::resolved_list::<rc::ClkLayers>(state.wire_rc, tech),
        ) + "\n"@),
{
}

/// Numbers are listed one after the other, each with a semicolon behind it.
pub proof fn law_numbers_are_listed(a: Seq<i32>, b: Seq<i32>, x: i32)
    ensures
        rc_trace::number_list(a + b) == rc_trace::number_list(a) + rc_trace::number_list(b),
        rc_trace::number_list(seq![x]) == text::integer(x as int) + ";"@,
    decreases b.len(),
{
    let one = seq![x];
    assert(one.drop_last() =~= Seq::empty());
    assert(rc_trace::number_list(one.drop_last()) =~= Seq::empty());
    assert(rc_trace::number_list(one) =~= text::integer(x as int) + ";"@);
    if b.len() == 0 {
        assert(a + b =~= a);
        assert(rc_trace::number_list(a) + rc_trace::number_list(b) =~= rc_trace::number_list(a));
    } else {
        law_numbers_are_listed(a, b.drop_last(), x);
        assert((a + b).drop_last() =~= a + b.drop_last());
        assert((a + b).last() == b.last());
        assert(rc_trace::number_list(a + b) =~= rc_trace::number_list(a) + rc_trace::number_list(b));
    }
}

/// The value at place `i` is `d`, and none before it is.
pub open spec fn first_shown(shown: Seq<Shown>, d: Double, i: int) -> bool {
    &&& 0 <= i < shown.len()
    &&& shown[i].value == d
    &&& forall|k: int| 0 <= k < i ==> (#[trigger] shown[k]).value != d
}

/// A value is shown as the first that speaks of it says.
pub proof fn law_a_value_is_shown_as_said(shown: Seq<Shown>, d: Double)
    ensures
        forall|i: int| #[trigger]
            first_shown(shown, d, i) ==> rc_trace::shown_as(shown, d) == Some(shown[i].decimal@),
        rc_trace::shown_as(shown, d) is None <==> forall|k: int|
            0 <= k < shown.len() ==> (#[trigger] shown[k]).value != d,
    decreases shown.len(),
{
    if shown.len() > 0 {
        let rest = shown.skip(1);
        law_a_value_is_shown_as_said(rest, d);
        assert forall|k: int| 0 < k < shown.len() implies #[trigger] shown[k] == rest[k - 1] by {}
        if shown[0].value != d {
            assert forall|i: int| #[trigger] first_shown(shown, d, i) implies rc_trace::shown_as(
                shown,
                d,
            ) == Some(shown[i].decimal@) by {
                assert forall|k: int| 0 <= k < i - 1 implies (#[trigger] rest[k]).value != d by {
                    assert(shown[k + 1].value != d);
                }
                assert(first_shown(rest, d, i - 1));
            }
            if forall|k: int| 0 <= k < shown.len() ==> (#[trigger] shown[k]).value != d {
                assert forall|k: int| 0 <= k < rest.len() implies (#[trigger] rest[k]).value != d by {
                    assert(shown[k + 1].value != d);
                }
            }
            if forall|k: int| 0 <= k < rest.len() ==> (#[trigger] rest[k]).value != d {
                assert forall|k: int| 0 <= k < shown.len() implies (#[trigger] shown[k]).value != d by {
                    if k > 0 {
                        assert(rest[k - 1].value != d);
                    }
                }
            }
        }
    }
}

} // verus!
