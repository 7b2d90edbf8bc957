//! What becomes of a net, told from its terminals.

use vstd::prelude::*;
use vstd::string::*;

use crate::db;
use crate::db::{BTerm, ITerm, ITermClockFacts, Net};
use crate::order;
use crate::placement;
use crate::placement::{DecisionView, NetEstimateView, PinLoc, SttTree, Timing};
use crate::text;

verus! {

/// The pin is the instance terminal: at the average of its geometry, else at its instance's origin,
/// and placed where the instance is.
pub open spec fn is_terminal(p: PinLoc, t: ITerm) -> bool {
    &&& p.name@ == t.name@
    &&& !p.is_port
    &&& t.avg_xy matches Some(at) ==> p.x == at.0 && p.y == at.1
    &&& t.avg_xy is None ==> p.x == t.origin_x && p.y == t.origin_y
    &&& p.placed == t.placed
}

/// The status is one that a placed pin has.
pub open spec fn says_placed(status: Seq<char>) -> bool {
    status == "PLACED"@ || status == "FIRM"@ || status == "LOCKED"@ || status == "COVER"@
}

/// The pin is the block terminal: at its first placed pin, else at the zero point, and placed where
/// its status says so.
pub open spec fn is_block_terminal(p: PinLoc, t: BTerm) -> bool {
    &&& p.name@ == t.name@
    &&& p.is_port
    &&& t.first_pin matches Some(at) ==> p.x == at.0 && p.y == at.1
    &&& t.first_pin is None ==> p.x == 0 && p.y == 0
    &&& p.placed == says_placed(t.status@)
}

/// The pins of a net in the database's order are its terminals, each once: the instance terminals
/// and behind them the block terminals.
pub proof fn law_pins_are_the_terminals(net: Net)
    ensures
        placement::connected(net).len() == net.iterms@.len() + net.bterms@.len(),
        forall|i: int|
            0 <= i < net.iterms@.len() ==> is_terminal(
                #[trigger] placement::connected(net)[i],
                net.iterms@[i],
            ),
        forall|i: int|
            0 <= i < net.bterms@.len() ==> is_block_terminal(
                placement::connected(net)[net.iterms@.len() + i],
                #[trigger] net.bterms@[i],
            ),
{
}

/// The pins are the net's terminals in some order, each once: those of its pins in the database's
/// order.
pub open spec fn same_pins(pins: Seq<PinLoc>, net: Net) -> bool {
    pins.to_multiset() == placement::connected(net).to_multiset()
}

proof fn lemma_same_pins(pins: Seq<PinLoc>, net: Net)
    requires
        same_pins(pins, net),
    ensures
        pins.len() == placement::connected(net).len(),
        forall|j: int|
            0 <= j < pins.len() ==> placement::connected(net).contains(#[trigger] pins[j]),
        forall|i: int|
            0 <= i < placement::connected(net).len() ==> pins.contains(
                #[trigger] placement::connected(net)[i],
            ),
{
    let all = placement::connected(net);
    pins.to_multiset_ensures();
    all.to_multiset_ensures();
    assert forall|j: int| 0 <= j < pins.len() implies all.contains(#[trigger] pins[j]) by {
        assert(pins.contains(pins[j]));
        assert(all.to_multiset().count(pins[j]) > 0);
    }
    assert forall|i: int| 0 <= i < all.len() implies pins.contains(#[trigger] all[i]) by {
        assert(all.contains(all[i]));
        assert(pins.to_multiset().count(all[i]) > 0);
    }
}

proof fn lemma_decided_pins(net: Net)
    requires
        placement::connected_by_id(net) is Ok,
    ensures
        same_pins(placement::connected_by_id(net)->Ok_0, net),
        same_pins(order::sorted(placement::connected_by_id(net)->Ok_0), net),
        order::ascending(order::sorted(placement::connected_by_id(net)->Ok_0)),
{
    placement::law_pins_by_number(net);
    order::law_sorted_keeps_values(placement::connected_by_id(net)->Ok_0);
    order::law_sorted_ascends(placement::connected_by_id(net)->Ok_0);
}

/// The pins that a decision lists, for a tree, for the lack of one or for a pad, are the net's
/// terminals, each once; those of a pad net by their numbers.
pub proof fn law_listed_pins_are_the_terminals<
    F: Fn(&Vec<i32>, &Vec<i32>, usize) -> SttTree,
    G: Fn(bool, &Vec<ITermClockFacts>) -> bool,
>(
    net: Net,
    timing: Timing<'_>,
    clock_nets: Seq<Seq<char>>,
    stt: F,
    non_leaf: G,
    n: NetEstimateView,
)
    requires
        placement::net_estimated(net, timing, clock_nets, stt, non_leaf, Ok(n)),
    ensures
        n.decision matches DecisionView::Tree { tree, .. } ==> same_pins(tree.pinlocs, net),
        n.decision matches DecisionView::NoTree { pinlocs, .. } ==> same_pins(pinlocs, net),
        n.decision matches DecisionView::Pad { pins } ==> same_pins(pins, net) && forall|i: int, j: int|
            0 <= i <= j < pins.len() ==> number_of(net, #[trigger] pins[i]) <= number_of(
                net,
                #[trigger] pins[j],
            ),
{
    if placement::connected_by_id(net) is Ok {
        lemma_decided_pins(net);
        placement::law_pins_by_number(net);
    }
}

/// Every instance terminal of the net is placed, and every block terminal has a status that says
/// so.
pub open spec fn all_placed(net: Net) -> bool {
    &&& forall|i: int| 0 <= i < net.iterms@.len() ==> (#[trigger] net.iterms@[i]).placed
    &&& forall|i: int|
        0 <= i < net.bterms@.len() ==> ({
            let status = (#[trigger] net.bterms@[i]).status@;
            status == "PLACED"@ || status == "FIRM"@ || status == "LOCKED"@ || status == "COVER"@
        })
}

proof fn lemma_all_placed(net: Net, pins: Seq<PinLoc>)
    requires
        same_pins(pins, net),
    ensures
        (forall|j: int| 0 <= j < pins.len() ==> (#[trigger] pins[j]).placed) <==> all_placed(net),
{
    let all = placement::connected(net);
    lemma_same_pins(pins, net);
    law_pins_are_the_terminals(net);
    if forall|j: int| 0 <= j < pins.len() ==> (#[trigger] pins[j]).placed {
        assert forall|i: int| 0 <= i < all.len() implies (#[trigger] all[i]).placed by {
            assert(pins.contains(all[i]));
            let j = choose|j: int| 0 <= j < pins.len() && pins[j] == all[i];
            assert(pins[j].placed);
        }
        assert forall|i: int| 0 <= i < net.iterms@.len() implies (#[trigger] net.iterms@[i]).placed by {
            assert(is_terminal(all[i], net.iterms@[i]));
        }
        assert forall|i: int| 0 <= i < net.bterms@.len() implies says_placed(
            (#[trigger] net.bterms@[i]).status@,
        ) by {
            assert(is_block_terminal(all[net.iterms@.len() + i], net.bterms@[i]));
            assert(all[net.iterms@.len() + i].placed);
        }
    }
    if all_placed(net) {
        assert forall|j: int| 0 <= j < pins.len() implies (#[trigger] pins[j]).placed by {
            assert(all.contains(pins[j]));
            let i = choose|i: int| 0 <= i < all.len() && all[i] == pins[j];
            if i < net.iterms@.len() {
                assert(is_terminal(all[i], net.iterms@[i]));
            } else {
                assert(is_block_terminal(
                    all[net.iterms@.len() + (i - net.iterms@.len())],
                    net.bterms@[i - net.iterms@.len()],
                ));
            }
        }
    }
}

/// A net gets a tree only where it has two terminals or more, every one of its instance terminals
/// is placed and every one of its block terminals has a status of `PLACED`, `FIRM`, `LOCKED` or
/// `COVER`; and it is left without one for want of placed terminals only where that is not so.
pub proof fn law_a_tree_needs_every_terminal_placed<
    F: Fn(&Vec<i32>, &Vec<i32>, usize) -> SttTree,
    G: Fn(bool, &Vec<ITermClockFacts>) -> bool,
>(
    net: Net,
    timing: Timing<'_>,
    clock_nets: Seq<Seq<char>>,
    stt: F,
    non_leaf: G,
    n: NetEstimateView,
)
    requires
        placement::net_estimated(net, timing, clock_nets, stt, non_leaf, Ok(n)),
    ensures
        n.decision is Tree ==> {
            &&& net.iterms@.len() + net.bterms@.len() >= 2
            &&& forall|i: int| 0 <= i < net.iterms@.len() ==> (#[trigger] net.iterms@[i]).placed
            &&& forall|i: int|
                0 <= i < net.bterms@.len() ==> ({
                    let status = (#[trigger] net.bterms@[i]).status@;
                    status == "PLACED"@ || status == "FIRM"@ || status == "LOCKED"@ || status
                        == "COVER"@
                })
        },
        n.decision is NoTree ==> net.iterms@.len() + net.bterms@.len() < 2 || !all_placed(net),
{
    if placement::connected_by_id(net) is Ok {
        let pins = order::sorted(placement::connected_by_id(net)->Ok_0);
        lemma_decided_pins(net);
        lemma_same_pins(pins, net);
        law_pins_are_the_terminals(net);
        lemma_all_placed(net, pins);
    }
}

/// An instance terminal drives: it is neither power nor ground nor clocked, and its signal goes out
/// or both ways.
pub open spec fn sends(t: ITerm) -> bool {
    &&& t.sig_type@ != "POWER"@
    &&& t.sig_type@ != "GROUND"@
    &&& !t.clocked
    &&& t.io_type@ == "OUTPUT"@ || t.io_type@ == "INOUT"@
}

/// A block terminal drives: it is neither power nor ground, and its signal comes in or goes both
/// ways.
pub open spec fn feeds(t: BTerm) -> bool {
    &&& t.sig_type@ != "POWER"@
    &&& t.sig_type@ != "GROUND"@
    &&& t.io_type@ == "INPUT"@ || t.io_type@ == "INOUT"@
}

proof fn lemma_iterm_driver(s: Seq<ITerm>) -> (i: int)
    ensures
        match placement::first_iterm_driver(s) {
            Some(p) => 0 <= i < s.len() && sends(s[i]) && is_terminal(p, s[i]) && forall|k: int|
                0 <= k < i ==> !sends(#[trigger] s[k]),
            None => forall|k: int| 0 <= k < s.len() ==> !sends(#[trigger] s[k]),
        },
    decreases s.len(),
{
    if s.len() == 0 || sends(s[0]) {
        0
    } else {
        let rest = s.skip(1);
        let j = lemma_iterm_driver(rest);
        assert forall|k: int| 0 < k < s.len() implies #[trigger] s[k] == rest[k - 1] by {}
        j + 1
    }
}

proof fn lemma_bterm_driver(s: Seq<BTerm>) -> (i: int)
    ensures
        match placement::first_bterm_driver(s) {
            Some(p) => 0 <= i < s.len() && feeds(s[i]) && is_block_terminal(p, s[i]) && forall|
                k: int,
            |
                0 <= k < i ==> !feeds(#[trigger] s[k]),
            None => forall|k: int| 0 <= k < s.len() ==> !feeds(#[trigger] s[k]),
        },
    decreases s.len(),
{
    if s.len() == 0 || feeds(s[0]) {
        0
    } else {
        let rest = s.skip(1);
        let j = lemma_bterm_driver(rest);
        assert forall|k: int| 0 < k < s.len() implies #[trigger] s[k] == rest[k - 1] by {}
        j + 1
    }
}

/// Nothing on the net drives it.
pub open spec fn undriven(net: Net) -> bool {
    ||| net.sig_type@ == "POWER"@
    ||| net.sig_type@ == "GROUND"@
    ||| {
        &&& forall|k: int| 0 <= k < net.iterms@.len() ==> !sends(#[trigger] net.iterms@[k])
        &&& forall|k: int| 0 <= k < net.bterms@.len() ==> !feeds(#[trigger] net.bterms@[k])
    }
}

/// The pin is the net's driver: the first instance terminal that drives, or, where none does, the
/// first block terminal that does.
pub open spec fn is_driver(net: Net, p: PinLoc) -> bool {
    ||| exists|i: int|
        0 <= i < net.iterms@.len() && is_terminal(p, #[trigger] net.iterms@[i]) && sends(
            net.iterms@[i],
        ) && forall|k: int| 0 <= k < i ==> !sends(#[trigger] net.iterms@[k])
    ||| {
        &&& forall|k: int| 0 <= k < net.iterms@.len() ==> !sends(#[trigger] net.iterms@[k])
        &&& exists|i: int|
            0 <= i < net.bterms@.len() && is_block_terminal(p, #[trigger] net.bterms@[i]) && feeds(
                net.bterms@[i],
            ) && forall|k: int| 0 <= k < i ==> !feeds(#[trigger] net.bterms@[k])
    }
}

/// A net has no driver exactly where it is power or ground or nothing on it drives; else its driver
/// is the first instance terminal that drives, or the first block terminal where no instance
/// terminal does.
pub proof fn law_the_driver_is_the_first_that_drives(net: Net)
    ensures
        placement::first_driver(net) is None <==> undriven(net),
        placement::first_driver(net) matches Some(p) ==> is_driver(net, p),
{
    let i = lemma_iterm_driver(net.iterms@);
    let j = lemma_bterm_driver(net.bterms@);
    reveal_strlit("POWER");
    reveal_strlit("GROUND");
    if let Some(p) = placement::first_iterm_driver(net.iterms@) {
        assert(is_terminal(p, net.iterms@[i]));
    } else if let Some(p) = placement::first_bterm_driver(net.bterms@) {
        assert(is_block_terminal(p, net.bterms@[j]));
    }
}

/// The pin is on a pad: it is an instance terminal, and its master's type begins with `PAD` or is
/// that of a cover bump.
pub open spec fn on_pad(net: Net, p: PinLoc) -> bool {
    !p.is_port && exists|i: int|
        #![trigger net.iterms@[i]]
        db::stands_first(net.iterms@, p.name@, i) && net.iterms@[i].master_type is Ok && ({
            let kind = net.iterms@[i].master_type->Ok_0@;
            kind.len() >= 3 && kind.take(3) == "PAD"@ || kind == "COVER_BUMP"@ || kind
                == "COVER BUMP"@
        })
}

/// A list of pins is a pad net's exactly where the first two of it are a port and a pin on a pad,
/// in either order.
pub proof fn law_pad_nets(net: Net, pins: Seq<PinLoc>)
    requires
        placement::pad_net(net, pins) is Ok,
    ensures
        placement::pad_net(net, pins)->Ok_0 <==> (pins.len() >= 2 && (pins[0].is_port && on_pad(
            net,
            pins[1],
        ) || pins[1].is_port && on_pad(net, pins[0]))),
{
    reveal_strlit("PAD");
    if pins.len() >= 2 && pins[0].is_port != pins[1].is_port {
        let p = if pins[0].is_port {
            pins[1]
        } else {
            pins[0]
        };
        lemma_pad_pin(net, p);
    }
}

proof fn lemma_pad_pin(net: Net, p: PinLoc)
    requires
        placement::pad_pin(net, p) is Ok,
    ensures
        placement::pad_pin(net, p)->Ok_0 <==> on_pad(net, p),
{
    reveal_strlit("PAD");
    db::law_first_named(net.iterms@, p.name@);
    if !p.is_port {
        let t = db::first_named(net.iterms@, p.name@)->Some_0;
        let i = choose|i: int| #[trigger] db::stands_first(net.iterms@, p.name@, i)
            && net.iterms@[i] == t;
        let kind = t.master_type->Ok_0@;
        assert(net.iterms@[i].master_type is Ok);
        if kind.len() >= 3 {
            assert(kind.subrange(0, 3) =~= kind.take(3));
        }
    }
}

/// What becomes of a net that has an estimate, told from the net: nothing drives it, or it is
/// special, or it is a pad net, or it is an ideal clock's, which is skipped; else it has a tree
/// exactly where it has two terminals or more and all are placed.
pub proof fn law_what_becomes_of_a_net<
    F: Fn(&Vec<i32>, &Vec<i32>, usize) -> SttTree,
    G: Fn(bool, &Vec<ITermClockFacts>) -> bool,
>(
    net: Net,
    timing: Timing<'_>,
    clock_nets: Seq<Seq<char>>,
    stt: F,
    non_leaf: G,
    n: NetEstimateView,
)
    requires
        placement::net_estimated(net, timing, clock_nets, stt, non_leaf, Ok(n)),
    ensures
        ({
            let pins = placement::connected_by_id(net)->Ok_0;
            let pad = pins.len() >= 2 && (pins[0].is_port && on_pad(net, pins[1])
                || pins[1].is_port && on_pad(net, pins[0]));
            let ideal = clock_nets.contains(net.name@) && !timing.propagated;
            let whole = net.iterms@.len() + net.bterms@.len() >= 2 && all_placed(net);
            &&& n.net == net.name@
            &&& undriven(net) <==> n.decision is NoDriver
            &&& undriven(net) <==> n.drivers == 0
            &&& !undriven(net) <==> n.drivers == 1
            &&& !undriven(net) && net.special <==> n.decision is Special
            &&& !undriven(net) && !net.special && pad <==> n.decision is Pad
            &&& !undriven(net) && !net.special && !pad && ideal <==> n.decision is Skip
            &&& !undriven(net) && !net.special && !pad && !ideal && whole <==> n.decision is Tree
            &&& !undriven(net) && !net.special && !pad && !ideal && !whole <==> n.decision is NoTree
        }),
{
    law_the_driver_is_the_first_that_drives(net);
    if placement::first_driver(net) is Some {
        let pins = placement::connected_by_id(net)->Ok_0;
        lemma_decided_pins(net);
        let sorted = order::sorted(pins);
        lemma_same_pins(sorted, net);
        law_pins_are_the_terminals(net);
        lemma_all_placed(net, sorted);
        if !net.special {
            law_pad_nets(net, pins);
        }
    }
}

/// The driver's index among the pins: that of the first pin of its name.
pub open spec fn first_place_of(pins: Seq<PinLoc>, name: Seq<char>, at: Option<usize>) -> bool {
    match at {
        Some(i) => {
            &&& i < pins.len()
            &&& pins[i as int].name@ == name
            &&& forall|k: int| 0 <= k < i ==> (#[trigger] pins[k]).name@ != name
        },
        None => forall|k: int| 0 <= k < pins.len() ==> (#[trigger] pins[k]).name@ != name,
    }
}

/// The numbers are the pins' places along x and along y.
pub open spec fn are_places(xs: Seq<i32>, ys: Seq<i32>, pins: Seq<PinLoc>) -> bool {
    &&& xs.len() == pins.len()
    &&& ys.len() == pins.len()
    &&& forall|i: int| 0 <= i < pins.len() ==> #[trigger] xs[i] == pins[i].x
    &&& forall|i: int| 0 <= i < pins.len() ==> #[trigger] ys[i] == pins[i].y
}

/// The tree was built of the pins' places along x and along y, from the driver's index, or from the
/// first pin where the driver is not among them.
pub open spec fn built_of<F: Fn(&Vec<i32>, &Vec<i32>, usize) -> SttTree>(
    stt: F,
    pins: Seq<PinLoc>,
    drvr_idx: Option<usize>,
    tree: SttTree,
) -> bool {
    exists|xs: Vec<i32>, ys: Vec<i32>, start: usize|
        #![trigger call_ensures(stt, (&xs, &ys, start), tree)]
        {
            &&& call_ensures(stt, (&xs, &ys, start), tree)
            &&& drvr_idx matches Some(i) ==> start == i
            &&& drvr_idx is None ==> start == 0
            &&& are_places(xs@, ys@, pins)
        }
}

/// The driver's point is the first point of the tree at its place.
pub open spec fn first_point_at(s: Seq<placement::Branch>, p: PinLoc, at: Option<usize>) -> bool {
    match at {
        Some(i) => {
            &&& i < s.len()
            &&& s[i as int].x == p.x
            &&& s[i as int].y == p.y
            &&& forall|k: int| 0 <= k < i ==> (#[trigger] s[k]).x != p.x || s[k].y != p.y
        },
        None => forall|k: int| 0 <= k < s.len() ==> (#[trigger] s[k]).x != p.x || s[k].y != p.y,
    }
}

/// The facts are what the libraries say of the net's instance terminals; nothing where none were
/// read.
pub open spec fn are_facts(v: Seq<ITermClockFacts>, net: Net, timing: Timing<'_>) -> bool {
    &&& v.len() == net.iterms@.len()
    &&& forall|i: int|
        0 <= i < v.len() && timing.liberty is Some ==> #[trigger] v[i] == net.iterms@[i].clock
    &&& forall|i: int|
        0 <= i < v.len() && timing.liberty is None ==> !(#[trigger] v[i]).has_liberty_port
            && !v[i].is_reg_clk && !v[i].cell_is_pad
}

/// The net was taken for a clock's that is no leaf as the test says of its type and of what the
/// libraries say of its instance terminals, nothing where none were read.
pub open spec fn tested<G: Fn(bool, &Vec<ITermClockFacts>) -> bool>(
    non_leaf: G,
    net: Net,
    clock_type: bool,
    timing: Timing<'_>,
    r: bool,
) -> bool {
    exists|v: Vec<ITermClockFacts>|
        #![trigger call_ensures(non_leaf, (clock_type, &v), r)]
        {
            &&& call_ensures(non_leaf, (clock_type, &v), r)
            &&& are_facts(v@, net, timing)
        }
}

/// A net's tree is built of the places of its pins by location, from its driver. The driver that
/// is named is the net's own; its index is that of the first pin of its name, and its point the
/// first point of the tree at its place.
pub proof fn law_a_tree_starts_at_the_driver<
    F: Fn(&Vec<i32>, &Vec<i32>, usize) -> SttTree,
    G: Fn(bool, &Vec<ITermClockFacts>) -> bool,
>(
    net: Net,
    timing: Timing<'_>,
    clock_nets: Seq<Seq<char>>,
    stt: F,
    non_leaf: G,
    n: NetEstimateView,
) -> (found: (PinLoc, SttTree))
    requires
        placement::net_estimated(net, timing, clock_nets, stt, non_leaf, Ok(n)),
        n.decision is Tree,
        net.iterms@.len() + net.bterms@.len() <= usize::MAX,
    ensures
        is_driver(net, found.0),
        n.drvr == Some(found.0.name@),
        n.decision matches DecisionView::Tree { tree, drvr_idx, non_leaf_clock } && {
            &&& tree.tree == found.1@
            &&& order::ascending(tree.pinlocs)
            &&& first_place_of(tree.pinlocs, found.0.name@, drvr_idx)
            &&& built_of(stt, tree.pinlocs, drvr_idx, found.1)
            &&& found.1.branch@.len() <= usize::MAX ==> first_point_at(
                tree.tree.branch,
                found.0,
                tree.drvr_pt,
            )
            &&& tested(non_leaf, net, net.sig_type@ == "CLOCK"@, timing, non_leaf_clock)
        },
{
    law_the_driver_is_the_first_that_drives(net);
    let drvr = placement::first_driver(net)->Some_0;
    let pins = placement::connected_by_id(net)->Ok_0;
    let sorted = order::sorted(pins);
    lemma_decided_pins(net);
    lemma_same_pins(sorted, net);
    law_pins_are_the_terminals(net);
    placement::law_pin_place_is_first(sorted, drvr.name@);
    let drvr_idx = placement::pin_place(sorted, drvr.name@);
    let start = placement::start_of(drvr_idx);
    let facts = placement::clock_facts(net, timing);
    let clock_type = placement::of_clock_type(net);
    let (tree, non_leaf_clock) = choose|tree: SttTree, non_leaf_clock: bool|
        #![trigger placement::built(stt, sorted, start, tree), placement::judged(non_leaf, clock_type, facts, non_leaf_clock)]
        placement::built(stt, sorted, start, tree) && placement::judged(
            non_leaf,
            clock_type,
            facts,
            non_leaf_clock,
        ) && n.decision == (DecisionView::Tree {
            tree: placement::steiner_tree(drvr, sorted, tree),
            drvr_idx,
            non_leaf_clock,
        });
    let (xs, ys) = choose|xs: Vec<i32>, ys: Vec<i32>|
        xs@ == placement::places_x(sorted) && ys@ == placement::places_y(sorted)
            && #[trigger] call_ensures(stt, (&xs, &ys, start), tree);
    assert(call_ensures(stt, (&xs, &ys, start), tree));
    assert(built_of(stt, sorted, drvr_idx, tree));
    let v = choose|v: Vec<ITermClockFacts>|
        v@ == facts && #[trigger] call_ensures(non_leaf, (clock_type, &v), non_leaf_clock);
    assert(call_ensures(non_leaf, (clock_type, &v), non_leaf_clock));
    assert(tested(non_leaf, net, net.sig_type@ == "CLOCK"@, timing, non_leaf_clock));
    if tree.branch@.len() <= usize::MAX {
        placement::law_branch_place_is_first(tree.branch@, drvr.x, drvr.y);
    }
    (drvr, tree)
}

/// The clock network is searched exactly where libraries were read and some clock has a source;
/// then the clock nets are those that the search found, or it fails as the search did; else there
/// are none.
pub proof fn law_clock_nets_are_searched(
    timing: Timing<'_>,
    search: Result<Seq<Seq<char>>, Seq<char>>,
)
    ensures
        timing.liberty is Some && timing.clock_sources@.len() > 0 ==> placement::clock_nets_of(
            timing,
            search,
        ) == search,
        timing.liberty is None || timing.clock_sources@.len() == 0 ==> placement::clock_nets_of(
            timing,
            search,
        ) == Ok::<Seq<Seq<char>>, Seq<char>>(Seq::empty()),
{
}

/// The estimates of a block are those of its nets, in order, each under its net's name; where a net
/// fails, the block fails as the first net does that fails.
pub proof fn law_one_estimate_for_each_net<
    F: Fn(&Vec<i32>, &Vec<i32>, usize) -> SttTree,
    G: Fn(bool, &Vec<ITermClockFacts>) -> bool,
>(
    nets: Seq<Net>,
    timing: Timing<'_>,
    clock_nets: Seq<Seq<char>>,
    stt: F,
    non_leaf: G,
    r: Result<Seq<NetEstimateView>, Seq<char>>,
) -> (at: int)
    requires
        placement::nets_estimated(nets, timing, clock_nets, stt, non_leaf, r),
    ensures
        r matches Ok(v) ==> {
            &&& v.len() == nets.len()
            &&& forall|i: int| 0 <= i < v.len() ==> (#[trigger] v[i]).net == nets[i].name@
            &&& forall|i: int|
                0 <= i < v.len() ==> #[trigger] placement::net_estimated(
                    nets[i],
                    timing,
                    clock_nets,
                    stt,
                    non_leaf,
                    Ok(v[i]),
                )
        },
        r matches Err(e) ==> {
            &&& 0 <= at < nets.len()
            &&& placement::net_estimated(nets[at], timing, clock_nets, stt, non_leaf, Err(e))
            &&& forall|i: int|
                0 <= i < at ==> has_an_estimate(
                    #[trigger] nets[i],
                    timing,
                    clock_nets,
                    stt,
                    non_leaf,
                )
        },
{
    match r {
        Ok(v) => {
            assert forall|i: int| 0 <= i < v.len() implies (#[trigger] v[i]).net
                == nets[i].name@ by {
                assert(placement::net_estimated(
                    nets[i],
                    timing,
                    clock_nets,
                    stt,
                    non_leaf,
                    Ok(v[i]),
                ));
            }
            0
        },
        Err(e) => {
            let at = choose|n: int| #[trigger]
                placement::fails_at(nets, timing, clock_nets, stt, non_leaf, n, e);
            assert forall|i: int| 0 <= i < at implies has_an_estimate(
                #[trigger] nets[i],
                timing,
                clock_nets,
                stt,
                non_leaf,
            ) by {
                assert(placement::net_accepted(nets[i], timing, clock_nets, stt, non_leaf));
                let v = choose|v: NetEstimateView| #[trigger]
                    placement::net_estimated(
                        nets[i],
                        timing,
                        clock_nets,
                        stt,
                        non_leaf,
                        Ok::<NetEstimateView, Seq<char>>(v),
                    );
                assert(placement::net_estimated(
                    nets[i],
                    timing,
                    clock_nets,
                    stt,
                    non_leaf,
                    Ok::<NetEstimateView, Seq<char>>(v),
                ));
            }
            at
        },
    }
}

/// The net does not fail.
pub open spec fn has_an_estimate<
    F: Fn(&Vec<i32>, &Vec<i32>, usize) -> SttTree,
    G: Fn(bool, &Vec<ITermClockFacts>) -> bool,
>(net: Net, timing: Timing<'_>, clock_nets: Seq<Seq<char>>, stt: F, non_leaf: G) -> bool {
    exists|v: NetEstimateView| #[trigger]
        placement::net_estimated(
            net,
            timing,
            clock_nets,
            stt,
            non_leaf,
            Ok::<NetEstimateView, Seq<char>>(v),
        )
}

/// The estimated nets of two lists, one after the other, are those of the one and those of the
/// other together; a net counts exactly where it got a tree or a pad link.
pub proof fn law_estimated_nets_add_up(a: Seq<NetEstimateView>, b: Seq<NetEstimateView>)
    ensures
        placement::estimated_count(a + b) == placement::estimated_count(a)
            + placement::estimated_count(b),
        a.len() == 1 ==> placement::estimated_count(a) == if a[0].decision is Tree || a[0].decision is Pad {
            1nat
        } else {
            0nat
        },
    decreases b.len(),
{
    if a.len() == 1 {
        assert(a.drop_last().len() == 0);
        assert(placement::estimated_count(a.drop_last()) == 0);
    }
    if b.len() == 0 {
        assert(a + b =~= a);
    } else {
        law_estimated_nets_add_up(a, b.drop_last());
        assert((a + b).drop_last() =~= a + b.drop_last());
        assert((a + b).last() == b.last());
    }
}

/// The libraries say that the instance terminal of that name is a constant output: the cell of its
/// master has one by the name behind the terminal's last slash.
pub open spec fn says_constant(net: Net, timing: Timing<'_>, p: PinLoc) -> bool {
    !p.is_port && timing.liberty is Some && exists|i: int, c: int, o: int|
        constant_by(net, timing, p.name@, i, c, o)
}

/// The terminal, the cell and the output by which it is constant.
pub open spec fn constant_by(
    net: Net,
    timing: Timing<'_>,
    name: Seq<char>,
    i: int,
    c: int,
    o: int,
) -> bool {
    let cells = timing.liberty->Some_0.cells@;
    &&& db::stands_first(net.iterms@, name, i)
    &&& db::stands_first(cells, net.iterms@[i].master@, c)
    &&& 0 <= o < cells[c].constant_outputs@.len()
    &&& cells[c].constant_outputs@[o]@ == text::after_last(name, '/')
}

proof fn lemma_constant_pin(net: Net, timing: Timing<'_>, p: PinLoc)
    ensures
        placement::constant_pin(net, timing, p) <==> says_constant(net, timing, p),
{
    let name = p.name@;
    db::law_first_named(net.iterms@, name);
    if !p.is_port && timing.liberty is Some {
        let cells = timing.liberty->Some_0.cells@;
        if let Some(t) = db::first_named(net.iterms@, name) {
            db::law_first_named(cells, t.master@);
            let i = choose|i: int| #[trigger] db::stands_first(net.iterms@, name, i)
                && net.iterms@[i] == t;
            if let Some(cell) = db::first_named(cells, t.master@) {
                let c = choose|c: int| #[trigger] db::stands_first(cells, t.master@, c)
                    && cells[c] == cell;
                let outs = text::views(cell.constant_outputs@);
                if placement::constant_pin(net, timing, p) {
                    let o = choose|o: int|
                        0 <= o < outs.len() && outs[o] == text::after_last(name, '/');
                    assert(constant_by(net, timing, name, i, c, o));
                }
            }
        }
        if says_constant(net, timing, p) {
            let (i, c, o) = choose|i: int, c: int, o: int| constant_by(net, timing, name, i, c, o);
            assert(db::first_named(net.iterms@, name) == Some(net.iterms@[i]));
            let t = net.iterms@[i];
            db::law_first_named(cells, t.master@);
            assert(db::first_named(cells, t.master@) == Some(cells[c]));
            let outs = text::views(cells[c].constant_outputs@);
            assert(outs[o] == text::after_last(name, '/'));
        }
    }
}

/// A net fails exactly where one of its pins has no number, or it is not known whether it is a pad
/// net, or it would have a tree or pins to list and its driver is a constant output, of which the
/// failure then tells.
pub proof fn law_which_nets_fail<
    F: Fn(&Vec<i32>, &Vec<i32>, usize) -> SttTree,
    G: Fn(bool, &Vec<ITermClockFacts>) -> bool,
>(
    net: Net,
    timing: Timing<'_>,
    clock_nets: Seq<Seq<char>>,
    stt: F,
    non_leaf: G,
    r: Result<NetEstimateView, Seq<char>>,
)
    requires
        placement::net_estimated(net, timing, clock_nets, stt, non_leaf, r),
    ensures
        undriven(net) ==> r is Ok,
        !undriven(net) ==> ({
            let drvr = placement::first_driver(net)->Some_0;
            let pins = placement::connected_by_id(net);
            let ideal = clock_nets.contains(net.name@) && !timing.propagated;
            if pins is Err {
                r == Err::<NetEstimateView, Seq<char>>(pins->Err_0)
            } else if net.special {
                r is Ok
            } else if placement::pad_net(net, pins->Ok_0) is Err {
                r == Err::<NetEstimateView, Seq<char>>(
                    placement::pad_net(net, pins->Ok_0)->Err_0,
                )
            } else if placement::pad_net(net, pins->Ok_0)->Ok_0 || ideal {
                r is Ok
            } else if says_constant(net, timing, drvr) {
                r == Err::<NetEstimateView, Seq<char>>(
                    "net "@ + net.name@
                        + ": driven by a constant (tie) output — isConstant is not modelled"@,
                )
            } else {
                r is Ok
            }
        }),
{
    law_the_driver_is_the_first_that_drives(net);
    if !undriven(net) {
        lemma_constant_pin(net, timing, placement::first_driver(net)->Some_0);
    }
}

/// A pin has a number exactly where its terminal has an id; the net's pins have theirs exactly where
/// all its terminals have, as the first of each name says.
pub proof fn law_when_pins_have_numbers(net: Net)
    ensures
        placement::connected_by_id(net) is Ok <==> forall|i: int|
            0 <= i < placement::connected(net).len() ==> placement::key_of(
                net,
                #[trigger] placement::connected(net)[i],
            ) is Ok,
{
    lemma_with_keys(net, placement::connected(net));
}

proof fn lemma_with_keys(net: Net, pins: Seq<PinLoc>)
    ensures
        placement::with_keys(net, pins) is Ok <==> forall|i: int|
            0 <= i < pins.len() ==> placement::key_of(net, #[trigger] pins[i]) is Ok,
    decreases pins.len(),
{
    if pins.len() > 0 {
        let fewer = pins.drop_last();
        lemma_with_keys(net, fewer);
        assert(pins[pins.len() - 1] == pins.last());
        assert forall|i: int| 0 <= i < fewer.len() implies #[trigger] fewer[i] == pins[i] by {}
        if placement::with_keys(net, pins) is Ok {
            assert forall|i: int| 0 <= i < pins.len() implies placement::key_of(
                net,
                #[trigger] pins[i],
            ) is Ok by {
                if i < fewer.len() {
                    assert(placement::key_of(net, fewer[i]) is Ok);
                }
            }
        }
        if forall|i: int| 0 <= i < pins.len() ==> placement::key_of(net, #[trigger] pins[i]) is Ok {
            assert forall|i: int| 0 <= i < fewer.len() implies placement::key_of(
                net,
                #[trigger] fewer[i],
            ) is Ok by {
                assert(placement::key_of(net, pins[i]) is Ok);
            }
        }
    }
}

proof fn lemma_of_place_ascends(net: Net, s: Seq<PinLoc>, place: int)
    requires
        forall|i: int, j: int|
            0 <= i <= j < s.len() ==> number_of(net, #[trigger] s[i]) <= number_of(
                net,
                #[trigger] s[j],
            ),
    ensures
        forall|i: int, j: int|
            0 <= i <= j < order::of_key(s, place).len() ==> number_of(
                net,
                #[trigger] order::of_key(s, place)[i],
            ) <= number_of(net, #[trigger] order::of_key(s, place)[j]),
        forall|i: int|
            0 <= i < order::of_key(s, place).len() ==> s.contains(
                #[trigger] order::of_key(s, place)[i],
            ),
    decreases s.len(),
{
    if s.len() > 0 {
        let fewer = s.drop_last();
        assert forall|i: int, j: int| 0 <= i <= j < fewer.len() implies number_of(
            net,
            #[trigger] fewer[i],
        ) <= number_of(net, #[trigger] fewer[j]) by {
            assert(number_of(net, s[i]) <= number_of(net, s[j]));
        }
        lemma_of_place_ascends(net, fewer, place);
        let before = order::of_key(fewer, place);
        let all = order::of_key(s, place);
        assert forall|i: int| 0 <= i < before.len() implies s.contains(#[trigger] before[i]) by {
            assert(fewer.contains(before[i]));
            let k = choose|k: int| 0 <= k < fewer.len() && fewer[k] == before[i];
            assert(s[k] == before[i]);
        }
        assert forall|i: int| 0 <= i < all.len() implies s.contains(#[trigger] all[i]) by {
            if i < before.len() {
                assert(s.contains(before[i]));
            } else {
                assert(s[s.len() - 1] == all[i]);
            }
        }
        assert forall|i: int, j: int| 0 <= i <= j < all.len() implies number_of(
            net,
            #[trigger] all[i],
        ) <= number_of(net, #[trigger] all[j]) by {
            if j < before.len() {
                assert(all[i] == before[i]);
                assert(all[j] == before[j]);
            } else if i < before.len() {
                assert(all[i] == before[i]);
                assert(s.contains(before[i]));
                let k = choose|k: int| 0 <= k < s.len() && s[k] == before[i];
                assert(number_of(net, s[k]) <= number_of(net, s[s.len() - 1]));
            }
        }
    }
}

/// A pin's number.
pub open spec fn number_of(net: Net, p: PinLoc) -> u64 {
    placement::key_of(net, p)->Ok_0
}

proof fn lemma_pair_of_place(net: Net, t: Seq<PinLoc>, i: int, j: int)
    requires
        0 <= i < j < t.len(),
        order::Keyed::key(&t[i]) == order::Keyed::key(&t[j]),
    ensures
        ({
            let place = order::Keyed::key(&t[i]);
            exists|a: int, b: int|
                0 <= a < b < order::of_key(t, place).len() && #[trigger] order::of_key(t, place)[a]
                    == t[i] && #[trigger] order::of_key(t, place)[b] == t[j]
        }),
    decreases t.len(),
{
    let place = order::Keyed::key(&t[i]);
    let fewer = t.drop_last();
    let before = order::of_key(fewer, place);
    let all = order::of_key(t, place);
    if j < fewer.len() {
        assert(fewer[i] == t[i] && fewer[j] == t[j]);
        lemma_pair_of_place(net, fewer, i, j);
        let (a, b) = choose|a: int, b: int|
            0 <= a < b < before.len() && #[trigger] before[a] == t[i] && #[trigger] before[b] == t[j];
        assert(all[a] == before[a]);
        assert(all[b] == before[b]);
    } else {
        assert(t.last() == t[j]);
        assert(fewer[i] == t[i]);
        let a = lemma_one_of_place(fewer, i);
        assert(all[a] == before[a]);
        assert(all[before.len() as int] == t[j]);
    }
}

proof fn lemma_one_of_place(t: Seq<PinLoc>, i: int) -> (a: int)
    requires
        0 <= i < t.len(),
    ensures
        0 <= a < order::of_key(t, order::Keyed::key(&t[i])).len(),
        order::of_key(t, order::Keyed::key(&t[i]))[a] == t[i],
    decreases t.len(),
{
    let place = order::Keyed::key(&t[i]);
    let fewer = t.drop_last();
    if i == fewer.len() {
        order::of_key(fewer, place).len() as int
    } else {
        assert(fewer[i] == t[i]);
        lemma_one_of_place(fewer, i)
    }
}

/// The pins that a tree is built of, or that are listed for want of one, are ordered by x, then by y,
/// and those at one place by their numbers.
pub proof fn law_order_of_listed_pins<
    F: Fn(&Vec<i32>, &Vec<i32>, usize) -> SttTree,
    G: Fn(bool, &Vec<ITermClockFacts>) -> bool,
>(
    net: Net,
    timing: Timing<'_>,
    clock_nets: Seq<Seq<char>>,
    stt: F,
    non_leaf: G,
    n: NetEstimateView,
    pins: Seq<PinLoc>,
    i: int,
    j: int,
)
    requires
        placement::net_estimated(net, timing, clock_nets, stt, non_leaf, Ok(n)),
        (n.decision matches DecisionView::Tree { tree, .. } && tree.pinlocs == pins) || (
        n.decision matches DecisionView::NoTree { pinlocs, .. } && pinlocs == pins),
        0 <= i < j < pins.len(),
    ensures
        pins[i].x <= pins[j].x,
        pins[i].x == pins[j].x ==> pins[i].y <= pins[j].y,
        pins[i].x == pins[j].x && pins[i].y == pins[j].y ==> number_of(net, pins[i]) <= number_of(
            net,
            pins[j],
        ),
{
    let by_id = placement::connected_by_id(net)->Ok_0;
    assert(pins == order::sorted(by_id));
    lemma_decided_pins(net);
    placement::law_location_order(pins, i, j);
    if pins[i].x == pins[j].x && pins[i].y == pins[j].y {
        let place = order::Keyed::key(&pins[i]);
        placement::law_pins_by_number(net);
        assert forall|a: int, b: int| 0 <= a <= b < by_id.len() implies number_of(
            net,
            #[trigger] by_id[a],
        ) <= number_of(net, #[trigger] by_id[b]) by {
            assert(placement::key_of(net, placement::connected_by_id(net)->Ok_0[a])->Ok_0
                <= placement::key_of(net, placement::connected_by_id(net)->Ok_0[b])->Ok_0);
        }
        lemma_of_place_ascends(net, by_id, place);
        order::law_sorted_is_stable(by_id, place);
        lemma_pair_of_place(net, pins, i, j);
        let same = order::of_key(pins, place);
        let (a, b) = choose|a: int, b: int|
            0 <= a < b < same.len() && #[trigger] same[a] == pins[i] && #[trigger] same[b] == pins[j];
        assert(number_of(net, same[a]) <= number_of(net, same[b]));
    }
}

/// The driver that is named of a net is its own, and where its pins are listed for want of a tree, its
/// index is that of the first pin of its name.
pub proof fn law_the_driver_is_named<
    F: Fn(&Vec<i32>, &Vec<i32>, usize) -> SttTree,
    G: Fn(bool, &Vec<ITermClockFacts>) -> bool,
>(
    net: Net,
    timing: Timing<'_>,
    clock_nets: Seq<Seq<char>>,
    stt: F,
    non_leaf: G,
    n: NetEstimateView,
) -> (p: PinLoc)
    requires
        placement::net_estimated(net, timing, clock_nets, stt, non_leaf, Ok(n)),
        net.iterms@.len() + net.bterms@.len() <= usize::MAX,
    ensures
        undriven(net) ==> n.drvr is None,
        !undriven(net) ==> is_driver(net, p) && n.drvr == Some(p.name@),
        n.decision matches DecisionView::NoTree { pinlocs, drvr_idx } ==> first_place_of(
            pinlocs,
            p.name@,
            drvr_idx,
        ),
{
    law_the_driver_is_the_first_that_drives(net);
    let drvr = placement::first_driver(net)->Some_0;
    if !undriven(net) {
        let pins = placement::connected_by_id(net)->Ok_0;
        let sorted = order::sorted(pins);
        lemma_decided_pins(net);
        lemma_same_pins(sorted, net);
        law_pins_are_the_terminals(net);
        placement::law_pin_place_is_first(sorted, drvr.name@);
    }
    drvr
}

} // verus!
