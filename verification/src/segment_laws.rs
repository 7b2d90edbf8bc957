//! A network's resistors, told one after the other: each is a branch's own or belongs to the joint
//! of one pin.

use vstd::prelude::*;

use crate::db::Net;
use crate::joint_laws;
use crate::network::{Node, ResistorView};
use crate::network_laws;
use crate::placement::SteinerTreeView;
use crate::rc;
use crate::steiner;
use crate::steiner::{BuildState, CtxView};
use crate::wiring_laws;

verus! {

/// The resistors from place `from` up to, and without, place `to`: those of the branch of a point,
/// or those that join a pin of the tree to a point.
pub struct Segment {
    pub from: int,
    pub to: int,
    pub pin: Option<int>,
    pub point: int,
}

/// The segment is what it says. A branch's is one resistor, from its point to the one that it goes
/// to. A pin's is its joint to a point at its own place, one of those that the tree was built for.
pub open spec fn holds_for(
    s: Seq<ResistorView>,
    seg: Segment,
    cx: CtxView,
    net: Net,
    tree: SteinerTreeView,
    layers: Seq<i32>,
) -> bool {
    let branch = tree.tree.branch;
    &&& 0 <= seg.from <= seg.to <= s.len()
    &&& 0 <= seg.point < branch.len()
    &&& match seg.pin {
        None => {
            &&& seg.to == seg.from + 1
            &&& s[seg.from].from == Node::Sub(steiner::id_of(seg.point))
            &&& s[seg.from].to == Node::Sub(steiner::id_of(branch[seg.point].n as int))
            &&& s[seg.from].value is Link || s[seg.from].value is Wire
        },
        Some(j) => {
            &&& 0 <= j < tree.pinlocs.len()
            &&& seg.point < tree.tree.deg
            &&& tree.pinlocs[j].x == branch[seg.point].x
            &&& tree.pinlocs[j].y == branch[seg.point].y
            &&& joint_laws::is_joint(
                s.subrange(seg.from, seg.to),
                cx,
                net,
                tree.pinlocs[j],
                Node::Sub(steiner::id_of(seg.point)),
                layers,
            )
        },
    }
}

/// The segments follow each other without a gap over the first `n` resistors.
pub open spec fn follow(segs: Seq<Segment>, n: int) -> bool {
    &&& segs.len() == 0 ==> n == 0
    &&& segs.len() > 0 ==> segs[0].from == 0 && segs.last().to == n
    &&& forall|k: int| 0 < k < segs.len() ==> (#[trigger] segs[k]).from == segs[k - 1].to
}

/// The names of the pins that the segments join, in order.
pub open spec fn pins_joined(segs: Seq<Segment>, tree: SteinerTreeView) -> Seq<Seq<char>>
    decreases segs.len(),
{
    if segs.len() == 0 {
        Seq::empty()
    } else {
        match segs.last().pin {
            Some(j) => pins_joined(segs.drop_last(), tree).push(tree.pinlocs[j].name@),
            None => pins_joined(segs.drop_last(), tree),
        }
    }
}

/// The points whose branches the segments are, in order.
pub open spec fn branches_drawn(segs: Seq<Segment>) -> Seq<int>
    decreases segs.len(),
{
    if segs.len() == 0 {
        Seq::empty()
    } else {
        match segs.last().pin {
            Some(_) => branches_drawn(segs.drop_last()),
            None => branches_drawn(segs.drop_last()).push(segs.last().point),
        }
    }
}

/// The segments tell of every resistor.
pub open spec fn tell(
    s: Seq<ResistorView>,
    segs: Seq<Segment>,
    cx: CtxView,
    net: Net,
    tree: SteinerTreeView,
    layers: Seq<i32>,
) -> bool {
    &&& follow(segs, s.len() as int)
    &&& forall|k: int|
        0 <= k < segs.len() ==> holds_for(s, #[trigger] segs[k], cx, net, tree, layers)
}

proof fn lemma_told_on(
    s: Seq<ResistorView>,
    t: Seq<ResistorView>,
    segs: Seq<Segment>,
    seg: Segment,
    cx: CtxView,
    net: Net,
    tree: SteinerTreeView,
    layers: Seq<i32>,
)
    requires
        tell(s, segs, cx, net, tree, layers),
        wiring_laws::grows(s, t),
        seg.from == s.len(),
        seg.to == t.len(),
        holds_for(t, seg, cx, net, tree, layers),
    ensures
        tell(t, segs.push(seg), cx, net, tree, layers),
        pins_joined(segs.push(seg), tree) == match seg.pin {
            Some(j) => pins_joined(segs, tree).push(tree.pinlocs[j].name@),
            None => pins_joined(segs, tree),
        },
        branches_drawn(segs.push(seg)) == match seg.pin {
            Some(_) => branches_drawn(segs),
            None => branches_drawn(segs).push(seg.point),
        },
{
    let more = segs.push(seg);
    assert(more.drop_last() =~= segs);
    assert forall|k: int| 0 <= k < more.len() implies holds_for(
        t,
        #[trigger] more[k],
        cx,
        net,
        tree,
        layers,
    ) by {
        if k < segs.len() {
            let one = segs[k];
            assert(holds_for(s, segs[k], cx, net, tree, layers));
            assert(t.subrange(one.from, one.to) =~= s.subrange(one.from, one.to)) by {
                assert forall|i: int| one.from <= i < one.to implies t[i] == s[i] by {
                    assert(t.take(s.len() as int)[i] == s[i]);
                }
            }
            if one.pin is None {
                assert(t.take(s.len() as int)[one.from] == s[one.from]);
            }
        }
    }
    assert forall|k: int| 0 < k < more.len() implies (#[trigger] more[k]).from == more[k - 1].to by {
        if k < segs.len() {
            assert(segs[k].from == segs[k - 1].to);
        } else {
            assert(more[k - 1] == segs.last());
        }
    }
}

proof fn lemma_pins_told(
    cx: CtxView,
    net: Net,
    tree: SteinerTreeView,
    layers: Seq<i32>,
    n: int,
    pt: int,
    st: BuildState,
    segs: Seq<Segment>,
) -> (more: Seq<Segment>)
    requires
        0 <= n <= tree.pinlocs.len(),
        0 <= pt < tree.tree.branch.len(),
        pt < tree.tree.deg,
        cx.is_clk ==> layers == rc::resolved_list::<rc::ClkLayers>(cx.rc.wire_rc, cx.tech),
        !cx.is_clk ==> layers == rc::resolved_list::<rc::SignalLayers>(cx.rc.wire_rc, cx.tech),
        tell(st.g.resistors, segs, cx, net, tree, layers),
        pins_joined(segs, tree) == st.connected,
    ensures
        steiner::pins_connected(
            cx,
            net,
            tree.pinlocs.take(n),
            tree.tree.branch[pt].x,
            tree.tree.branch[pt].y,
            st,
            Node::Sub(steiner::id_of(pt)),
        ) matches Ok(end) ==> {
            &&& tell(end.g.resistors, more, cx, net, tree, layers)
            &&& pins_joined(more, tree) == end.connected
            &&& branches_drawn(more) == branches_drawn(segs)
        },
    decreases n,
{
    let node = Node::Sub(steiner::id_of(pt));
    let (x, y) = (tree.tree.branch[pt].x, tree.tree.branch[pt].y);
    if n == 0 {
        segs
    } else {
        let pins = tree.pinlocs.take(n);
        assert(pins.drop_last() =~= tree.pinlocs.take(n - 1));
        let so_far = lemma_pins_told(cx, net, tree, layers, n - 1, pt, st, segs);
        if steiner::pins_connected(cx, net, pins, x, y, st, node) is Ok {
            let end = steiner::pins_connected(cx, net, pins, x, y, st, node)->Ok_0;
            let before = steiner::pins_connected(cx, net, pins.drop_last(), x, y, st, node)->Ok_0;
            let pin = pins.last();
            assert(pin == tree.pinlocs[n - 1]);
            if pin.x == x && pin.y == y && !before.connected.contains(pin.name@) {
                joint_laws::law_how_a_pin_is_joined(cx, net, before, node, pin, layers);
                let (s, t) = (before.g.resistors, end.g.resistors);
                let seg = Segment {
                    from: s.len() as int,
                    to: t.len() as int,
                    pin: Some(n - 1),
                    point: pt,
                };
                assert(t.subrange(s.len() as int, t.len() as int) =~= t.skip(s.len() as int));
                lemma_told_on(s, t, so_far, seg, cx, net, tree, layers);
                so_far.push(seg)
            } else {
                so_far
            }
        } else {
            so_far
        }
    }
}

proof fn lemma_point_told(
    cx: CtxView,
    net: Net,
    tree: SteinerTreeView,
    layers: Seq<i32>,
    pt: int,
    st: BuildState,
    segs: Seq<Segment>,
) -> (more: Seq<Segment>)
    requires
        0 <= pt < tree.tree.branch.len(),
        cx.is_clk ==> layers == rc::resolved_list::<rc::ClkLayers>(cx.rc.wire_rc, cx.tech),
        !cx.is_clk ==> layers == rc::resolved_list::<rc::SignalLayers>(cx.rc.wire_rc, cx.tech),
        tell(st.g.resistors, segs, cx, net, tree, layers),
        pins_joined(segs, tree) == st.connected,
    ensures
        steiner::point_connected(
            cx,
            net,
            tree,
            pt,
            st,
            Node::Sub(steiner::id_of(pt)),
        ) matches Ok(end) ==> {
            &&& tell(end.g.resistors, more, cx, net, tree, layers)
            &&& pins_joined(more, tree) == end.connected
            &&& branches_drawn(more) == branches_drawn(segs)
        },
{
    if pt < tree.tree.deg {
        assert(tree.pinlocs.take(tree.pinlocs.len() as int) =~= tree.pinlocs);
        lemma_pins_told(cx, net, tree, layers, tree.pinlocs.len() as int, pt, st, segs)
    } else {
        segs
    }
}

proof fn lemma_branches_told(
    cx: CtxView,
    net: Net,
    tree: SteinerTreeView,
    rule: Option<(i32, i32)>,
    layers: Seq<i32>,
    n: int,
) -> (segs: Seq<Segment>)
    requires
        steiner::sound(tree),
        0 <= n <= tree.tree.branch.len(),
        cx.is_clk ==> layers == rc::resolved_list::<rc::ClkLayers>(cx.rc.wire_rc, cx.tech),
        !cx.is_clk ==> layers == rc::resolved_list::<rc::SignalLayers>(cx.rc.wire_rc, cx.tech),
    ensures
        steiner::branches_built(cx, net, tree, rule, n) matches Ok(end) ==> {
            &&& tell(end.g.resistors, segs, cx, net, tree, layers)
            &&& pins_joined(segs, tree) == end.connected
            &&& branches_drawn(segs) == Seq::new(n as nat, |i: int| i)
        },
    decreases n,
{
    if n == 0 {
        assert(Seq::new(0, |i: int| i) =~= Seq::<int>::empty());
        Seq::empty()
    } else {
        let i = n - 1;
        let segs = lemma_branches_told(cx, net, tree, rule, layers, i);
        if steiner::branches_built(cx, net, tree, rule, n) is Ok {
            let st = steiner::branches_built(cx, net, tree, rule, i)->Ok_0;
            let a = tree.tree.branch[i];
            let b = tree.tree.branch[a.n as int];
            assert(steiner::branch_sound(tree.tree.branch, tree.tree.branch[i]));
            let (from, to) = (Node::Sub(steiner::id_of(i)), Node::Sub(steiner::id_of(a.n as int)));
            let g = steiner::branch_wired(
                cx,
                rule,
                st.g.with_sub(steiner::id_of(i)).with_sub(steiner::id_of(a.n as int)),
                from,
                to,
                steiner::apart(a.x as int, b.x as int) as i32,
                steiner::apart(a.y as int, b.y as int) as i32,
            );
            let wired = BuildState { g, ..st };
            let s = st.g.resistors;
            let seg = Segment { from: s.len() as int, to: g.resistors.len() as int, pin: None, point: i };
            assert(g.resistors.len() == s.len() + 1);
            assert(g.resistors.take(s.len() as int) =~= s);
            lemma_told_on(s, g.resistors, segs, seg, cx, net, tree, layers);
            assert(Seq::new(i as nat, |k: int| k).push(i) =~= Seq::new(n as nat, |k: int| k));
            let first = lemma_point_told(cx, net, tree, layers, i, wired, segs.push(seg));
            let half = steiner::point_connected(cx, net, tree, i, wired, from)->Ok_0;
            lemma_point_told(cx, net, tree, layers, a.n as int, half, first)
        } else {
            segs
        }
    }
}

/// The resistors of a network, in the order in which they were made, fall into segments without a
/// gap: for every branch, in the branches' order, its own resistor; and behind it the joints of pins.
/// Each pin is joined to a point at its own place, by the layers of clocks for a clock and those of
/// signals for any other net; each once, at the first branch that comes from or goes to that place.
pub proof fn law_resistors_are_branches_and_joints(
    cx: CtxView,
    net: Net,
    tree: SteinerTreeView,
    layers: Seq<i32>,
) -> (segs: Seq<Segment>)
    requires
        steiner::sound(tree),
        cx.is_clk ==> layers == rc::resolved_list::<rc::ClkLayers>(cx.rc.wire_rc, cx.tech),
        !cx.is_clk ==> layers == rc::resolved_list::<rc::SignalLayers>(cx.rc.wire_rc, cx.tech),
        steiner::steiner_network(cx, net, tree) is Ok,
    ensures
        ({
            let g = steiner::steiner_network(cx, net, tree)->Ok_0;
            let n = tree.tree.branch.len();
            &&& tell(g.resistors, segs, cx, net, tree, layers)
            &&& branches_drawn(segs) == Seq::new(n, |i: int| i)
            &&& pins_joined(segs, tree) == joint_laws::names_by_branches(tree, n as int)
            &&& pins_joined(segs, tree).no_duplicates()
        }),
{
    let rule = steiner::rule_widths(cx.db, net)->Ok_0;
    let n = tree.tree.branch.len() as int;
    joint_laws::law_order_of_a_branch(cx, net, tree, rule, n);
    network_laws::law_no_pin_joined_twice(cx, net, tree, rule, n);
    lemma_branches_told(cx, net, tree, rule, layers, n)
}

} // verus!
