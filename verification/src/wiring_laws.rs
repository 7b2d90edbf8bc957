//! What a network's resistors and capacitances are, point by point and wire by wire.

use vstd::prelude::*;

use crate::cuts;
use crate::cuts::{ViaEnds, ViaState};
use crate::db::{Db, Net};
use crate::network_laws;
use crate::network::{HalfWire, Node, ParasiticView, ResistanceView, ResistorView};
use crate::placement;
use crate::placement::{Branch, PinLoc, SteinerTreeView};
use crate::rc;
use crate::rc::RcView;
use crate::steiner;
use crate::steiner::{BuildState, CtxView};
use crate::value::{Double, HV};

verus! {

/// A point of a tree of `n` points.
pub open spec fn is_point(node: Node, n: int) -> bool {
    node matches Node::Sub(id) && id < n
}

/// A node that is neither a pin nor one of a tree's `n` points.
pub open spec fn is_inner(node: Node, n: int) -> bool {
    node matches Node::Sub(id) && id >= n
}

/// The resistors between two points of a tree of `n` points, in order.
pub open spec fn between_points(s: Seq<ResistorView>, n: int) -> Seq<ResistorView>
    decreases s.len(),
{
    if s.len() == 0 {
        Seq::empty()
    } else {
        let before = between_points(s.drop_last(), n);
        if is_point(s.last().from, n) && is_point(s.last().to, n) {
            before.push(s.last())
        } else {
            before
        }
    }
}

/// How many resistors lead to a node that is neither a pin nor one of the `n` points.
pub open spec fn inner_count(s: Seq<ResistorView>, n: int) -> nat
    decreases s.len(),
{
    if s.len() == 0 {
        0
    } else if is_inner(s.last().to, n) {
        inner_count(s.drop_last(), n) + 1
    } else {
        inner_count(s.drop_last(), n)
    }
}

/// How many resistors lead to the node.
pub open spec fn into(s: Seq<ResistorView>, node: Node) -> nat
    decreases s.len(),
{
    if s.len() == 0 {
        0
    } else if s.last().to == node {
        into(s.drop_last(), node) + 1
    } else {
        into(s.drop_last(), node)
    }
}

/// How many resistors lead from the node.
pub open spec fn out_of(s: Seq<ResistorView>, node: Node) -> nat
    decreases s.len(),
{
    if s.len() == 0 {
        0
    } else if s.last().from == node {
        out_of(s.drop_last(), node) + 1
    } else {
        out_of(s.drop_last(), node)
    }
}

/// The node of that id was made by one resistor, goes on by one at most and has no capacitance.
pub open spec fn passes_on(g: ParasiticView, id: int) -> bool {
    &&& g.sub_nodes.contains_key(id)
    &&& g.sub_nodes[id].len() == 0
    &&& into(g.resistors, Node::Sub(id as u32)) == 1
    &&& out_of(g.resistors, Node::Sub(id as u32)) <= 1
}

/// No resistor touches the node of that id.
pub open spec fn untouched(g: ParasiticView, id: u32) -> bool {
    into(g.resistors, Node::Sub(id)) == 0 && out_of(g.resistors, Node::Sub(id)) == 0
}

/// The ids beyond those of the `n` points were given one after another, the last of them `last`.
pub open spec fn in_turn(g: ParasiticView, last: u32, n: int) -> bool {
    let m = n + inner_count(g.resistors, n);
    &&& last + 1 == m
    &&& forall|k: int| #[trigger] g.sub_nodes.contains_key(k) ==> 0 <= k < m
    &&& forall|k: int| n <= k < m ==> #[trigger] passes_on(g, k)
    &&& forall|id: u32| id >= m ==> #[trigger] untouched(g, id)
}

/// The points of the one network have the same capacitance in the other, and the wires between
/// them are the same.
pub open spec fn same_wires(g: ParasiticView, h: ParasiticView, n: int) -> bool {
    &&& between_points(h.resistors, n) == between_points(g.resistors, n)
    &&& forall|k: int|
        0 <= k < n ==> #[trigger] h.sub_nodes.contains_key(k) == g.sub_nodes.contains_key(k)
    &&& forall|k: int| 0 <= k < n ==> #[trigger] h.sub_nodes[k] == g.sub_nodes[k]
}

proof fn lemma_pushed(s: Seq<ResistorView>, r: ResistorView, n: int)
    ensures
        between_points(s.push(r), n) == if is_point(r.from, n) && is_point(r.to, n) {
            between_points(s, n).push(r)
        } else {
            between_points(s, n)
        },
        inner_count(s.push(r), n) == inner_count(s, n) + if is_inner(r.to, n) {
            1nat
        } else {
            0nat
        },
        forall|node: Node| #[trigger]
            into(s.push(r), node) == into(s, node) + if r.to == node {
                1nat
            } else {
                0nat
            },
        forall|node: Node| #[trigger]
            out_of(s.push(r), node) == out_of(s, node) + if r.from == node {
                1nat
            } else {
                0nat
            },
{
    assert(s.push(r).drop_last() =~= s);
}

proof fn lemma_inner_count(s: Seq<ResistorView>, n: int)
    ensures
        inner_count(s, n) <= s.len(),
    decreases s.len(),
{
    if s.len() > 0 {
        lemma_inner_count(s.drop_last(), n);
    }
}

/// A resistor that touches no inner node leaves the ids in turn.
proof fn lemma_outer_resistor(g: ParasiticView, last: u32, n: int, r: ResistorView)
    requires
        in_turn(g, last, n),
        !is_inner(r.from, n),
        !is_inner(r.to, n),
    ensures
        in_turn(g.with_resistor(r.from, r.to, r.value), last, n),
{
    let h = g.with_resistor(r.from, r.to, r.value);
    lemma_pushed(g.resistors, r, n);
    let m = n + inner_count(g.resistors, n);
    assert forall|k: int| n <= k < m implies #[trigger] passes_on(h, k) by {
        assert(passes_on(g, k));
        assert(k == last || k <= last);
    }
    assert forall|id: u32| id >= m implies #[trigger] untouched(h, id) by {
        assert(untouched(g, id));
        assert(m >= n);
    }
}

/// A cut from a node that does not go on yet, or from a pin or a point, to a new node of the next
/// id.
proof fn lemma_inner_resistor(g: ParasiticView, last: u32, n: int, from: Node, value: ResistanceView)
    requires
        in_turn(g, last, n),
        0 <= n,
        last < u32::MAX,
        is_inner(from, n) ==> from == Node::Sub(last) && out_of(g.resistors, from) == 0,
    ensures
        ({
            let id = (last + 1) as u32;
            let h = g.with_sub(id).with_resistor(from, Node::Sub(id), value);
            &&& in_turn(h, id, n)
            &&& same_wires(g, h, n)
            &&& id >= n
            &&& out_of(h.resistors, Node::Sub(id)) == 0
        }),
{
    let id = (last + 1) as u32;
    let m = n + inner_count(g.resistors, n);
    let r = ResistorView { from, to: Node::Sub(id), value };
    let h = g.with_sub(id).with_resistor(from, Node::Sub(id), value);
    assert(h.resistors == g.resistors.push(r));
    lemma_pushed(g.resistors, r, n);
    assert(untouched(g, id));
    assert(!g.sub_nodes.contains_key(id as int));
    assert forall|k: int| n <= k < m + 1 implies #[trigger] passes_on(h, k) by {
        if k < m {
            assert(passes_on(g, k));
            assert(k != id);
        }
    }
    assert forall|other: u32| other >= m + 1 implies #[trigger] untouched(h, other) by {
        assert(untouched(g, other));
    }
}

/// Both resistor lists begin alike.
pub open spec fn grows(a: Seq<ResistorView>, b: Seq<ResistorView>) -> bool {
    a.len() <= b.len() && b.take(a.len() as int) == a
}

proof fn lemma_grows(a: Seq<ResistorView>, b: Seq<ResistorView>, c: Seq<ResistorView>)
    requires
        grows(a, b),
        grows(b, c),
    ensures
        grows(a, c),
{
    assert(c.take(a.len() as int) =~= b.take(a.len() as int));
}

proof fn lemma_chain_in_turn(
    db: Db,
    rc: RcView,
    corner: int,
    ends: ViaEnds,
    st: ViaState,
    l: int,
    n: int,
)
    requires
        0 <= n,
        in_turn(st.g, st.last, n),
        st.prev is None,
        ends.pin_node is Pin,
        is_point(ends.node, n),
    ensures
        cuts::via_chain(db, rc, corner, ends, st, l) matches Ok(end) ==> {
            &&& grows(st.g.resistors, end.g.resistors)
            &&& n + end.g.resistors.len() <= u32::MAX ==> {
                &&& in_turn(end.g, end.last, n)
                &&& same_wires(st.g, end.g, n)
                &&& end.prev matches Some(p) ==> p == Node::Sub(end.last) && end.last >= n && out_of(
                    end.g.resistors,
                    p,
                ) == 0
            }
        },
    decreases l - ends.low(),
{
    if l <= ends.low() {
        assert(st.g.resistors.take(st.g.resistors.len() as int) =~= st.g.resistors);
    } else {
        lemma_chain_in_turn(db, rc, corner, ends, st, l - 1, n);
        if let Ok(before) = cuts::via_chain(db, rc, corner, ends, st, l - 1) {
            if let Ok(end) = cuts::via_step(db, rc, corner, ends, before, l - 1) {
                if cuts::cut_at(db, l - 1) == Ok::<bool, Seq<char>>(true) {
                    let a = if l - 2 == ends.low() {
                        ends.bottom()
                    } else {
                        before.prev->Some_0
                    };
                    let value = ResistanceView::Cut(rc::layer_value(rc.layer_res, l - 1, corner));
                    assert(end.g.resistors.drop_last() =~= before.g.resistors);
                    assert(end.g.resistors.take(before.g.resistors.len() as int)
                        =~= before.g.resistors);
                    lemma_grows(st.g.resistors, before.g.resistors, end.g.resistors);
                    if n + end.g.resistors.len() <= u32::MAX {
                        lemma_inner_count(before.g.resistors, n);
                        if l == ends.high() {
                            let r = ResistorView { from: a, to: ends.top(), value };
                            lemma_pushed(before.g.resistors, r, n);
                            lemma_last_cut(before.g, before.last, n, r);
                        } else {
                            lemma_inner_resistor(before.g, before.last, n, a, value);
                        }
                    }
                }
            }
        }
    }
}

/// A cut from a node that does not go on yet, or from a pin or a point, to a pin or a point.
proof fn lemma_last_cut(g: ParasiticView, last: u32, n: int, r: ResistorView)
    requires
        in_turn(g, last, n),
        is_inner(r.from, n) ==> out_of(g.resistors, r.from) == 0,
        is_inner(r.from, n) ==> r.from == Node::Sub(last),
        !is_inner(r.to, n),
    ensures
        in_turn(g.with_resistor(r.from, r.to, r.value), last, n),
{
    let h = g.with_resistor(r.from, r.to, r.value);
    lemma_pushed(g.resistors, r, n);
    let m = n + inner_count(g.resistors, n);
    assert forall|k: int| n <= k < m implies #[trigger] passes_on(h, k) by {
        assert(passes_on(g, k));
    }
    assert forall|id: u32| id >= m implies #[trigger] untouched(h, id) by {
        assert(untouched(g, id));
    }
}

proof fn lemma_joined_in_turn(
    cx: CtxView,
    net: Net,
    pin: PinLoc,
    key: u64,
    node: Node,
    g: ParasiticView,
    last: u32,
    n: int,
)
    requires
        0 <= n,
        in_turn(g, last, n),
        is_point(node, n),
    ensures
        steiner::joined(cx, net, pin, Node::Pin(key), node, g, last) matches Ok(made) ==> {
            &&& grows(g.resistors, made.0.resistors)
            &&& n + made.0.resistors.len() <= u32::MAX ==> in_turn(made.0, made.1, n) && same_wires(
                g,
                made.0,
                n,
            )
        },
{
    let layers = steiner::wire_layers(cx);
    let pin_node = Node::Pin(key);
    if let Ok(made) = steiner::joined(cx, net, pin, pin_node, node, g, last) {
        if made.0.resistors.len() == g.resistors.len() + 1 && made.0.resistors.drop_last()
            == g.resistors {
            assert(made.0.resistors.take(g.resistors.len() as int) =~= g.resistors);
        }
        if layers.len() > 0 && cx.rc.layer_res != Map::<int, Seq<Double>>::empty() {
            let p = cuts::pin_layer(net, pin)->Ok_0;
            let ends = ViaEnds { p: p as int, t: layers[0] as int, pin_node, node };
            let value = ResistanceView::Cut(
                rc::layer_value(cx.rc.layer_res, ends.low() + 1, cx.corner),
            );
            lemma_direct_joint(g, last, n, ResistorView { from: pin_node, to: node, value });
            lemma_direct_joint(
                g,
                last,
                n,
                ResistorView { from: pin_node, to: node, value: ResistanceView::Link },
            );
            lemma_chain_in_turn(
                cx.db,
                cx.rc,
                cx.corner,
                ends,
                ViaState { g, last, prev: None },
                ends.high(),
                n,
            );
        } else {
            let v = cuts::average_cuts(cx.db, cx.rc, cx.corner)->Ok_0;
            lemma_direct_joint(
                g,
                last,
                n,
                ResistorView { from: node, to: pin_node, value: ResistanceView::AverageCut(v) },
            );
        }
    }
}

proof fn lemma_direct_joint(g: ParasiticView, last: u32, n: int, r: ResistorView)
    requires
        in_turn(g, last, n),
        !is_inner(r.from, n),
        !is_inner(r.to, n),
        r.from is Pin || r.to is Pin,
    ensures
        in_turn(g.with_resistor(r.from, r.to, r.value), last, n),
        same_wires(g, g.with_resistor(r.from, r.to, r.value), n),
        grows(g.resistors, g.with_resistor(r.from, r.to, r.value).resistors),
{
    lemma_outer_resistor(g, last, n, r);
    lemma_pushed(g.resistors, r, n);
    assert(g.resistors.push(r).take(g.resistors.len() as int) =~= g.resistors);
}

proof fn lemma_pins_in_turn(
    cx: CtxView,
    net: Net,
    pins: Seq<PinLoc>,
    x: i32,
    y: i32,
    st: BuildState,
    node: Node,
    n: int,
)
    requires
        0 <= n,
        in_turn(st.g, st.last, n),
        is_point(node, n),
    ensures
        steiner::pins_connected(cx, net, pins, x, y, st, node) matches Ok(end) ==> {
            &&& grows(st.g.resistors, end.g.resistors)
            &&& n + end.g.resistors.len() <= u32::MAX ==> in_turn(end.g, end.last, n) && same_wires(
                st.g,
                end.g,
                n,
            )
        },
    decreases pins.len(),
{
    if pins.len() == 0 {
        assert(st.g.resistors.take(st.g.resistors.len() as int) =~= st.g.resistors);
    } else {
        lemma_pins_in_turn(cx, net, pins.drop_last(), x, y, st, node, n);
        if let Ok(end) = steiner::pins_connected(cx, net, pins, x, y, st, node) {
            let before = steiner::pins_connected(cx, net, pins.drop_last(), x, y, st, node)->Ok_0;
            let pin = pins.last();
            if pin.x == x && pin.y == y {
                let key = placement::key_of(net, pin)->Ok_0;
                let g = before.g.with_pin(net, pin, key);
                if n + before.g.resistors.len() <= u32::MAX {
                    lemma_pin_keeps_turn(before.g, before.last, n, net, pin, key);
                    lemma_joined_in_turn(cx, net, pin, key, node, g, before.last, n);
                    if !before.connected.contains(pin.name@) {
                        lemma_grows(st.g.resistors, before.g.resistors, end.g.resistors);
                    }
                } else {
                    lemma_joined_grows(cx, net, pin, key, node, g, before.last);
                    if !before.connected.contains(pin.name@) {
                        lemma_grows(st.g.resistors, before.g.resistors, end.g.resistors);
                    }
                }
            }
        }
    }
}

proof fn lemma_pin_keeps_turn(
    g: ParasiticView,
    last: u32,
    n: int,
    net: Net,
    pin: PinLoc,
    key: u64,
)
    requires
        in_turn(g, last, n),
    ensures
        in_turn(g.with_pin(net, pin, key), last, n),
        same_wires(g, g.with_pin(net, pin, key), n),
{
    let h = g.with_pin(net, pin, key);
    let m = n + inner_count(g.resistors, n);
    assert forall|k: int| n <= k < m implies #[trigger] passes_on(h, k) by {
        assert(passes_on(g, k));
    }
    assert forall|id: u32| id >= m implies #[trigger] untouched(h, id) by {
        assert(untouched(g, id));
    }
}

proof fn lemma_chain_grows(db: Db, rc: RcView, corner: int, ends: ViaEnds, st: ViaState, l: int)
    ensures
        cuts::via_chain(db, rc, corner, ends, st, l) matches Ok(end) ==> grows(
            st.g.resistors,
            end.g.resistors,
        ),
    decreases l - ends.low(),
{
    if l <= ends.low() {
        assert(st.g.resistors.take(st.g.resistors.len() as int) =~= st.g.resistors);
    } else {
        lemma_chain_grows(db, rc, corner, ends, st, l - 1);
        if let Ok(before) = cuts::via_chain(db, rc, corner, ends, st, l - 1) {
            if let Ok(end) = cuts::via_step(db, rc, corner, ends, before, l - 1) {
                if cuts::cut_at(db, l - 1) == Ok::<bool, Seq<char>>(true) {
                    assert(end.g.resistors.take(before.g.resistors.len() as int)
                        =~= before.g.resistors);
                    lemma_grows(st.g.resistors, before.g.resistors, end.g.resistors);
                }
            }
        }
    }
}

proof fn lemma_joined_grows(
    cx: CtxView,
    net: Net,
    pin: PinLoc,
    key: u64,
    node: Node,
    g: ParasiticView,
    last: u32,
)
    ensures
        steiner::joined(cx, net, pin, Node::Pin(key), node, g, last) matches Ok(made) ==> grows(
            g.resistors,
            made.0.resistors,
        ),
{
    let layers = steiner::wire_layers(cx);
    if let Ok(made) = steiner::joined(cx, net, pin, Node::Pin(key), node, g, last) {
        if layers.len() > 0 && cx.rc.layer_res != Map::<int, Seq<Double>>::empty() {
            let p = cuts::pin_layer(net, pin)->Ok_0;
            let ends = ViaEnds { p: p as int, t: layers[0] as int, pin_node: Node::Pin(key), node };
            if ends.high() - ends.low() != 2 && ends.p != ends.t {
                lemma_chain_grows(
                    cx.db,
                    cx.rc,
                    cx.corner,
                    ends,
                    ViaState { g, last, prev: None },
                    ends.high(),
                );
            } else {
                assert(made.0.resistors.take(g.resistors.len() as int) =~= g.resistors);
            }
        } else {
            assert(made.0.resistors.take(g.resistors.len() as int) =~= g.resistors);
        }
    }
}

/// Joining pins adds resistors behind those that are there.
pub proof fn lemma_pins_grow(
    cx: CtxView,
    net: Net,
    pins: Seq<PinLoc>,
    x: i32,
    y: i32,
    st: BuildState,
    node: Node,
)
    ensures
        steiner::pins_connected(cx, net, pins, x, y, st, node) matches Ok(end) ==> grows(
            st.g.resistors,
            end.g.resistors,
        ),
    decreases pins.len(),
{
    if pins.len() == 0 {
        assert(st.g.resistors.take(st.g.resistors.len() as int) =~= st.g.resistors);
    } else {
        lemma_pins_grow(cx, net, pins.drop_last(), x, y, st, node);
        if let Ok(end) = steiner::pins_connected(cx, net, pins, x, y, st, node) {
            let before = steiner::pins_connected(cx, net, pins.drop_last(), x, y, st, node)->Ok_0;
            let pin = pins.last();
            if pin.x == x && pin.y == y && !before.connected.contains(pin.name@) {
                let key = placement::key_of(net, pin)->Ok_0;
                let g = before.g.with_pin(net, pin, key);
                lemma_joined_grows(cx, net, pin, key, node, g, before.last);
                lemma_grows(st.g.resistors, before.g.resistors, end.g.resistors);
            }
        }
    }
}

/// The distance of two places along one axis.
pub open spec fn span(a: int, b: int) -> int {
    if a <= b {
        b - a
    } else {
        a - b
    }
}

/// Branch `i` has no length: the point that it goes to is at its own place.
pub open spec fn without_length(s: Seq<Branch>, i: int) -> bool {
    s[i].x == s[s[i].n as int].x && s[i].y == s[s[i].n as int].y
}

/// The resistor is that of branch `i`: it leads from that point to the one that the branch goes to;
/// it is a link where they are at one place, else a wire as long as they are apart.
pub open spec fn is_branch(
    r: ResistorView,
    s: Seq<Branch>,
    i: int,
    res: HV,
    rule: Option<(i32, i32)>,
) -> bool {
    let (a, b) = (s[i], s[s[i].n as int]);
    &&& r.from == Node::Sub(i as u32)
    &&& r.to == Node::Sub(a.n as u32)
    &&& r.value == if without_length(s, i) {
        ResistanceView::Link
    } else {
        ResistanceView::Wire {
            along_x: span(a.x as int, b.x as int) as i32,
            along_y: span(a.y as int, b.y as int) as i32,
            h: res.h,
            v: res.v,
            rule,
        }
    }
}

/// What the first `i` branches add to the capacitance of point `k`: half a wire for each end of a
/// branch with length that is there.
pub open spec fn half_wires(s: Seq<Branch>, cap: HV, k: int, i: int) -> Seq<HalfWire>
    decreases i,
{
    if i <= 0 {
        Seq::empty()
    } else {
        let before = half_wires(s, cap, k, i - 1);
        let (a, b) = (s[i - 1], s[s[i - 1].n as int]);
        let half = HalfWire {
            along_x: span(a.x as int, b.x as int) as i32,
            along_y: span(a.y as int, b.y as int) as i32,
            h: cap.h,
            v: cap.v,
        };
        if without_length(s, i - 1) || (k != i - 1 && k != a.n) {
            before
        } else {
            before.push(half)
        }
    }
}

/// The capacitance at a point as far as it was made.
pub open spec fn cap_at(g: ParasiticView, k: int) -> Seq<HalfWire> {
    if g.sub_nodes.contains_key(k) {
        g.sub_nodes[k]
    } else {
        Seq::empty()
    }
}

/// The wires between points are the first `i` branches, and the points have their capacitance.
pub open spec fn drawn_so_far(
    g: ParasiticView,
    s: Seq<Branch>,
    i: int,
    res: HV,
    cap: HV,
    rule: Option<(i32, i32)>,
) -> bool {
    let wires = between_points(g.resistors, s.len() as int);
    &&& wires.len() == i
    &&& forall|j: int| 0 <= j < i ==> is_branch(#[trigger] wires[j], s, j, res, rule)
    &&& forall|k: int| 0 <= k < s.len() ==> #[trigger] cap_at(g, k) == half_wires(s, cap, k, i)
}

proof fn lemma_same_drawn(
    g: ParasiticView,
    h: ParasiticView,
    s: Seq<Branch>,
    i: int,
    res: HV,
    cap: HV,
    rule: Option<(i32, i32)>,
)
    requires
        drawn_so_far(g, s, i, res, cap, rule),
        same_wires(g, h, s.len() as int),
    ensures
        drawn_so_far(h, s, i, res, cap, rule),
{
    assert forall|k: int| 0 <= k < s.len() implies #[trigger] cap_at(h, k) == half_wires(
        s,
        cap,
        k,
        i,
    ) by {
        assert(cap_at(g, k) == half_wires(s, cap, k, i));
        assert(h.sub_nodes.contains_key(k) == g.sub_nodes.contains_key(k));
        assert(h.sub_nodes[k] == g.sub_nodes[k]);
    }
}

proof fn lemma_point_sub(g: ParasiticView, last: u32, n: int, id: u32)
    requires
        in_turn(g, last, n),
        id < n,
    ensures
        in_turn(g.with_sub(id), last, n),
        forall|k: int| #[trigger] cap_at(g.with_sub(id), k) == cap_at(g, k),
        g.with_sub(id).resistors == g.resistors,
        g.with_sub(id).sub_nodes.contains_key(id as int),
        forall|k: int|
            g.sub_nodes.contains_key(k) ==> #[trigger] g.with_sub(id).sub_nodes.contains_key(k),
{
    let h = g.with_sub(id);
    let m = n + inner_count(g.resistors, n);
    assert forall|k: int| n <= k < m implies #[trigger] passes_on(h, k) by {
        assert(passes_on(g, k));
    }
    assert forall|i: u32| i >= m implies #[trigger] untouched(h, i) by {
        assert(untouched(g, i));
    }
}

proof fn lemma_point_cap(g: ParasiticView, last: u32, n: int, id: u32, c: HalfWire)
    requires
        in_turn(g, last, n),
        id < n,
        g.sub_nodes.contains_key(id as int),
    ensures
        in_turn(g.with_cap(Node::Sub(id), c), last, n),
        g.with_cap(Node::Sub(id), c).resistors == g.resistors,
        forall|k: int| #[trigger]
            cap_at(g.with_cap(Node::Sub(id), c), k) == if k == id {
                cap_at(g, k).push(c)
            } else {
                cap_at(g, k)
            },
        forall|k: int|
            g.sub_nodes.contains_key(k) ==> #[trigger] g.with_cap(
                Node::Sub(id),
                c,
            ).sub_nodes.contains_key(k),
{
    let h = g.with_cap(Node::Sub(id), c);
    let m = n + inner_count(g.resistors, n);
    assert forall|k: int| n <= k < m implies #[trigger] passes_on(h, k) by {
        assert(passes_on(g, k));
    }
    assert forall|i: u32| i >= m implies #[trigger] untouched(h, i) by {
        assert(untouched(g, i));
    }
}

/// The values per metre that the current technology resolves to in the net's corner: for a signal
/// net or for a clock.
pub open spec fn resolves_to(cx: CtxView, res: HV, cap: HV) -> bool {
    if cx.is_clk {
        &&& res == rc::hv_at(rc::resolved_list::<rc::ClkRes>(cx.rc.wire_rc, cx.tech), cx.corner)
        &&& cap == rc::hv_at(rc::resolved_list::<rc::ClkCap>(cx.rc.wire_rc, cx.tech), cx.corner)
    } else {
        &&& res == rc::hv_at(rc::resolved_list::<rc::SignalRes>(cx.rc.wire_rc, cx.tech), cx.corner)
        &&& cap == rc::hv_at(rc::resolved_list::<rc::SignalCap>(cx.rc.wire_rc, cx.tech), cx.corner)
    }
}

proof fn lemma_branch_drawn(
    cx: CtxView,
    rule: Option<(i32, i32)>,
    st: BuildState,
    s: Seq<Branch>,
    i: int,
    res: HV,
    cap: HV,
)
    requires
        resolves_to(cx, res, cap),
        0 <= i < s.len() <= u32::MAX,
        steiner::branch_sound(s, s[i]),
        in_turn(st.g, st.last, s.len() as int),
        drawn_so_far(st.g, s, i, res, cap, rule),
    ensures
        ({
            let (a, b) = (s[i], s[s[i].n as int]);
            let g = steiner::branch_wired(
                cx,
                rule,
                st.g.with_sub(steiner::id_of(i)).with_sub(steiner::id_of(a.n as int)),
                Node::Sub(steiner::id_of(i)),
                Node::Sub(steiner::id_of(a.n as int)),
                steiner::apart(a.x as int, b.x as int) as i32,
                steiner::apart(a.y as int, b.y as int) as i32,
            );
            &&& in_turn(g, st.last, s.len() as int)
            &&& drawn_so_far(g, s, i + 1, res, cap, rule)
            &&& grows(st.g.resistors, g.resistors)
        }),
{
    let n = s.len() as int;
    let (a, b) = (s[i], s[s[i].n as int]);
    let (p, q) = (i as u32, a.n as u32);
    assert(steiner::id_of(i) == p);
    assert(steiner::id_of(a.n as int) == q);
    let (from, to) = (Node::Sub(p), Node::Sub(q));
    lemma_point_sub(st.g, st.last, n, p);
    lemma_point_sub(st.g.with_sub(p), st.last, n, q);
    let g0 = st.g.with_sub(p).with_sub(q);
    assert(g0.sub_nodes.contains_key(p as int));
    assert forall|k: int| #[trigger] cap_at(g0, k) == cap_at(st.g, k) by {
        assert(cap_at(st.g.with_sub(p), k) == cap_at(st.g, k));
    }
    let along_x = steiner::apart(a.x as int, b.x as int) as i32;
    let along_y = steiner::apart(a.y as int, b.y as int) as i32;
    let g = steiner::branch_wired(cx, rule, g0, from, to, along_x, along_y);
    let wires = between_points(st.g.resistors, n);
    if along_x == 0 && along_y == 0 {
        let r = ResistorView { from, to, value: ResistanceView::Link };
        lemma_outer_resistor(g0, st.last, n, r);
        lemma_pushed(g0.resistors, r, n);
        assert(g.resistors.take(st.g.resistors.len() as int) =~= st.g.resistors);
        assert(is_branch(r, s, i, res, rule));
        assert forall|k: int| 0 <= k < n implies #[trigger] cap_at(g, k) == half_wires(
            s,
            cap,
            k,
            i + 1,
        ) by {
            assert(cap_at(g0, k) == cap_at(st.g, k));
            assert(cap_at(st.g, k) == half_wires(s, cap, k, i));
        }
        assert forall|j: int| 0 <= j < i + 1 implies is_branch(
            #[trigger] between_points(g.resistors, n)[j],
            s,
            j,
            res,
            rule,
        ) by {
            if j < i {
                assert(is_branch(wires[j], s, j, res, rule));
            }
        }
    } else {
        let half = HalfWire { along_x, along_y, h: cap.h, v: cap.v };
        let value = ResistanceView::Wire { along_x, along_y, h: res.h, v: res.v, rule };
        let r = ResistorView { from, to, value };
        assert(p != q);
        lemma_point_cap(g0, st.last, n, p, half);
        let g1 = g0.with_cap(from, half);
        lemma_outer_resistor(g1, st.last, n, r);
        lemma_pushed(g1.resistors, r, n);
        let g2 = g1.with_resistor(from, to, value);
        assert(g0.sub_nodes.contains_key(q as int));
        assert(g1.sub_nodes.contains_key(q as int));
        lemma_point_cap(g2, st.last, n, q, half);
        assert(g == g2.with_cap(to, half));
        assert(g.resistors.take(st.g.resistors.len() as int) =~= st.g.resistors);
        assert(is_branch(r, s, i, res, rule));
        assert forall|k: int| 0 <= k < n implies #[trigger] cap_at(g, k) == half_wires(
            s,
            cap,
            k,
            i + 1,
        ) by {
            assert(cap_at(g1, k) == if k == p {
                cap_at(g0, k).push(half)
            } else {
                cap_at(g0, k)
            });
            assert(cap_at(g2, k) == cap_at(g1, k));
            assert(cap_at(g0, k) == cap_at(st.g, k));
            assert(cap_at(st.g, k) == half_wires(s, cap, k, i));
        }
        assert forall|j: int| 0 <= j < i + 1 implies is_branch(
            #[trigger] between_points(g.resistors, n)[j],
            s,
            j,
            res,
            rule,
        ) by {
            if j < i {
                assert(is_branch(wires[j], s, j, res, rule));
            }
        }
    }
}

proof fn lemma_built_grows(
    cx: CtxView,
    net: Net,
    tree: SteinerTreeView,
    rule: Option<(i32, i32)>,
    st: BuildState,
    i: int,
)
    ensures
        steiner::branch_built(cx, net, tree, rule, st, i) matches Ok(end) ==> grows(
            st.g.resistors,
            end.g.resistors,
        ),
{
    let a = tree.tree.branch[i];
    let b = tree.tree.branch[a.n as int];
    let (from, to) = (Node::Sub(steiner::id_of(i)), Node::Sub(steiner::id_of(a.n as int)));
    let g = steiner::branch_wired(
        cx,
        rule,
        st.g.with_sub(steiner::id_of(i)).with_sub(steiner::id_of(a.n as int)),
        from,
        to,
        steiner::apart(a.x as int, b.x as int) as i32,
        steiner::apart(a.y as int, b.y as int) as i32,
    );
    if let Ok(end) = steiner::branch_built(cx, net, tree, rule, st, i) {
        assert(g.resistors.take(st.g.resistors.len() as int) =~= st.g.resistors);
        let wired = BuildState { g, ..st };
        let half = steiner::point_connected(cx, net, tree, i, wired, from)->Ok_0;
        lemma_pins_grow(cx, net, tree.pinlocs, a.x, a.y, wired, from);
        lemma_pins_grow(cx, net, tree.pinlocs, b.x, b.y, half, to);
        assert(g.resistors.take(g.resistors.len() as int) =~= g.resistors);
        assert(half.g.resistors.take(half.g.resistors.len() as int) =~= half.g.resistors);
        lemma_grows(st.g.resistors, g.resistors, half.g.resistors);
        lemma_grows(st.g.resistors, half.g.resistors, end.g.resistors);
    }
}

proof fn lemma_points_drawn(
    cx: CtxView,
    net: Net,
    tree: SteinerTreeView,
    rule: Option<(i32, i32)>,
    st: BuildState,
    pt: int,
    i: int,
    res: HV,
    cap: HV,
)
    requires
        0 <= pt < tree.tree.branch.len() <= u32::MAX,
        in_turn(st.g, st.last, tree.tree.branch.len() as int),
        drawn_so_far(st.g, tree.tree.branch, i, res, cap, rule),
    ensures
        steiner::point_connected(
            cx,
            net,
            tree,
            pt,
            st,
            Node::Sub(steiner::id_of(pt)),
        ) matches Ok(end) ==> {
            &&& grows(st.g.resistors, end.g.resistors)
            &&& tree.tree.branch.len() + end.g.resistors.len() <= u32::MAX ==> {
                &&& in_turn(end.g, end.last, tree.tree.branch.len() as int)
                &&& drawn_so_far(end.g, tree.tree.branch, i, res, cap, rule)
            }
        },
{
    let n = tree.tree.branch.len() as int;
    let node = Node::Sub(steiner::id_of(pt));
    assert(steiner::id_of(pt) == pt);
    assert(st.g.resistors.take(st.g.resistors.len() as int) =~= st.g.resistors);
    if pt < tree.tree.deg {
        let at = tree.tree.branch[pt];
        lemma_pins_in_turn(cx, net, tree.pinlocs, at.x, at.y, st, node, n);
        if let Ok(end) = steiner::point_connected(cx, net, tree, pt, st, node) {
            if n + end.g.resistors.len() <= u32::MAX {
                lemma_same_drawn(st.g, end.g, tree.tree.branch, i, res, cap, rule);
            }
        }
    }
}

proof fn lemma_branches_drawn(
    cx: CtxView,
    net: Net,
    tree: SteinerTreeView,
    rule: Option<(i32, i32)>,
    n: int,
    res: HV,
    cap: HV,
)
    requires
        resolves_to(cx, res, cap),
        steiner::sound(tree),
        0 <= n <= tree.tree.branch.len(),
        1 <= tree.tree.branch.len(),
    ensures
        steiner::branches_built(cx, net, tree, rule, n) matches Ok(end) ==> (
        tree.tree.branch.len() + end.g.resistors.len() <= u32::MAX ==> {
            &&& in_turn(end.g, end.last, tree.tree.branch.len() as int)
            &&& drawn_so_far(end.g, tree.tree.branch, n, res, cap, rule)
        }),
    decreases n,
{
    let s = tree.tree.branch;
    let all = s.len() as int;
    if let Ok(end) = steiner::branches_built(cx, net, tree, rule, n) {
        if all + end.g.resistors.len() <= u32::MAX {
            if n > 0 {
                let i = n - 1;
                let st = steiner::branches_built(cx, net, tree, rule, i)->Ok_0;
                lemma_branches_drawn(cx, net, tree, rule, i, res, cap);
                lemma_built_grows(cx, net, tree, rule, st, i);
                let a = s[i];
                let b = s[a.n as int];
                assert(steiner::branch_sound(s, tree.tree.branch[i]));
                lemma_branch_drawn(cx, rule, st, s, i, res, cap);
                let (from, to) = (
                    Node::Sub(steiner::id_of(i)),
                    Node::Sub(steiner::id_of(a.n as int)),
                );
                let g = steiner::branch_wired(
                    cx,
                    rule,
                    st.g.with_sub(steiner::id_of(i)).with_sub(steiner::id_of(a.n as int)),
                    from,
                    to,
                    steiner::apart(a.x as int, b.x as int) as i32,
                    steiner::apart(a.y as int, b.y as int) as i32,
                );
                let wired = BuildState { g, ..st };
                let half = steiner::point_connected(cx, net, tree, i, wired, from)->Ok_0;
                lemma_points_drawn(cx, net, tree, rule, wired, i, n, res, cap);
                lemma_pins_grow(cx, net, tree.pinlocs, b.x, b.y, half, to);
                lemma_points_drawn(cx, net, tree, rule, half, a.n as int, n, res, cap);
            } else {
                assert(steiner::id_of(all - 1) == all - 1);
                assert forall|k: int| 0 <= k < all implies #[trigger] cap_at(end.g, k)
                    == half_wires(s, cap, k, 0) by {}
                assert(inner_count(end.g.resistors, all) == 0);
                assert(between_points(end.g.resistors, all).len() == 0);
                assert forall|id: u32| id >= all implies #[trigger] untouched(end.g, id) by {}
            }
        }
    }
}

/// The wires of a net: between the points of the tree there is one resistor for each branch, in
/// the branches' order, and no other. It is a link where the branch has no length. Else it runs
/// along x and along y as far as the branch's two ends are apart, with the horizontal and the
/// vertical resistance per metre that the current technology resolves to in the net's corner: those
/// of `SignalRes` for a signal net, of `ClkRes` for a clock. Each end of such a branch has half the
/// wire with the capacitances of `SignalCap` or `ClkCap`, and no point has anything else.
pub proof fn law_wires_are_the_branches(
    cx: CtxView,
    net: Net,
    tree: SteinerTreeView,
    res: HV,
    cap: HV,
)
    requires
        steiner::sound(tree),
        1 <= tree.tree.branch.len(),
        !cx.is_clk ==> res == rc::hv_at(
            rc::resolved_list::<rc::SignalRes>(cx.rc.wire_rc, cx.tech),
            cx.corner,
        ) && cap == rc::hv_at(
            rc::resolved_list::<rc::SignalCap>(cx.rc.wire_rc, cx.tech),
            cx.corner,
        ),
        cx.is_clk ==> res == rc::hv_at(
            rc::resolved_list::<rc::ClkRes>(cx.rc.wire_rc, cx.tech),
            cx.corner,
        ) && cap == rc::hv_at(
            rc::resolved_list::<rc::ClkCap>(cx.rc.wire_rc, cx.tech),
            cx.corner,
        ),
        steiner::steiner_network(cx, net, tree) matches Ok(g) && tree.tree.branch.len()
            + g.resistors.len() <= u32::MAX,
    ensures
        ({
            let s = tree.tree.branch;
            let g = steiner::steiner_network(cx, net, tree)->Ok_0;
            let rule = steiner::rule_widths(cx.db, net)->Ok_0;
            let wires = between_points(g.resistors, s.len() as int);
            &&& wires.len() == s.len()
            &&& forall|i: int|
                0 <= i < s.len() ==> is_branch(#[trigger] wires[i], s, i, res, rule)
            &&& forall|k: int|
                0 <= k < s.len() ==> #[trigger] g.sub_nodes[k] == half_wires(
                    s,
                    cap,
                    k,
                    s.len() as int,
                )
        }),
{
    let rule = steiner::rule_widths(cx.db, net)->Ok_0;
    let s = tree.tree.branch;
    let g = steiner::steiner_network(cx, net, tree)->Ok_0;
    lemma_branches_drawn(cx, net, tree, rule, s.len() as int, res, cap);
    assert forall|k: int| 0 <= k < s.len() implies #[trigger] g.sub_nodes[k] == half_wires(
        s,
        cap,
        k,
        s.len() as int,
    ) by {
        network_laws::law_every_point_is_a_node(cx, net, tree, k);
        assert(steiner::id_of(k) == k);
        assert(cap_at(g, k) == half_wires(s, cap, k, s.len() as int));
    }
}

/// The nodes of a net: its Steiner nodes are the tree's points, by their places, and then one node
/// for each resistor that leads to a node within a via chain, by the ids that follow. Such a node is
/// no point of the tree and was in the network by no other resistor: one leads to it, one leads on
/// from it at most, and it has no capacitance.
pub proof fn law_nodes_within_vias_are_new(cx: CtxView, net: Net, tree: SteinerTreeView)
    requires
        steiner::sound(tree),
        1 <= tree.tree.branch.len(),
        steiner::steiner_network(cx, net, tree) matches Ok(g) && tree.tree.branch.len()
            + g.resistors.len() <= u32::MAX,
    ensures
        ({
            let n = tree.tree.branch.len() as int;
            let g = steiner::steiner_network(cx, net, tree)->Ok_0;
            &&& forall|k: int| #[trigger]
                g.sub_nodes.contains_key(k) <==> 0 <= k < n + inner_count(g.resistors, n)
            &&& forall|k: int|
                n <= k < n + inner_count(g.resistors, n) ==> #[trigger] passes_on(g, k)
        }),
{
    let rule = steiner::rule_widths(cx.db, net)->Ok_0;
    let s = tree.tree.branch;
    let n = s.len() as int;
    let g = steiner::steiner_network(cx, net, tree)->Ok_0;
    let res = rc::hv_at(
        if cx.is_clk {
            rc::resolved_list::<rc::ClkRes>(cx.rc.wire_rc, cx.tech)
        } else {
            rc::resolved_list::<rc::SignalRes>(cx.rc.wire_rc, cx.tech)
        },
        cx.corner,
    );
    let cap = rc::hv_at(
        if cx.is_clk {
            rc::resolved_list::<rc::ClkCap>(cx.rc.wire_rc, cx.tech)
        } else {
            rc::resolved_list::<rc::SignalCap>(cx.rc.wire_rc, cx.tech)
        },
        cx.corner,
    );
    lemma_branches_drawn(cx, net, tree, rule, n, res, cap);
    assert forall|k: int| 0 <= k < n + inner_count(
        g.resistors,
        n,
    ) implies #[trigger] g.sub_nodes.contains_key(k) by {
        if k < n {
            network_laws::law_every_point_is_a_node(cx, net, tree, k);
            assert(steiner::id_of(k) == k);
        } else {
            assert(passes_on(g, k));
        }
    }
}

/// A tree has a network exactly where every branch goes to a point of the tree and runs no further,
/// along x and along y together, than a machine number holds.
pub proof fn law_sound_trees(tree: SteinerTreeView)
    ensures
        steiner::sound(tree) <==> forall|i: int|
            0 <= i < tree.tree.branch.len() ==> stays_within(
                tree.tree.branch,
                #[trigger] tree.tree.branch[i],
            ),
{
    let s = tree.tree.branch;
    assert forall|i: int| 0 <= i < s.len() implies steiner::branch_sound(s, #[trigger] s[i])
        == stays_within(s, s[i]) by {}
    if steiner::sound(tree) {
        assert forall|i: int| 0 <= i < s.len() implies stays_within(s, #[trigger] s[i]) by {
            assert(steiner::branch_sound(s, tree.tree.branch[i]));
        }
    }
    if forall|i: int| 0 <= i < s.len() ==> stays_within(s, #[trigger] s[i]) {
        assert forall|i: int| 0 <= i < s.len() implies steiner::branch_sound(s, #[trigger] s[i]) by {
            assert(stays_within(s, s[i]));
        }
    }
}

/// The branch goes to one of the points, and no further than a machine number holds.
pub open spec fn stays_within(s: Seq<Branch>, b: Branch) -> bool {
    b.n < s.len() && span(b.x as int, s[b.n as int].x as int) + span(
        b.y as int,
        s[b.n as int].y as int,
    ) <= 0x7fff_ffff
}

} // verus!
