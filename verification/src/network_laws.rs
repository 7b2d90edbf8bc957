//! What holds of every network.

use vstd::prelude::*;

use crate::cuts;
use crate::cuts::{ViaEnds, ViaState};
use crate::db::{Db, Net};
use crate::network::{HalfWire, Node, ParasiticView, ResistanceView, ResistorView};
use crate::placement;
use crate::placement::{PinLoc, SteinerTreeView};
use crate::rc::RcView;
use crate::steiner;
use crate::steiner::{BuildState, CtxView};

verus! {

/// Every resistor joins two nodes of the network, and no pin node has capacitance.
pub open spec fn regular(g: ParasiticView) -> bool {
    g.closed() && g.bare_pins()
}

/// Whatever node is in `g` is in `h`.
pub open spec fn extends(g: ParasiticView, h: ParasiticView) -> bool {
    forall|n: Node| #[trigger] g.holds(n) ==> h.holds(n)
}

proof fn lemma_with_sub(g: ParasiticView, id: u32)
    requires
        regular(g),
    ensures
        regular(g.with_sub(id)),
        extends(g, g.with_sub(id)),
        g.with_sub(id).holds(Node::Sub(id)),
        g.with_sub(id).resistors == g.resistors,
        g.with_sub(id).pin_nodes == g.pin_nodes,
{
    let h = g.with_sub(id);
    assert forall|i: int| 0 <= i < h.resistors.len() implies h.holds((#[trigger] h.resistors[i]).from)
        && h.holds(h.resistors[i].to) by {
        assert(g.holds(g.resistors[i].from) && g.holds(g.resistors[i].to));
    }
}

proof fn lemma_with_resistor(g: ParasiticView, from: Node, to: Node, value: ResistanceView)
    requires
        regular(g),
        g.holds(from),
        g.holds(to),
    ensures
        regular(g.with_resistor(from, to, value)),
        extends(g, g.with_resistor(from, to, value)),
{
    let h = g.with_resistor(from, to, value);
    assert forall|i: int| 0 <= i < h.resistors.len() implies h.holds((#[trigger] h.resistors[i]).from)
        && h.holds(h.resistors[i].to) by {
        if i < g.resistors.len() {
            assert(h.resistors[i] == g.resistors[i]);
            assert(g.holds(g.resistors[i].from) && g.holds(g.resistors[i].to));
        }
    }
}

proof fn lemma_with_cap(g: ParasiticView, id: u32, c: HalfWire)
    requires
        regular(g),
        g.holds(Node::Sub(id)),
    ensures
        regular(g.with_cap(Node::Sub(id), c)),
        extends(g, g.with_cap(Node::Sub(id), c)),
{
    let h = g.with_cap(Node::Sub(id), c);
    assert forall|i: int| 0 <= i < h.resistors.len() implies h.holds((#[trigger] h.resistors[i]).from)
        && h.holds(h.resistors[i].to) by {
        assert(g.holds(g.resistors[i].from) && g.holds(g.resistors[i].to));
    }
}

proof fn lemma_with_pin(g: ParasiticView, net: Net, pin: PinLoc, key: u64)
    requires
        regular(g),
    ensures
        regular(g.with_pin(net, pin, key)),
        extends(g, g.with_pin(net, pin, key)),
        g.with_pin(net, pin, key).holds(Node::Pin(key)),
{
    let h = g.with_pin(net, pin, key);
    assert forall|i: int| 0 <= i < h.resistors.len() implies h.holds((#[trigger] h.resistors[i]).from)
        && h.holds(h.resistors[i].to) by {
        assert(g.holds(g.resistors[i].from) && g.holds(g.resistors[i].to));
    }
}

proof fn lemma_chain_regular(db: Db, rc: RcView, corner: int, ends: ViaEnds, st: ViaState, l: int)
    requires
        regular(st.g),
        st.g.holds(ends.pin_node),
        st.g.holds(ends.node),
        st.prev is None,
    ensures
        cuts::via_chain(db, rc, corner, ends, st, l) matches Ok(end) ==> {
            &&& regular(end.g)
            &&& extends(st.g, end.g)
            &&& end.prev matches Some(n) ==> end.g.holds(n)
        },
    decreases l - ends.low(),
{
    if l > ends.low() {
        lemma_chain_regular(db, rc, corner, ends, st, l - 1);
        if let Ok(before) = cuts::via_chain(db, rc, corner, ends, st, l - 1) {
            assert(before.g.holds(ends.bottom()) && before.g.holds(ends.top()));
            if let Ok(end) = cuts::via_step(db, rc, corner, ends, before, l - 1) {
                if cuts::cut_at(db, l - 1) == Ok::<bool, Seq<char>>(true) {
                    let a = if l - 2 == ends.low() {
                        ends.bottom()
                    } else {
                        before.prev->Some_0
                    };
                    let value = ResistanceView::Cut(
                        crate::rc::layer_value(rc.layer_res, l - 1, corner),
                    );
                    assert(before.g.holds(a));
                    if l == ends.high() {
                        lemma_with_resistor(before.g, a, ends.top(), value);
                    } else {
                        let id = cuts::next_id(before.last);
                        lemma_with_sub(before.g, id);
                        lemma_with_resistor(before.g.with_sub(id), a, Node::Sub(id), value);
                    }
                }
            }
        }
    }
}

proof fn lemma_joined_regular(
    cx: CtxView,
    net: Net,
    pin: PinLoc,
    pin_node: Node,
    node: Node,
    g: ParasiticView,
    last: u32,
)
    requires
        regular(g),
        g.holds(pin_node),
        g.holds(node),
    ensures
        steiner::joined(cx, net, pin, pin_node, node, g, last) matches Ok(made) ==> regular(made.0)
            && extends(g, made.0),
{
    let layers = steiner::wire_layers(cx);
    if layers.len() > 0 && cx.rc.layer_res != Map::<int, Seq<crate::value::Double>>::empty() {
        if let Ok(p) = cuts::pin_layer(net, pin) {
            let ends = ViaEnds { p: p as int, t: layers[0] as int, pin_node, node };
            let value = ResistanceView::Cut(
                crate::rc::layer_value(cx.rc.layer_res, ends.low() + 1, cx.corner),
            );
            lemma_with_resistor(g, pin_node, node, value);
            lemma_with_resistor(g, pin_node, node, ResistanceView::Link);
            lemma_chain_regular(
                cx.db,
                cx.rc,
                cx.corner,
                ends,
                ViaState { g, last, prev: None },
                ends.high(),
            );
        }
    } else {
        if let Ok(v) = cuts::average_cuts(cx.db, cx.rc, cx.corner) {
            lemma_with_resistor(g, node, pin_node, ResistanceView::AverageCut(v));
        }
    }
}

proof fn lemma_pins_regular(
    cx: CtxView,
    net: Net,
    pins: Seq<PinLoc>,
    x: i32,
    y: i32,
    st: BuildState,
    node: Node,
)
    requires
        regular(st.g),
        st.g.holds(node),
    ensures
        steiner::pins_connected(cx, net, pins, x, y, st, node) matches Ok(end) ==> regular(end.g)
            && extends(st.g, end.g),
    decreases pins.len(),
{
    if pins.len() > 0 {
        lemma_pins_regular(cx, net, pins.drop_last(), x, y, st, node);
        if let Ok(before) = steiner::pins_connected(cx, net, pins.drop_last(), x, y, st, node) {
            let pin = pins.last();
            if let Ok(key) = placement::key_of(net, pin) {
                lemma_with_pin(before.g, net, pin, key);
                let g = before.g.with_pin(net, pin, key);
                assert(before.g.holds(node));
                lemma_joined_regular(cx, net, pin, Node::Pin(key), node, g, before.last);
            }
        }
    }
}

/// Every pin at a place is in the network and joined.
pub open spec fn all_joined(net: Net, pins: Seq<PinLoc>, x: i32, y: i32, st: BuildState) -> bool {
    forall|i: int|
        0 <= i < pins.len() && (#[trigger] pins[i]).x == x && pins[i].y == y ==> pin_joined(
            net,
            pins[i],
            st,
        )
}

/// The pin is in the network and joined.
pub open spec fn pin_joined(net: Net, pin: PinLoc, st: BuildState) -> bool {
    st.connected.contains(pin.name@) && placement::key_of(net, pin) is Ok && st.g.holds(
        Node::Pin(placement::key_of(net, pin)->Ok_0),
    )
}

/// A build went on: no node was lost, and no joined pin, and none was joined twice.
pub open spec fn goes_on(st: BuildState, end: BuildState) -> bool {
    &&& extends(st.g, end.g)
    &&& forall|s: Seq<char>| #[trigger] st.connected.contains(s) ==> end.connected.contains(s)
    &&& st.connected.no_duplicates() ==> end.connected.no_duplicates()
}

proof fn lemma_goes_on(a: BuildState, b: BuildState, c: BuildState)
    requires
        goes_on(a, b),
        goes_on(b, c),
    ensures
        goes_on(a, c),
{
    assert forall|n: Node| #[trigger] a.g.holds(n) implies c.g.holds(n) by {
        assert(b.g.holds(n));
    }
    assert forall|s: Seq<char>| #[trigger] a.connected.contains(s) implies c.connected.contains(s) by {
        assert(b.connected.contains(s));
    }
}

proof fn lemma_chain_extends(db: Db, rc: RcView, corner: int, ends: ViaEnds, st: ViaState, l: int)
    ensures
        cuts::via_chain(db, rc, corner, ends, st, l) matches Ok(end) ==> extends(st.g, end.g),
    decreases l - ends.low(),
{
    if l > ends.low() {
        lemma_chain_extends(db, rc, corner, ends, st, l - 1);
        if let Ok(before) = cuts::via_chain(db, rc, corner, ends, st, l - 1) {
            if let Ok(end) = cuts::via_step(db, rc, corner, ends, before, l - 1) {
                assert(extends(before.g, end.g));
                assert forall|n: Node| #[trigger] st.g.holds(n) implies end.g.holds(n) by {
                    assert(before.g.holds(n));
                }
            }
        }
    }
}

proof fn lemma_joined_extends(
    cx: CtxView,
    net: Net,
    pin: PinLoc,
    pin_node: Node,
    node: Node,
    g: ParasiticView,
    last: u32,
)
    ensures
        steiner::joined(cx, net, pin, pin_node, node, g, last) matches Ok(made) ==> extends(
            g,
            made.0,
        ),
{
    let layers = steiner::wire_layers(cx);
    if layers.len() > 0 && cx.rc.layer_res != Map::<int, Seq<crate::value::Double>>::empty() {
        if let Ok(p) = cuts::pin_layer(net, pin) {
            let ends = ViaEnds { p: p as int, t: layers[0] as int, pin_node, node };
            lemma_chain_extends(
                cx.db,
                cx.rc,
                cx.corner,
                ends,
                ViaState { g, last, prev: None },
                ends.high(),
            );
        }
    }
}

proof fn lemma_pins_joined(
    cx: CtxView,
    net: Net,
    pins: Seq<PinLoc>,
    x: i32,
    y: i32,
    st: BuildState,
    node: Node,
)
    ensures
        steiner::pins_connected(cx, net, pins, x, y, st, node) matches Ok(end) ==> goes_on(st, end)
            && all_joined(net, pins, x, y, end),
    decreases pins.len(),
{
    if pins.len() > 0 {
        let fewer = pins.drop_last();
        lemma_pins_joined(cx, net, fewer, x, y, st, node);
        if let Ok(before) = steiner::pins_connected(cx, net, fewer, x, y, st, node) {
            let pin = pins.last();
            if let Ok(end) = steiner::pins_connected(cx, net, pins, x, y, st, node) {
                if pin.x == x && pin.y == y {
                    lemma_pin_joined(cx, net, before, node, pin);
                    lemma_goes_on(st, before, end);
                    assert(pin_joined(net, pin, end));
                }
                assert forall|i: int|
                    0 <= i < pins.len() && (#[trigger] pins[i]).x == x && pins[i].y
                        == y implies pin_joined(net, pins[i], end) by {
                    if i < fewer.len() {
                        assert(fewer[i] == pins[i]);
                        assert(pin_joined(net, fewer[i], before));
                        assert(goes_on(before, end));
                    }
                }
            }
        }
    }
}

proof fn lemma_pin_joined(cx: CtxView, net: Net, st: BuildState, node: Node, pin: PinLoc)
    ensures
        steiner::pin_connected(cx, net, st, node, pin) matches Ok(end) ==> goes_on(st, end)
            && pin_joined(net, pin, end),
{
    if let Ok(key) = placement::key_of(net, pin) {
        let g = st.g.with_pin(net, pin, key);
        assert(extends(st.g, g));
        lemma_joined_extends(cx, net, pin, Node::Pin(key), node, g, st.last);
        if let Ok(end) = steiner::pin_connected(cx, net, st, node, pin) {
            assert forall|n: Node| #[trigger] st.g.holds(n) implies end.g.holds(n) by {
                assert(g.holds(n));
            }
            assert(g.holds(Node::Pin(key)));
            if !st.connected.contains(pin.name@) {
                let more = st.connected.push(pin.name@);
                assert(more.last() == pin.name@);
                assert forall|s: Seq<char>| #[trigger] st.connected.contains(s) implies more.contains(s) by {
                    let k = choose|k: int| 0 <= k < st.connected.len() && st.connected[k] == s;
                    assert(more[k] == s);
                }
            }
        }
    }
}

proof fn lemma_branch_built(
    cx: CtxView,
    net: Net,
    tree: SteinerTreeView,
    rule: Option<(i32, i32)>,
    st: BuildState,
    i: int,
)
    requires
        regular(st.g),
        0 <= i,
    ensures
        steiner::branch_built(cx, net, tree, rule, st, i) matches Ok(end) ==> {
            &&& regular(end.g)
            &&& goes_on(st, end)
            &&& end.g.holds(Node::Sub(steiner::id_of(i)))
            &&& i < tree.tree.deg ==> all_joined(
                net,
                tree.pinlocs,
                tree.tree.branch[i].x,
                tree.tree.branch[i].y,
                end,
            )
        },
{
    let a = tree.tree.branch[i];
    let b = tree.tree.branch[a.n as int];
    let (p, q) = (steiner::id_of(i), steiner::id_of(a.n as int));
    let (from, to) = (Node::Sub(p), Node::Sub(q));
    lemma_with_sub(st.g, p);
    lemma_with_sub(st.g.with_sub(p), q);
    let g = st.g.with_sub(p).with_sub(q);
    assert(st.g.with_sub(p).holds(from));
    assert(g.holds(from) && g.holds(to));
    let along_x = steiner::apart(a.x as int, b.x as int) as i32;
    let along_y = steiner::apart(a.y as int, b.y as int) as i32;
    let w = steiner::branch_wired(cx, rule, g, from, to, along_x, along_y);
    lemma_wired_regular(cx, rule, g, p, q, along_x, along_y);
    assert(w.holds(from) && w.holds(to));
    let wired = BuildState { g: w, ..st };
    assert forall|n: Node| #[trigger] st.g.holds(n) implies w.holds(n) by {
        assert(st.g.with_sub(p).holds(n));
        assert(g.holds(n));
    }
    assert(goes_on(st, wired));
    if i < tree.tree.deg {
        lemma_pins_regular(cx, net, tree.pinlocs, a.x, a.y, wired, from);
        lemma_pins_joined(cx, net, tree.pinlocs, a.x, a.y, wired, from);
    }
    if let Ok(half) = steiner::point_connected(cx, net, tree, i, wired, from) {
        assert(goes_on(wired, half));
        lemma_goes_on(st, wired, half);
        assert(half.g.holds(to));
        if a.n < tree.tree.deg {
            lemma_pins_regular(cx, net, tree.pinlocs, b.x, b.y, half, to);
            lemma_pins_joined(cx, net, tree.pinlocs, b.x, b.y, half, to);
        }
        if let Ok(end) = steiner::point_connected(cx, net, tree, a.n as int, half, to) {
            assert(goes_on(half, end));
            lemma_goes_on(st, half, end);
            assert(half.g.holds(from));
            if i < tree.tree.deg {
                assert forall|k: int|
                    0 <= k < tree.pinlocs.len() && (#[trigger] tree.pinlocs[k]).x == a.x
                        && tree.pinlocs[k].y == a.y implies pin_joined(net, tree.pinlocs[k], end) by {
                    assert(pin_joined(net, tree.pinlocs[k], half));
                }
            }
        }
    }
}

proof fn lemma_branches_built(
    cx: CtxView,
    net: Net,
    tree: SteinerTreeView,
    rule: Option<(i32, i32)>,
    n: int,
)
    ensures
        steiner::branches_built(cx, net, tree, rule, n) matches Ok(end) ==> {
            &&& regular(end.g)
            &&& end.connected.no_duplicates()
            &&& forall|i: int|
                0 <= i < n ==> #[trigger] end.g.holds(Node::Sub(steiner::id_of(i)))
            &&& forall|i: int|
                0 <= i < n && i < tree.tree.deg ==> all_joined(
                    net,
                    tree.pinlocs,
                    (#[trigger] tree.tree.branch[i]).x,
                    tree.tree.branch[i].y,
                    end,
                )
        },
    decreases n,
{
    if n > 0 {
        lemma_branches_built(cx, net, tree, rule, n - 1);
        if let Ok(st) = steiner::branches_built(cx, net, tree, rule, n - 1) {
            lemma_branch_built(cx, net, tree, rule, st, n - 1);
            if let Ok(end) = steiner::branch_built(cx, net, tree, rule, st, n - 1) {
                assert forall|i: int| 0 <= i < n implies #[trigger] end.g.holds(
                    Node::Sub(steiner::id_of(i)),
                ) by {
                    if i < n - 1 {
                        assert(st.g.holds(Node::Sub(steiner::id_of(i))));
                    }
                }
                assert forall|i: int| 0 <= i < n && i < tree.tree.deg implies all_joined(
                    net,
                    tree.pinlocs,
                    (#[trigger] tree.tree.branch[i]).x,
                    tree.tree.branch[i].y,
                    end,
                ) by {
                    if i < n - 1 {
                        let at = tree.tree.branch[i];
                        assert(all_joined(net, tree.pinlocs, at.x, at.y, st));
                        assert forall|k: int|
                            0 <= k < tree.pinlocs.len() && (#[trigger] tree.pinlocs[k]).x == at.x
                                && tree.pinlocs[k].y == at.y implies pin_joined(
                            net,
                            tree.pinlocs[k],
                            end,
                        ) by {
                            assert(pin_joined(net, tree.pinlocs[k], st));
                        }
                    }
                }
            }
        }
    }
}

proof fn lemma_wired_regular(
    cx: CtxView,
    rule: Option<(i32, i32)>,
    g: ParasiticView,
    from: u32,
    to: u32,
    along_x: i32,
    along_y: i32,
)
    requires
        regular(g),
        g.holds(Node::Sub(from)),
        g.holds(Node::Sub(to)),
    ensures
        regular(
            steiner::branch_wired(cx, rule, g, Node::Sub(from), Node::Sub(to), along_x, along_y),
        ),
        extends(
            g,
            steiner::branch_wired(cx, rule, g, Node::Sub(from), Node::Sub(to), along_x, along_y),
        ),
{
    let (a, b) = (Node::Sub(from), Node::Sub(to));
    if along_x == 0 && along_y == 0 {
        lemma_with_resistor(g, a, b, ResistanceView::Link);
    } else {
        let v = steiner::wire_values(cx);
        let half = HalfWire { along_x, along_y, h: v.2, v: v.3 };
        let value = ResistanceView::Wire { along_x, along_y, h: v.0, v: v.1, rule };
        lemma_with_cap(g, from, half);
        let g1 = g.with_cap(a, half);
        assert(g1.holds(a) && g1.holds(b));
        lemma_with_resistor(g1, a, b, value);
        let g2 = g1.with_resistor(a, b, value);
        assert(g2.holds(b));
        lemma_with_cap(g2, to, half);
        assert forall|n: Node| #[trigger] g.holds(n) implies g2.with_cap(b, half).holds(n) by {
            assert(g1.holds(n));
            assert(g2.holds(n));
        }
    }
}

/// Every resistor of a net's network joins two of its nodes, and capacitance is at Steiner nodes
/// alone: no pin node has any.
pub proof fn law_network_is_regular(cx: CtxView, net: Net, tree: SteinerTreeView)
    ensures
        steiner::steiner_network(cx, net, tree) matches Ok(g) ==> g.closed() && g.bare_pins(),
{
    if let Ok(rule) = steiner::rule_widths(cx.db, net) {
        lemma_branches_built(cx, net, tree, rule, tree.tree.branch.len() as int);
    }
}

/// The network of a pad net is its first two pins and one link between them: no Steiner node and
/// no capacitance.
pub proof fn law_pad_network_is_a_link(net: Net, pins: Seq<PinLoc>)
    requires
        pins.len() >= 2,
    ensures
        steiner::pad_network(net, pins) matches Ok(g) ==> {
            &&& g.closed()
            &&& g.bare_pins()
            &&& g.sub_nodes == Map::<int, Seq<HalfWire>>::empty()
            &&& g.resistors.len() == 1
            &&& g.resistors[0].value is Link
            &&& g.holds(g.resistors[0].from)
            &&& g.holds(g.resistors[0].to)
        },
{
    if let (Ok(a), Ok(b)) = (placement::key_of(net, pins[0]), placement::key_of(net, pins[1])) {
        let g0 = ParasiticView::empty();
        lemma_with_pin(g0, net, pins[0], a);
        let g1 = g0.with_pin(net, pins[0], a);
        lemma_with_pin(g1, net, pins[1], b);
        let g2 = g1.with_pin(net, pins[1], b);
        assert(g1.holds(Node::Pin(a)));
        lemma_with_resistor(g2, Node::Pin(a), Node::Pin(b), ResistanceView::Link);
    }
}

/// A branch without length is a link and adds no capacitance.
pub proof fn law_branch_without_length_is_a_link(
    cx: CtxView,
    rule: Option<(i32, i32)>,
    g: ParasiticView,
    from: Node,
    to: Node,
)
    ensures
        ({
            let h = steiner::branch_wired(cx, rule, g, from, to, 0, 0);
            &&& h.sub_nodes == g.sub_nodes
            &&& h.pin_nodes == g.pin_nodes
            &&& h.resistors.len() == g.resistors.len() + 1
            &&& h.resistors.drop_last() == g.resistors
            &&& h.resistors.last().value is Link
        }),
{
    let h = steiner::branch_wired(cx, rule, g, from, to, 0, 0);
    assert(h.resistors.drop_last() =~= g.resistors);
}

/// A branch with length between two points is a pi model: one resistor between them, and the same
/// half of the wire's capacitance at the one and at the other, and nowhere else.
pub proof fn law_branch_with_length_is_a_pi_model(
    cx: CtxView,
    rule: Option<(i32, i32)>,
    g: ParasiticView,
    from: u32,
    to: u32,
    along_x: i32,
    along_y: i32,
)
    requires
        g.holds(Node::Sub(from)),
        g.holds(Node::Sub(to)),
        from != to,
        along_x != 0 || along_y != 0,
    ensures
        ({
            let h = steiner::branch_wired(
                cx,
                rule,
                g,
                Node::Sub(from),
                Node::Sub(to),
                along_x,
                along_y,
            );
            let v = steiner::wire_values(cx);
            let half = HalfWire { along_x, along_y, h: v.2, v: v.3 };
            &&& h.pin_nodes == g.pin_nodes
            &&& h.sub_nodes.dom() == g.sub_nodes.dom()
            &&& h.sub_nodes[from as int] == g.sub_nodes[from as int].push(half)
            &&& h.sub_nodes[to as int] == g.sub_nodes[to as int].push(half)
            &&& forall|k: int|
                k != from && k != to ==> #[trigger] h.sub_nodes[k] == g.sub_nodes[k]
            &&& h.resistors.len() == g.resistors.len() + 1
            &&& h.resistors.drop_last() == g.resistors
            &&& h.resistors.last().value == (ResistanceView::Wire {
                along_x,
                along_y,
                h: v.0,
                v: v.1,
                rule,
            })
        }),
{
    let h = steiner::branch_wired(cx, rule, g, Node::Sub(from), Node::Sub(to), along_x, along_y);
    assert(h.resistors.drop_last() =~= g.resistors);
    assert(h.sub_nodes.dom() =~= g.sub_nodes.dom());
}

/// Every point of the tree is a node of the network.
pub proof fn law_every_point_is_a_node(cx: CtxView, net: Net, tree: SteinerTreeView, i: int)
    requires
        0 <= i < tree.tree.branch.len(),
    ensures
        steiner::steiner_network(cx, net, tree) matches Ok(g) ==> g.holds(
            Node::Sub(steiner::id_of(i)),
        ),
{
    if let Ok(rule) = steiner::rule_widths(cx.db, net) {
        lemma_branches_built(cx, net, tree, rule, tree.tree.branch.len() as int);
    }
}

/// Every pin at the place of one of the points that the tree was built for is a node of the
/// network.
pub proof fn law_every_pin_is_a_node(
    cx: CtxView,
    net: Net,
    tree: SteinerTreeView,
    i: int,
    k: int,
)
    requires
        0 <= i < tree.tree.branch.len(),
        i < tree.tree.deg,
        0 <= k < tree.pinlocs.len(),
        tree.pinlocs[k].x == tree.tree.branch[i].x,
        tree.pinlocs[k].y == tree.tree.branch[i].y,
    ensures
        steiner::steiner_network(cx, net, tree) matches Ok(g) ==> (placement::key_of(
            net,
            tree.pinlocs[k],
        ) matches Ok(key) && g.holds(Node::Pin(key))),
{
    if let Ok(rule) = steiner::rule_widths(cx.db, net) {
        let n = tree.tree.branch.len() as int;
        lemma_branches_built(cx, net, tree, rule, n);
        if let Ok(end) = steiner::branches_built(cx, net, tree, rule, n) {
            let at = tree.tree.branch[i];
            assert(all_joined(net, tree.pinlocs, at.x, at.y, end));
            assert(pin_joined(net, tree.pinlocs[k], end));
        }
    }
}

/// A pin is joined once: when the pins at a point have been joined, joining them again, to
/// whatever point, changes nothing.
pub proof fn law_pins_are_joined_once(
    cx: CtxView,
    net: Net,
    tree: SteinerTreeView,
    pt: int,
    st: BuildState,
    node: Node,
    other: Node,
)
    ensures
        steiner::point_connected(cx, net, tree, pt, st, node) matches Ok(end)
            ==> steiner::point_connected(cx, net, tree, pt, end, other) == Ok::<
            BuildState,
            Seq<char>,
        >(end),
{
    if pt < tree.tree.deg {
        let at = tree.tree.branch[pt];
        lemma_pins_joined(cx, net, tree.pinlocs, at.x, at.y, st, node);
        if let Ok(end) = steiner::point_connected(cx, net, tree, pt, st, node) {
            lemma_joined_stay(cx, net, tree.pinlocs, at.x, at.y, end, other);
        }
    }
}

proof fn lemma_joined_stay(
    cx: CtxView,
    net: Net,
    pins: Seq<PinLoc>,
    x: i32,
    y: i32,
    st: BuildState,
    node: Node,
)
    requires
        all_joined(net, pins, x, y, st),
    ensures
        steiner::pins_connected(cx, net, pins, x, y, st, node) == Ok::<BuildState, Seq<char>>(st),
    decreases pins.len(),
{
    if pins.len() > 0 {
        let fewer = pins.drop_last();
        assert forall|i: int|
            0 <= i < fewer.len() && (#[trigger] fewer[i]).x == x && fewer[i].y == y implies pin_joined(
            net,
            fewer[i],
            st,
        ) by {
            assert(fewer[i] == pins[i]);
        }
        lemma_joined_stay(cx, net, fewer, x, y, st, node);
        if pins.last().x == x && pins.last().y == y {
            assert(pin_joined(net, pins[pins.len() - 1], st));
        }
    }
}

/// No name stands twice among the pins that a network's build has joined.
pub proof fn law_no_pin_joined_twice(
    cx: CtxView,
    net: Net,
    tree: SteinerTreeView,
    rule: Option<(i32, i32)>,
    n: int,
)
    ensures
        steiner::branches_built(cx, net, tree, rule, n) matches Ok(end)
            ==> end.connected.no_duplicates(),
{
    lemma_branches_built(cx, net, tree, rule, n);
}

/// Layers two apart are joined by one cut, the same layer by a link; neither makes a node.
pub proof fn law_near_layers_make_no_node(
    db: Db,
    rc: RcView,
    corner: int,
    ends: ViaEnds,
    g: ParasiticView,
    last: u32,
)
    requires
        ends.p == ends.t || ends.p - ends.t == 2 || ends.t - ends.p == 2,
    ensures
        cuts::joined_by_vias(db, rc, corner, ends, g, last) matches Ok(made) && made.1 == last
            && made.0.sub_nodes == g.sub_nodes && made.0.pin_nodes == g.pin_nodes
            && made.0.resistors.drop_last() == g.resistors && made.0.resistors.last().from
            == ends.pin_node && made.0.resistors.last().to == ends.node && (if ends.p == ends.t {
            made.0.resistors.last().value is Link
        } else {
            made.0.resistors.last().value == ResistanceView::Cut(
                crate::rc::layer_value(rc.layer_res, (ends.p + ends.t) / 2, corner),
            )
        }),
{
    let made = cuts::joined_by_vias(db, rc, corner, ends, g, last)->Ok_0;
    assert(made.0.resistors.drop_last() =~= g.resistors);
}

/// Every other layer from the lower end up is a cut layer.
pub open spec fn alternating(db: Db, ends: ViaEnds) -> bool {
    forall|l: int|
        ends.low() <= l < ends.high() ==> #[trigger] cuts::cut_at(db, l) == Ok::<bool, Seq<char>>(
            (l - ends.low()) % 2 == 1,
        )
}

/// The resistors from place `n` on lead from `bottom`, each from where the one before it ends.
pub open spec fn leads(g: ParasiticView, n: int, bottom: Node) -> bool {
    &&& n < g.resistors.len() ==> g.resistors[n].from == bottom
    &&& forall|k: int|
        n < k < g.resistors.len() ==> (#[trigger] g.resistors[k]).from == g.resistors[k - 1].to
}

proof fn lemma_chain_leads(
    db: Db,
    rc: RcView,
    corner: int,
    ends: ViaEnds,
    st: ViaState,
    l: int,
)
    requires
        alternating(db, ends),
        ends.low() <= l <= ends.high(),
        (ends.high() - ends.low()) % 2 == 0,
        st.prev is None,
    ensures
        cuts::via_chain(db, rc, corner, ends, st, l) matches Ok(end) && {
            &&& end.g.resistors.len() == st.g.resistors.len() + (l - ends.low()) / 2
            &&& end.g.resistors.take(st.g.resistors.len() as int) == st.g.resistors
            &&& leads(end.g, st.g.resistors.len() as int, ends.bottom())
            &&& l >= ends.low() + 2 && l < ends.high() ==> end.prev == Some(
                end.g.resistors.last().to,
            )
            &&& l >= ends.low() + 2 && l == ends.high() ==> end.g.resistors.last().to == ends.top()
        },
    decreases l - ends.low(),
{
    let n = st.g.resistors.len() as int;
    if l <= ends.low() {
        assert(st.g.resistors.take(n) =~= st.g.resistors);
    } else {
        lemma_chain_leads(db, rc, corner, ends, st, l - 1);
        let before = cuts::via_chain(db, rc, corner, ends, st, l - 1)->Ok_0;
        assert(cuts::cut_at(db, l - 1) == Ok::<bool, Seq<char>>((l - 1 - ends.low()) % 2 == 1));
        let end = cuts::via_step(db, rc, corner, ends, before, l - 1)->Ok_0;
        if (l - 1 - ends.low()) % 2 == 1 {
            assert(end.g.resistors.drop_last() =~= before.g.resistors);
            assert(end.g.resistors.take(n) =~= before.g.resistors.take(n));
            assert forall|k: int| n < k < end.g.resistors.len() implies (
            #[trigger] end.g.resistors[k]).from == end.g.resistors[k - 1].to by {
                if k < before.g.resistors.len() {
                    assert(end.g.resistors[k] == before.g.resistors[k]);
                    assert(end.g.resistors[k - 1] == before.g.resistors[k - 1]);
                }
            }
        }
    }
}

/// Where every other layer between is a cut layer, layers further apart are joined by a chain of
/// their cuts: it leads from the lower end to the upper end, one resistor for each cut.
pub proof fn law_chain_leads_from_end_to_end(
    db: Db,
    rc: RcView,
    corner: int,
    ends: ViaEnds,
    g: ParasiticView,
    last: u32,
)
    requires
        alternating(db, ends),
        (ends.high() - ends.low()) % 2 == 0,
        ends.high() - ends.low() >= 4,
    ensures
        cuts::joined_by_vias(db, rc, corner, ends, g, last) matches Ok(made) && {
            &&& made.0.resistors.len() == g.resistors.len() + (ends.high() - ends.low()) / 2
            &&& made.0.resistors.take(g.resistors.len() as int) == g.resistors
            &&& leads(made.0, g.resistors.len() as int, ends.bottom())
            &&& made.0.resistors.last().to == ends.top()
        },
{
    lemma_chain_leads(db, rc, corner, ends, ViaState { g, last, prev: None }, ends.high());
}

/// A resistance with another rule: only a wire's has one.
pub open spec fn value_ruled(v: ResistanceView, rule: Option<(i32, i32)>) -> ResistanceView {
    match v {
        ResistanceView::Wire { along_x, along_y, h, v, .. } => ResistanceView::Wire {
            along_x,
            along_y,
            h,
            v,
            rule,
        },
        other => other,
    }
}

/// A network with another rule on its wires: its nodes, their capacitance, the resistors' ends and
/// all other resistances are the same.
pub open spec fn ruled(g: ParasiticView, rule: Option<(i32, i32)>) -> ParasiticView {
    ParasiticView {
        resistors: Seq::new(
            g.resistors.len(),
            |i: int|
                ResistorView {
                    from: g.resistors[i].from,
                    to: g.resistors[i].to,
                    value: value_ruled(g.resistors[i].value, rule),
                },
        ),
        ..g
    }
}

/// A build with another rule on its wires.
spec fn state_ruled(st: BuildState, rule: Option<(i32, i32)>) -> BuildState {
    BuildState { g: ruled(st.g, rule), ..st }
}

/// A build's outcome with another rule on its wires.
spec fn outcome_ruled(r: Result<BuildState, Seq<char>>, rule: Option<(i32, i32)>) -> Result<
    BuildState,
    Seq<char>,
> {
    match r {
        Ok(st) => Ok(state_ruled(st, rule)),
        Err(e) => Err(e),
    }
}

/// Two nets that differ in their rule alone.
pub open spec fn same_but_rule(a: Net, b: Net) -> bool {
    b == (Net { rule: b.rule, ..a })
}

proof fn lemma_ruled_resistor(
    g: ParasiticView,
    from: Node,
    to: Node,
    value: ResistanceView,
    rule: Option<(i32, i32)>,
)
    ensures
        ruled(g.with_resistor(from, to, value), rule) == ruled(g, rule).with_resistor(
            from,
            to,
            value_ruled(value, rule),
        ),
{
    let (a, b) = (
        ruled(g.with_resistor(from, to, value), rule),
        ruled(g, rule).with_resistor(from, to, value_ruled(value, rule)),
    );
    assert(a.resistors =~= b.resistors);
}

proof fn lemma_ruled_chain(
    db: Db,
    rc: RcView,
    corner: int,
    ends: ViaEnds,
    st: ViaState,
    l: int,
    rule: Option<(i32, i32)>,
)
    ensures
        cuts::via_chain(db, rc, corner, ends, ViaState { g: ruled(st.g, rule), ..st }, l) == (
        match cuts::via_chain(db, rc, corner, ends, st, l) {
            Ok(end) => Ok::<ViaState, Seq<char>>(ViaState { g: ruled(end.g, rule), ..end }),
            Err(e) => Err(e),
        }),
    decreases l - ends.low(),
{
    if l > ends.low() {
        lemma_ruled_chain(db, rc, corner, ends, st, l - 1, rule);
        if let Ok(before) = cuts::via_chain(db, rc, corner, ends, st, l - 1) {
            let value = ResistanceView::Cut(crate::rc::layer_value(rc.layer_res, l - 1, corner));
            let from = if l - 2 == ends.low() {
                Some(ends.bottom())
            } else {
                before.prev
            };
            if let Some(a) = from {
                let id = cuts::next_id(before.last);
                lemma_ruled_resistor(before.g, a, ends.top(), value, rule);
                lemma_ruled_resistor(before.g.with_sub(id), a, Node::Sub(id), value, rule);
                assert(ruled(before.g.with_sub(id), rule) == ruled(before.g, rule).with_sub(id));
            }
        }
    }
}

proof fn lemma_ruled_joined(
    cx: CtxView,
    a: Net,
    b: Net,
    pin: PinLoc,
    pin_node: Node,
    node: Node,
    g: ParasiticView,
    last: u32,
    rule: Option<(i32, i32)>,
)
    requires
        same_but_rule(a, b),
    ensures
        steiner::joined(cx, b, pin, pin_node, node, ruled(g, rule), last) == (match steiner::joined(
            cx,
            a,
            pin,
            pin_node,
            node,
            g,
            last,
        ) {
            Ok(made) => Ok::<(ParasiticView, u32), Seq<char>>((ruled(made.0, rule), made.1)),
            Err(e) => Err(e),
        }),
{
    let layers = steiner::wire_layers(cx);
    assert(cuts::pin_layer(a, pin) == cuts::pin_layer(b, pin));
    if layers.len() > 0 && cx.rc.layer_res != Map::<int, Seq<crate::value::Double>>::empty() {
        if let Ok(p) = cuts::pin_layer(a, pin) {
            let ends = ViaEnds { p: p as int, t: layers[0] as int, pin_node, node };
            let value = ResistanceView::Cut(
                crate::rc::layer_value(cx.rc.layer_res, ends.low() + 1, cx.corner),
            );
            lemma_ruled_resistor(g, pin_node, node, value, rule);
            lemma_ruled_resistor(g, pin_node, node, ResistanceView::Link, rule);
            lemma_ruled_chain(
                cx.db,
                cx.rc,
                cx.corner,
                ends,
                ViaState { g, last, prev: None },
                ends.high(),
                rule,
            );
        }
    } else {
        if let Ok(v) = cuts::average_cuts(cx.db, cx.rc, cx.corner) {
            lemma_ruled_resistor(g, node, pin_node, ResistanceView::AverageCut(v), rule);
        }
    }
}

proof fn lemma_ruled_pins(
    cx: CtxView,
    a: Net,
    b: Net,
    pins: Seq<PinLoc>,
    x: i32,
    y: i32,
    st: BuildState,
    node: Node,
    rule: Option<(i32, i32)>,
)
    requires
        same_but_rule(a, b),
    ensures
        steiner::pins_connected(cx, b, pins, x, y, state_ruled(st, rule), node) == outcome_ruled(
            steiner::pins_connected(cx, a, pins, x, y, st, node),
            rule,
        ),
    decreases pins.len(),
{
    if pins.len() > 0 {
        lemma_ruled_pins(cx, a, b, pins.drop_last(), x, y, st, node, rule);
        if let Ok(before) = steiner::pins_connected(cx, a, pins.drop_last(), x, y, st, node) {
            let pin = pins.last();
            assert(placement::key_of(a, pin) == placement::key_of(b, pin));
            if let Ok(key) = placement::key_of(a, pin) {
                let g = before.g.with_pin(a, pin, key);
                assert(ruled(before.g, rule).with_pin(b, pin, key) == ruled(g, rule));
                lemma_ruled_joined(cx, a, b, pin, Node::Pin(key), node, g, before.last, rule);
            }
        }
    }
}

proof fn lemma_ruled_wire(
    cx: CtxView,
    old_rule: Option<(i32, i32)>,
    rule: Option<(i32, i32)>,
    g: ParasiticView,
    from: u32,
    to: u32,
    along_x: i32,
    along_y: i32,
)
    ensures
        steiner::branch_wired(
            cx,
            rule,
            ruled(g, rule),
            Node::Sub(from),
            Node::Sub(to),
            along_x,
            along_y,
        ) == ruled(
            steiner::branch_wired(
                cx,
                old_rule,
                g,
                Node::Sub(from),
                Node::Sub(to),
                along_x,
                along_y,
            ),
            rule,
        ),
{
    let (a, b) = (Node::Sub(from), Node::Sub(to));
    let v = steiner::wire_values(cx);
    let half = HalfWire { along_x, along_y, h: v.2, v: v.3 };
    let value = ResistanceView::Wire { along_x, along_y, h: v.0, v: v.1, rule: old_rule };
    lemma_ruled_resistor(g, a, b, ResistanceView::Link, rule);
    let g1 = g.with_cap(a, half);
    assert(ruled(g, rule).with_cap(a, half) == ruled(g1, rule));
    lemma_ruled_resistor(g1, a, b, value, rule);
    let g2 = g1.with_resistor(a, b, value);
    assert(ruled(g2, rule).with_cap(b, half) == ruled(g2.with_cap(b, half), rule));
}

proof fn lemma_ruled_branches(
    cx: CtxView,
    a: Net,
    b: Net,
    tree: SteinerTreeView,
    old_rule: Option<(i32, i32)>,
    rule: Option<(i32, i32)>,
    n: int,
)
    requires
        same_but_rule(a, b),
    ensures
        steiner::branches_built(cx, b, tree, rule, n) == outcome_ruled(
            steiner::branches_built(cx, a, tree, old_rule, n),
            rule,
        ),
    decreases n,
{
    if n <= 0 {
        assert(ruled(ParasiticView::empty(), rule).resistors =~= Seq::empty());
    } else {
        lemma_ruled_branches(cx, a, b, tree, old_rule, rule, n - 1);
        if let Ok(st) = steiner::branches_built(cx, a, tree, old_rule, n - 1) {
            let i = n - 1;
            let p = tree.tree.branch[i];
            let q = tree.tree.branch[p.n as int];
            let (j, k) = (steiner::id_of(i), steiner::id_of(p.n as int));
            let (from, to) = (Node::Sub(j), Node::Sub(k));
            let g = st.g.with_sub(j).with_sub(k);
            assert(ruled(st.g, rule).with_sub(j) == ruled(st.g.with_sub(j), rule));
            assert(ruled(st.g.with_sub(j), rule).with_sub(k) == ruled(g, rule));
            let along_x = steiner::apart(p.x as int, q.x as int) as i32;
            let along_y = steiner::apart(p.y as int, q.y as int) as i32;
            lemma_ruled_wire(cx, old_rule, rule, g, j, k, along_x, along_y);
            let w = steiner::branch_wired(cx, old_rule, g, from, to, along_x, along_y);
            let wired = BuildState { g: w, ..st };
            lemma_ruled_pins(cx, a, b, tree.pinlocs, p.x, p.y, wired, from, rule);
            if let Ok(half) = steiner::point_connected(cx, a, tree, i, wired, from) {
                lemma_ruled_pins(cx, a, b, tree.pinlocs, q.x, q.y, half, to, rule);
            }
        }
    }
}

/// A non-default rule scales the resistance of the wires and nothing else: two nets that differ in
/// their rule alone fail alike or have the same network but for the rule on their wires.
pub proof fn law_a_rule_scales_wires_alone(cx: CtxView, a: Net, b: Net, tree: SteinerTreeView)
    requires
        same_but_rule(a, b),
        steiner::rule_widths(cx.db, a) is Ok,
        steiner::rule_widths(cx.db, b) is Ok,
    ensures
        steiner::steiner_network(cx, b, tree) == (match steiner::steiner_network(cx, a, tree) {
            Ok(g) => Ok::<ParasiticView, Seq<char>>(
                ruled(g, steiner::rule_widths(cx.db, b)->Ok_0),
            ),
            Err(e) => Err(e),
        }),
{
    let (old_rule, rule) = (
        steiner::rule_widths(cx.db, a)->Ok_0,
        steiner::rule_widths(cx.db, b)->Ok_0,
    );
    lemma_ruled_branches(cx, a, b, tree, old_rule, rule, tree.tree.branch.len() as int);
}

} // verus!
