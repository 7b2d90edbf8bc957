//! The RC network of a net with a Steiner tree: each branch a pi model, each pin joined to the
//! point at its place.

use vstd::prelude::*;
use vstd::string::*;

use crate::db;
use crate::db::{find_named, Db, Net};
use crate::network::{
    HalfWire, NetCtx, Node, Parasitic, ParasiticView, Resistance, ResistanceView,
};
use crate::network_laws;
use crate::placement;
use crate::placement::{Branch, PinLoc, SteinerTree, SteinerTreeView};
use crate::rc;
use crate::rc::{ClkLayers, RcView, SignalLayers};
use crate::text;
use crate::text::{framed, holds};
use crate::value::Double;
use crate::cuts;
use crate::cuts::{
    compute_average_cut_resistance, get_pin_layer, insert_via_resistances, ViaEnds,
};

verus! {

/// A [`NetCtx`] with its state and its text as sequences and maps.
pub struct CtxView {
    pub db: Db,
    pub rc: RcView,
    pub tech: Seq<char>,
    pub corner: int,
    pub is_clk: bool,
}

impl<'a> View for NetCtx<'a> {
    type V = CtxView;

    open spec fn view(&self) -> CtxView {
        CtxView {
            db: *self.db,
            rc: self.rc@,
            tech: self.tech@,
            corner: self.corner as int,
            is_clk: self.is_clk,
        }
    }
}

/// The width of the first layer of a net's rule and that layer's own, where the net has a rule.
pub open spec fn rule_widths(db: Db, net: Net) -> Result<Option<(i32, i32)>, Seq<char>> {
    if net.rule@.len() == 0 {
        Ok(None)
    } else {
        match db::first_named(db.rules@, net.rule@) {
            None => Err("rule "@ + net.rule@ + " is not of the design"@),
            Some(r) => match r.layers {
                Err(e) => Err(e@),
                Ok(v) => if v@.len() == 0 {
                    Err("net "@ + net.name@ + ": an NDR with no layer rule"@)
                } else {
                    Ok(
                        Some(
                            (
                                v@[0].width,
                                match db::first_named(db.layers@, v@[0].layer@) {
                                    Some(l) => l.width,
                                    None => 0,
                                },
                            ),
                        ),
                    )
                },
            },
        }
    }
}

/// The width of the first layer of a net's rule and that layer's own, where the net has a rule: a
/// wire's resistance is divided by the first over the second.
pub fn ndr_ratio(db: &Db, net: &Net) -> (r: Result<Option<(i32, i32)>, String>)
    ensures
        text::outcome(r) == rule_widths(*db, *net),
{
    if net.rule.as_str().is_empty() {
        return Ok(None);
    }
    match find_named(&db.rules, net.rule.as_str()) {
        None => Err(framed("rule ", net.rule.as_str(), " is not of the design")),
        Some(r) => match &r.layers {
            Err(e) => Err(e.clone()),
            Ok(v) => {
                if v.len() == 0 {
                    return Err(framed("net ", net.name.as_str(), ": an NDR with no layer rule"));
                }
                let own: i32 = match find_named(&db.layers, v[0].layer.as_str()) {
                    Some(l) => l.width,
                    None => 0,
                };
                Ok(Some((v[0].width, own)))
            },
        },
    }
}

/// A network as far as it was made.
pub struct BuildState {
    pub g: ParasiticView,
    /// The names of the pins that were joined.
    pub connected: Seq<Seq<char>>,
    /// The last id that was given.
    pub last: u32,
}

/// The layers of the net's wires.
pub open spec fn wire_layers(cx: CtxView) -> Seq<i32> {
    if cx.is_clk {
        rc::resolved_list::<ClkLayers>(cx.rc.wire_rc, cx.tech)
    } else {
        rc::resolved_list::<SignalLayers>(cx.rc.wire_rc, cx.tech)
    }
}

/// A network with the pin's node joined to a point's, and the last id given: by vias where the
/// wire layers and the layer table are known, else by a mean cut.
pub open spec fn joined(
    cx: CtxView,
    net: Net,
    pin: PinLoc,
    pin_node: Node,
    node: Node,
    g: ParasiticView,
    last: u32,
) -> Result<(ParasiticView, u32), Seq<char>> {
    if wire_layers(cx).len() > 0 && cx.rc.layer_res != Map::<int, Seq<Double>>::empty() {
        match cuts::pin_layer(net, pin) {
            Err(e) => Err(e),
            Ok(p) => cuts::joined_by_vias(
                cx.db,
                cx.rc,
                cx.corner,
                ViaEnds { p: p as int, t: wire_layers(cx)[0] as int, pin_node, node },
                g,
                last,
            ),
        }
    } else {
        match cuts::average_cuts(cx.db, cx.rc, cx.corner) {
            Err(e) => Err(e),
            Ok(cuts) => Ok((g.with_resistor(node, pin_node, ResistanceView::AverageCut(cuts)), last)),
        }
    }
}

/// A pin brought into the network and joined to a point, where it was not joined before.
pub open spec fn pin_connected(
    cx: CtxView,
    net: Net,
    st: BuildState,
    node: Node,
    pin: PinLoc,
) -> Result<BuildState, Seq<char>> {
    match placement::key_of(net, pin) {
        Err(e) => Err(e),
        Ok(key) => {
            let g = st.g.with_pin(net, pin, key);
            if st.connected.contains(pin.name@) {
                Ok(BuildState { g, ..st })
            } else {
                match joined(cx, net, pin, Node::Pin(key), node, g, st.last) {
                    Err(e) => Err(e),
                    Ok(made) => Ok(
                        BuildState {
                            g: made.0,
                            connected: st.connected.push(pin.name@),
                            last: made.1,
                        },
                    ),
                }
            }
        },
    }
}

/// Those of the pins that are at a place, joined to the point there.
pub open spec fn pins_connected(
    cx: CtxView,
    net: Net,
    pins: Seq<PinLoc>,
    x: i32,
    y: i32,
    st: BuildState,
    node: Node,
) -> Result<BuildState, Seq<char>>
    decreases pins.len(),
{
    if pins.len() == 0 {
        Ok(st)
    } else {
        match pins_connected(cx, net, pins.drop_last(), x, y, st, node) {
            Err(e) => Err(e),
            Ok(before) => if pins.last().x == x && pins.last().y == y {
                pin_connected(cx, net, before, node, pins.last())
            } else {
                Ok(before)
            },
        }
    }
}

/// The pins at a point of the tree joined to it; a Steiner point has none.
pub open spec fn point_connected(
    cx: CtxView,
    net: Net,
    tree: SteinerTreeView,
    pt: int,
    st: BuildState,
    node: Node,
) -> Result<BuildState, Seq<char>> {
    if pt >= tree.tree.deg {
        Ok(st)
    } else {
        pins_connected(
            cx,
            net,
            tree.pinlocs,
            tree.tree.branch[pt].x,
            tree.tree.branch[pt].y,
            st,
            node,
        )
    }
}

/// A build's state or what is wrong.
pub open spec fn build_view(
    r: Result<(), String>,
    g: Parasitic,
    connected: Seq<String>,
    last: u32,
) -> Result<BuildState, Seq<char>> {
    match r {
        Ok(_) => Ok(BuildState { g: g@, connected: text::views(connected), last }),
        Err(e) => Err(e@),
    }
}

fn connect_pin(
    cx: &NetCtx<'_>,
    net: &Net,
    g: &mut Parasitic,
    node: Node,
    pin: &PinLoc,
    connected: &mut Vec<String>,
    last: &mut u32,
) -> (r: Result<(), String>)
    requires
        cx.rc.wf(),
        old(g).wf(),
    ensures
        final(g).wf(),
        build_view(r, *final(g), final(connected)@, *final(last)) == pin_connected(
            cx@,
            *net,
            (BuildState { g: old(g)@, connected: text::views(old(connected)@), last: *old(last) }),
            node,
            *pin,
        ),
{
    let pin_node = match g.ensure_pin(net, pin) {
        Err(e) => {
            return Err(e);
        },
        Ok(n) => n,
    };
    if holds(connected, pin.name.as_str()) {
        return Ok(());
    }
    let layers: Vec<i32> = if cx.is_clk {
        cx.rc.resolve(cx.tech, ClkLayers)
    } else {
        cx.rc.resolve(cx.tech, SignalLayers)
    };
    if layers.len() > 0 && !cx.rc.layer_res.is_empty() {
        let p: i32 = match get_pin_layer(net, pin) {
            Err(e) => {
                return Err(e);
            },
            Ok(p) => p,
        };
        match insert_via_resistances(cx, g, p, layers[0], pin_node, node, last) {
            Err(e) => {
                return Err(e);
            },
            Ok(_) => {},
        }
    } else {
        match compute_average_cut_resistance(cx) {
            Err(e) => {
                return Err(e);
            },
            Ok(cuts) => g.make_resistor(node, pin_node, Resistance::AverageCut(cuts)),
        }
    }
    connected.push(pin.name.clone());
    assert(text::views(connected@) =~= text::views(old(connected)@).push(pin.name@));
    Ok(())
}

proof fn lemma_pins_fail(
    cx: CtxView,
    net: Net,
    pins: Seq<PinLoc>,
    x: i32,
    y: i32,
    st: BuildState,
    node: Node,
    i: int,
)
    requires
        0 <= i <= pins.len(),
        pins_connected(cx, net, pins.take(i), x, y, st, node) is Err,
    ensures
        pins_connected(cx, net, pins, x, y, st, node) == pins_connected(
            cx,
            net,
            pins.take(i),
            x,
            y,
            st,
            node,
        ),
    decreases pins.len(),
{
    if i == pins.len() {
        assert(pins.take(i) =~= pins);
    } else {
        assert(pins.drop_last().take(i) =~= pins.take(i));
        lemma_pins_fail(cx, net, pins.drop_last(), x, y, st, node, i);
    }
}

/// Joins the pins at a point of the tree to it, each once.
pub fn parasitic_node_connect_pins(
    cx: &NetCtx<'_>,
    net: &Net,
    g: &mut Parasitic,
    node: Node,
    tree: &SteinerTree,
    pt: usize,
    connected: &mut Vec<String>,
    last: &mut u32,
) -> (r: Result<(), String>)
    requires
        cx.rc.wf(),
        old(g).wf(),
        pt < tree.tree.deg ==> pt < tree.tree.branch@.len(),
    ensures
        final(g).wf(),
        build_view(r, *final(g), final(connected)@, *final(last)) == point_connected(
            cx@,
            *net,
            tree@,
            pt as int,
            (BuildState { g: old(g)@, connected: text::views(old(connected)@), last: *old(last) }),
            node,
        ),
{
    if pt >= tree.tree.deg {
        return Ok(());
    }
    let (x, y): (i32, i32) = (tree.tree.branch[pt].x, tree.tree.branch[pt].y);
    let ghost st = BuildState { g: g@, connected: text::views(connected@), last: *last };
    let n: usize = tree.pinlocs.len();
    let mut i: usize = 0;
    while i < n
        invariant
            cx.rc.wf(),
            g.wf(),
            n == tree.pinlocs@.len(),
            i <= n,
            pt < tree.tree.deg,
            x == tree.tree.branch@[pt as int].x,
            y == tree.tree.branch@[pt as int].y,
            st == (BuildState {
                g: old(g)@,
                connected: text::views(old(connected)@),
                last: *old(last),
            }),
            pins_connected(cx@, *net, tree.pinlocs@.take(i as int), x, y, st, node) == Ok::<
                BuildState,
                Seq<char>,
            >(BuildState { g: g@, connected: text::views(connected@), last: *last }),
        decreases n - i,
    {
        let pin = &tree.pinlocs[i];
        assert(tree.pinlocs@.take(i + 1).drop_last() =~= tree.pinlocs@.take(i as int));
        if pin.x == x && pin.y == y {
            match connect_pin(cx, net, g, node, pin, connected, last) {
                Err(e) => {
                    proof {
                        lemma_pins_fail(cx@, *net, tree.pinlocs@, x, y, st, node, i + 1);
                    }
                    return Err(e);
                },
                Ok(_) => {},
            }
        }
        i = i + 1;
    }
    assert(tree.pinlocs@.take(n as int) =~= tree.pinlocs@);
    Ok(())
}

/// How far apart two numbers are.
pub open spec fn apart(a: int, b: int) -> int {
    if a < b {
        b - a
    } else {
        a - b
    }
}

/// The id of a point.
pub open spec fn id_of(i: int) -> u32 {
    (i % 0x1_0000_0000) as u32
}

/// Every branch goes to a point of the tree, and no wire is longer than a machine number holds.
pub open spec fn sound(tree: SteinerTreeView) -> bool {
    forall|i: int|
        0 <= i < tree.tree.branch.len() ==> branch_sound(tree.tree.branch, #[trigger] tree.tree.branch[i])
}

/// The branch goes to one of these points, and not too far.
pub open spec fn branch_sound(s: Seq<Branch>, b: Branch) -> bool {
    b.n < s.len() && apart(b.x as int, s[b.n as int].x as int) + apart(
        b.y as int,
        s[b.n as int].y as int,
    ) <= i32::MAX
}

fn distance(a: i32, b: i32) -> (r: i64)
    ensures
        r == apart(a as int, b as int),
{
    if a < b {
        b as i64 - a as i64
    } else {
        a as i64 - b as i64
    }
}

/// Whether every branch goes to a point of the tree, and no wire is longer than a machine number
/// holds: such a tree has a network.
pub fn is_sound(tree: &SteinerTree) -> (r: bool)
    ensures
        r == sound(tree@),
{
    let v = &tree.tree.branch;
    let n: usize = v.len();
    let mut i: usize = 0;
    while i < n
        invariant
            v@ == tree@.tree.branch,
            n == v@.len(),
            i <= n,
            forall|k: int| 0 <= k < i ==> branch_sound(v@, #[trigger] v@[k]),
        decreases n - i,
    {
        let b = v[i];
        if b.n >= n || distance(b.x, v[b.n].x) + distance(b.y, v[b.n].y) > 0x7fff_ffff {
            assert(!branch_sound(v@, tree@.tree.branch[i as int]));
            return false;
        }
        i = i + 1;
    }
    true
}

/// The wire values of the net: resistance and then capacitance, horizontal and then vertical.
pub open spec fn wire_values(cx: CtxView) -> (Double, Double, Double, Double) {
    let v = rc::resolved_values(cx.rc.wire_rc, cx.tech, cx.corner);
    if cx.is_clk {
        (v[4], v[5], v[6], v[7])
    } else {
        (v[0], v[1], v[2], v[3])
    }
}

/// The network with a branch between two points: a link where they are at one place, else the
/// wire's resistance between them and half its capacitance at each.
pub open spec fn branch_wired(
    cx: CtxView,
    rule: Option<(i32, i32)>,
    g: ParasiticView,
    from: Node,
    to: Node,
    along_x: i32,
    along_y: i32,
) -> ParasiticView {
    if along_x == 0 && along_y == 0 {
        g.with_resistor(from, to, ResistanceView::Link)
    } else {
        let v = wire_values(cx);
        let half = HalfWire { along_x, along_y, h: v.2, v: v.3 };
        g.with_cap(from, half).with_resistor(
            from,
            to,
            ResistanceView::Wire { along_x, along_y, h: v.0, v: v.1, rule },
        ).with_cap(to, half)
    }
}

/// The network with branch `i` of the tree and the pins at both its ends.
pub open spec fn branch_built(
    cx: CtxView,
    net: Net,
    tree: SteinerTreeView,
    rule: Option<(i32, i32)>,
    st: BuildState,
    i: int,
) -> Result<BuildState, Seq<char>> {
    let a = tree.tree.branch[i];
    let b = tree.tree.branch[a.n as int];
    let (from, to) = (Node::Sub(id_of(i)), Node::Sub(id_of(a.n as int)));
    let g = branch_wired(
        cx,
        rule,
        st.g.with_sub(id_of(i)).with_sub(id_of(a.n as int)),
        from,
        to,
        apart(a.x as int, b.x as int) as i32,
        apart(a.y as int, b.y as int) as i32,
    );
    match point_connected(cx, net, tree, i, BuildState { g, ..st }, from) {
        Err(e) => Err(e),
        Ok(half) => point_connected(cx, net, tree, a.n as int, half, to),
    }
}

/// The network with the first `n` branches of the tree.
pub open spec fn branches_built(
    cx: CtxView,
    net: Net,
    tree: SteinerTreeView,
    rule: Option<(i32, i32)>,
    n: int,
) -> Result<BuildState, Seq<char>>
    decreases n,
{
    if n <= 0 {
        Ok(
            BuildState {
                g: ParasiticView::empty(),
                connected: Seq::empty(),
                last: id_of(tree.tree.branch.len() - 1),
            },
        )
    } else {
        match branches_built(cx, net, tree, rule, n - 1) {
            Err(e) => Err(e),
            Ok(st) => branch_built(cx, net, tree, rule, st, n - 1),
        }
    }
}

/// The network of a net with that tree, or what is wrong.
pub open spec fn steiner_network(cx: CtxView, net: Net, tree: SteinerTreeView) -> Result<
    ParasiticView,
    Seq<char>,
> {
    match rule_widths(cx.db, net) {
        Err(e) => Err(e),
        Ok(rule) => match branches_built(cx, net, tree, rule, tree.tree.branch.len() as int) {
            Err(e) => Err(e),
            Ok(st) => Ok(st.g),
        },
    }
}

/// A network or what is wrong.
pub open spec fn network_view(r: Result<Parasitic, String>) -> Result<ParasiticView, Seq<char>> {
    match r {
        Ok(g) => Ok(g@),
        Err(e) => Err(e@),
    }
}

proof fn lemma_branches_fail(
    cx: CtxView,
    net: Net,
    tree: SteinerTreeView,
    rule: Option<(i32, i32)>,
    n: int,
    m: int,
)
    requires
        0 <= n <= m,
        branches_built(cx, net, tree, rule, n) is Err,
    ensures
        branches_built(cx, net, tree, rule, m) == branches_built(cx, net, tree, rule, n),
    decreases m - n,
{
    if n < m {
        lemma_branches_fail(cx, net, tree, rule, n, m - 1);
    }
}

fn point_id(i: usize) -> (r: u32)
    ensures
        r == id_of(i as int),
{
    (i as u64 % 0x1_0000_0000) as u32
}

fn wire_branch(
    cx: &NetCtx<'_>,
    rule: Option<(i32, i32)>,
    g: &mut Parasitic,
    from: Node,
    to: Node,
    along_x: i32,
    along_y: i32,
)
    requires
        cx.rc.wf(),
        old(g).wf(),
        old(g)@.holds(from),
        old(g)@.holds(to),
    ensures
        final(g).wf(),
        final(g)@ == branch_wired(cx@, rule, old(g)@, from, to, along_x, along_y),
{
    if along_x == 0 && along_y == 0 {
        g.make_resistor(from, to, Resistance::Link);
    } else {
        let v = cx.rc.resolved(cx.tech, cx.corner);
        let (h_r, v_r, h_c, v_c) = if cx.is_clk {
            (v[4], v[5], v[6], v[7])
        } else {
            (v[0], v[1], v[2], v[3])
        };
        let half = HalfWire { along_x, along_y, h: h_c, v: v_c };
        g.incr_cap(from, half);
        g.make_resistor(from, to, Resistance::Wire { along_x, along_y, h: h_r, v: v_r, rule });
        g.incr_cap(to, half);
    }
}

/// The network of a net with that tree: per branch a pi model, or a link where it has no length;
/// and the pins at each end joined to it, each once.
pub fn make_steiner_parasitic(cx: &NetCtx<'_>, net: &Net, tree: &SteinerTree) -> (r: Result<
    Parasitic,
    String,
>)
    requires
        cx.rc.wf(),
        sound(tree@),
    ensures
        r matches Ok(g) ==> g.wf() && g@.closed() && g@.bare_pins(),
        network_view(r) == steiner_network(cx@, *net, tree@),
{
    let mut g = Parasitic::new();
    let mut connected: Vec<String> = Vec::new();
    let br = &tree.tree.branch;
    let n: usize = br.len();
    let mut last: u32 = if n == 0 {
        u32::MAX
    } else {
        point_id(n - 1)
    };
    let rule = match ndr_ratio(cx.db, net) {
        Err(e) => {
            return Err(e);
        },
        Ok(rule) => rule,
    };
    assert(text::views(connected@) =~= Seq::empty());
    let mut i: usize = 0;
    while i < n
        invariant
            cx.rc.wf(),
            sound(tree@),
            g.wf(),
            br@ == tree@.tree.branch,
            n == br@.len(),
            i <= n,
            rule_widths(*cx.db, *net) == Ok::<Option<(i32, i32)>, Seq<char>>(rule),
            branches_built(cx@, *net, tree@, rule, i as int) == Ok::<BuildState, Seq<char>>(
                BuildState { g: g@, connected: text::views(connected@), last },
            ),
        decreases n - i,
    {
        let a = br[i];
        assert(branch_sound(br@, tree@.tree.branch[i as int]));
        let b = br[a.n];
        let along_x: i32 = distance(a.x, b.x) as i32;
        let along_y: i32 = distance(a.y, b.y) as i32;
        let from = g.ensure_sub(point_id(i));
        let to = g.ensure_sub(point_id(a.n));
        wire_branch(cx, rule, &mut g, from, to, along_x, along_y);
        let ghost there = branches_built(cx@, *net, tree@, rule, i + 1);
        match parasitic_node_connect_pins(cx, net, &mut g, from, tree, i, &mut connected, &mut last) {
            Err(e) => {
                proof {
                    lemma_branches_fail(cx@, *net, tree@, rule, i + 1, n as int);
                }
                return Err(e);
            },
            Ok(_) => {},
        }
        match parasitic_node_connect_pins(cx, net, &mut g, to, tree, a.n, &mut connected, &mut last) {
            Err(e) => {
                proof {
                    lemma_branches_fail(cx@, *net, tree@, rule, i + 1, n as int);
                }
                return Err(e);
            },
            Ok(_) => {},
        }
        i = i + 1;
    }
    proof {
        network_laws::law_network_is_regular(cx@, *net, tree@);
    }
    Ok(g)
}

/// The network of a pad net: its first two pins, and a link from the one to the other.
pub open spec fn pad_network(net: Net, pins: Seq<PinLoc>) -> Result<ParasiticView, Seq<char>> {
    match placement::key_of(net, pins[0]) {
        Err(e) => Err(e),
        Ok(a) => match placement::key_of(net, pins[1]) {
            Err(e) => Err(e),
            Ok(b) => Ok(
                ParasiticView::empty().with_pin(net, pins[0], a).with_pin(
                    net,
                    pins[1],
                    b,
                ).with_resistor(Node::Pin(a), Node::Pin(b), ResistanceView::Link),
            ),
        },
    }
}

/// The network of a pad net: its first two pins, and a link from the one to the other.
pub fn make_pad_parasitic(net: &Net, pins: &Vec<PinLoc>) -> (r: Result<Parasitic, String>)
    requires
        pins@.len() >= 2,
    ensures
        r matches Ok(g) ==> g.wf() && g@.closed() && g@.bare_pins(),
        network_view(r) == pad_network(*net, pins@),
{
    let mut g = Parasitic::new();
    let a = match g.ensure_pin(net, &pins[0]) {
        Err(e) => {
            return Err(e);
        },
        Ok(a) => a,
    };
    let b = match g.ensure_pin(net, &pins[1]) {
        Err(e) => {
            return Err(e);
        },
        Ok(b) => b,
    };
    g.make_resistor(a, b, Resistance::Link);
    proof {
        network_laws::law_pad_network_is_a_link(*net, pins@);
    }
    Ok(g)
}

} // verus!
