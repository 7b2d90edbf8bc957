//! How pins are joined to a tree: which pins, at which points, by which cuts.

use vstd::prelude::*;

use crate::cuts;
use crate::cuts::{ViaEnds, ViaState};
use crate::db;
use crate::db::{Db, Layer, Net};
use crate::network;
use crate::network::{Node, ParasiticView, ResistanceView, ResistorView};
use crate::network_laws;
use crate::placement;
use crate::placement::{PinLoc, SteinerTreeView};
use crate::rc;
use crate::rc::RcView;
use crate::steiner;
use crate::steiner::{BuildState, CtxView};
use crate::value::Double;
use crate::wiring_laws;

verus! {

/// The numbers from `low` up to, and without, `n` that are cut layers', in ascending order.
pub open spec fn cut_layers(db: Db, low: int, n: int) -> Seq<int>
    decreases n - low,
{
    if n <= low {
        Seq::empty()
    } else if cuts::cut_at(db, n - 1) == Ok::<bool, Seq<char>>(true) {
        cut_layers(db, low, n - 1).push(n - 1)
    } else {
        cut_layers(db, low, n - 1)
    }
}

/// The resistors are the cuts of these layers one upon the other: the first is right above layer
/// `low` and leads from `bottom`, each other one from where the one before it leads; the one right
/// below layer `high` leads to `top`, and each other one to a node of its own.
pub open spec fn stacked(
    s: Seq<ResistorView>,
    layers: Seq<int>,
    low: int,
    high: int,
    bottom: Node,
    top: Node,
    rc: RcView,
    corner: int,
) -> bool {
    &&& s.len() == layers.len()
    &&& s.len() > 0 ==> s[0].from == bottom && layers[0] == low + 1
    &&& forall|k: int|
        0 <= k < s.len() ==> (#[trigger] s[k]).value == ResistanceView::Cut(
            rc::layer_value(rc.layer_res, layers[k], corner),
        )
    &&& forall|k: int| 0 < k < s.len() ==> (#[trigger] s[k]).from == s[k - 1].to
    &&& forall|k: int|
        0 <= k < s.len() ==> if layers[k] + 1 == high {
            (#[trigger] s[k]).to == top
        } else {
            s[k].to is Sub
        }
}

proof fn lemma_cut_layers(db: Db, low: int, n: int)
    ensures
        forall|k: int|
            0 <= k < cut_layers(db, low, n).len() ==> low <= #[trigger] cut_layers(db, low, n)[k] < n,
    decreases n - low,
{
    if n > low {
        lemma_cut_layers(db, low, n - 1);
        let before = cut_layers(db, low, n - 1);
        assert forall|k: int| 0 <= k < cut_layers(db, low, n).len() implies low
            <= #[trigger] cut_layers(db, low, n)[k] < n by {
            if k < before.len() {
                assert(low <= before[k] < n - 1);
            }
        }
    }
}

proof fn lemma_chain_stacked(db: Db, rc: RcView, corner: int, ends: ViaEnds, st: ViaState, l: int)
    requires
        st.prev is None,
        ends.low() <= l <= ends.high(),
    ensures
        cuts::via_chain(db, rc, corner, ends, st, l) matches Ok(end) ==> ({
            let n = st.g.resistors.len() as int;
            let layers = cut_layers(db, ends.low(), l);
            let made = end.g.resistors.skip(n);
            &&& n <= end.g.resistors.len()
            &&& end.g.resistors.take(n) == st.g.resistors
            &&& end.g.pin_nodes == st.g.pin_nodes
            &&& stacked(
                made,
                layers,
                ends.low(),
                ends.high(),
                ends.bottom(),
                ends.top(),
                rc,
                corner,
            )
            &&& layers.len() == 0 ==> end.prev is None
            &&& layers.len() > 0 && layers.last() + 1 != ends.high() ==> end.prev == Some(
                made.last().to,
            )
        }),
    decreases l - ends.low(),
{
    let n = st.g.resistors.len() as int;
    if l <= ends.low() {
        assert(st.g.resistors.take(n) =~= st.g.resistors);
        assert(st.g.resistors.skip(n) =~= Seq::empty());
    } else {
        lemma_chain_stacked(db, rc, corner, ends, st, l - 1);
        lemma_cut_layers(db, ends.low(), l - 1);
        if let Ok(end) = cuts::via_chain(db, rc, corner, ends, st, l) {
            let before = cuts::via_chain(db, rc, corner, ends, st, l - 1)->Ok_0;
            let layers = cut_layers(db, ends.low(), l - 1);
            let more = cut_layers(db, ends.low(), l);
            let made = before.g.resistors.skip(n);
            if cuts::cut_at(db, l - 1) == Ok::<bool, Seq<char>>(true) {
                let s = end.g.resistors.skip(n);
                assert(end.g.resistors.drop_last() =~= before.g.resistors);
                assert(end.g.resistors.take(n) =~= before.g.resistors.take(n));
                assert(s =~= made.push(end.g.resistors.last()));
                if layers.len() > 0 {
                    assert(layers[layers.len() - 1] < l - 1);
                    assert(layers.last() + 1 != ends.high());
                    assert(layers[0] == ends.low() + 1);
                    assert(l - 2 != ends.low());
                }
                assert forall|k: int| 0 <= k < s.len() implies (#[trigger] s[k]).value
                    == ResistanceView::Cut(rc::layer_value(rc.layer_res, more[k], corner)) by {
                    if k < made.len() {
                        assert(s[k] == made[k]);
                    }
                }
                assert forall|k: int| 0 < k < s.len() implies (#[trigger] s[k]).from
                    == s[k - 1].to by {
                    if k < made.len() {
                        assert(s[k] == made[k]);
                        assert(s[k - 1] == made[k - 1]);
                    }
                }
                assert forall|k: int| 0 <= k < s.len() implies if more[k] + 1 == ends.high() {
                    (#[trigger] s[k]).to == ends.top()
                } else {
                    s[k].to is Sub
                } by {
                    if k < made.len() {
                        assert(s[k] == made[k]);
                    }
                }
            }
        }
    }
}

/// The resistors join a pin to a point: where no layer of the net's wires is known, or no layer has
/// a resistance, one mean cut from the point to the pin; where the pin is on the first of the net's
/// wire layers, one link from the pin to the point; where the two layers are two apart, one cut from
/// the pin to the point, of the layer between them; else the cuts of every cut layer between, from
/// the lower of the two up. Each cut has the resistance that its layer has in the net's corner.
pub open spec fn is_joint(
    made: Seq<ResistorView>,
    cx: CtxView,
    net: Net,
    pin: PinLoc,
    node: Node,
    layers: Seq<i32>,
) -> bool {
    let key = placement::key_of(net, pin)->Ok_0;
    let p = cuts::pin_layer(net, pin)->Ok_0 as int;
    let t = layers[0] as int;
    &&& placement::key_of(net, pin) is Ok
    &&& if layers.len() == 0 || cx.rc.layer_res == Map::<int, Seq<Double>>::empty() {
        &&& cuts::average_cuts(cx.db, cx.rc, cx.corner) is Ok
        &&& made == seq![
            ResistorView {
                from: node,
                to: Node::Pin(key),
                value: ResistanceView::AverageCut(
                    cuts::average_cuts(cx.db, cx.rc, cx.corner)->Ok_0,
                ),
            },
        ]
    } else {
        &&& cuts::pin_layer(net, pin) is Ok
        &&& if p == t {
            made == seq![
                ResistorView { from: Node::Pin(key), to: node, value: ResistanceView::Link },
            ]
        } else if p - t == 2 || t - p == 2 {
            made == seq![
                ResistorView {
                    from: Node::Pin(key),
                    to: node,
                    value: ResistanceView::Cut(
                        rc::layer_value(cx.rc.layer_res, (p + t) / 2, cx.corner),
                    ),
                },
            ]
        } else if p < t {
            stacked(
                made,
                cut_layers(cx.db, p, t),
                p,
                t,
                Node::Pin(key),
                node,
                cx.rc,
                cx.corner,
            )
        } else {
            stacked(
                made,
                cut_layers(cx.db, t, p),
                t,
                p,
                node,
                Node::Pin(key),
                cx.rc,
                cx.corner,
            )
        }
    }
}

/// A pin that is not joined yet is joined to a point by one joint, behind the resistors that are
/// there, with the layers of clocks for a clock and those of signals for any other net.
pub proof fn law_how_a_pin_is_joined(
    cx: CtxView,
    net: Net,
    st: BuildState,
    node: Node,
    pin: PinLoc,
    layers: Seq<i32>,
)
    requires
        !st.connected.contains(pin.name@),
        cx.is_clk ==> layers == rc::resolved_list::<rc::ClkLayers>(cx.rc.wire_rc, cx.tech),
        !cx.is_clk ==> layers == rc::resolved_list::<rc::SignalLayers>(cx.rc.wire_rc, cx.tech),
        steiner::pin_connected(cx, net, st, node, pin) is Ok,
    ensures
        ({
            let end = steiner::pin_connected(cx, net, st, node, pin)->Ok_0;
            let key = placement::key_of(net, pin)->Ok_0;
            let n = st.g.resistors.len() as int;
            &&& placement::key_of(net, pin) is Ok
            &&& end.connected == st.connected.push(pin.name@)
            &&& end.g.pin_nodes.contains_key(key as int)
            &&& n <= end.g.resistors.len()
            &&& end.g.resistors.take(n) == st.g.resistors
            &&& is_joint(end.g.resistors.skip(n), cx, net, pin, node, layers)
        }),
{
    let end = steiner::pin_connected(cx, net, st, node, pin)->Ok_0;
    let key = placement::key_of(net, pin)->Ok_0;
    let n = st.g.resistors.len() as int;
    let g = st.g.with_pin(net, pin, key);
    let made = end.g.resistors.skip(n);
    assert(layers == steiner::wire_layers(cx));
    if layers.len() > 0 && cx.rc.layer_res != Map::<int, Seq<Double>>::empty() {
        let p = cuts::pin_layer(net, pin)->Ok_0;
        let ends = ViaEnds { p: p as int, t: layers[0] as int, pin_node: Node::Pin(key), node };
        if ends.high() - ends.low() != 2 && ends.p != ends.t {
            lemma_chain_stacked(
                cx.db,
                cx.rc,
                cx.corner,
                ends,
                ViaState { g, last: st.last, prev: None },
                ends.high(),
            );
        } else {
            assert(end.g.resistors.take(n) =~= st.g.resistors);
            assert(made =~= seq![end.g.resistors.last()]);
        }
    } else {
        assert(end.g.resistors.take(n) =~= st.g.resistors);
        assert(made =~= seq![end.g.resistors.last()]);
    }
}

/// The pin is at that place and has that name.
pub open spec fn named_there(pin: PinLoc, x: i32, y: i32, name: Seq<char>) -> bool {
    pin.x == x && pin.y == y && pin.name@ == name
}

/// The pins that are joined at a place are those that are there: both their places along x and
/// along y are the point's, and what was joined before stays joined.
pub proof fn law_pins_are_joined_at_their_place(
    cx: CtxView,
    net: Net,
    pins: Seq<PinLoc>,
    x: i32,
    y: i32,
    st: BuildState,
    node: Node,
    name: Seq<char>,
)
    requires
        steiner::pins_connected(cx, net, pins, x, y, st, node) is Ok,
    ensures
        steiner::pins_connected(cx, net, pins, x, y, st, node)->Ok_0.connected.contains(name) <==> (
        st.connected.contains(name) || exists|j: int|
            0 <= j < pins.len() && named_there(#[trigger] pins[j], x, y, name)),
    decreases pins.len(),
{
    if pins.len() > 0 {
        let fewer = pins.drop_last();
        let pin = pins.last();
        law_pins_are_joined_at_their_place(cx, net, fewer, x, y, st, node, name);
        let before = steiner::pins_connected(cx, net, fewer, x, y, st, node)->Ok_0;
        let end = steiner::pins_connected(cx, net, pins, x, y, st, node)->Ok_0;
        if exists|j: int| 0 <= j < fewer.len() && named_there(#[trigger] fewer[j], x, y, name) {
            let j = choose|j: int|
                0 <= j < fewer.len() && named_there(#[trigger] fewer[j], x, y, name);
            assert(pins[j] == fewer[j]);
        }
        if exists|j: int| 0 <= j < pins.len() && named_there(#[trigger] pins[j], x, y, name) {
            let j = choose|j: int|
                0 <= j < pins.len() && named_there(#[trigger] pins[j], x, y, name);
            if j < fewer.len() {
                assert(fewer[j] == pins[j]);
            }
        }
        if pin.x == x && pin.y == y {
            assert(named_there(pins[pins.len() - 1], x, y, pin.name@));
            if !before.connected.contains(pin.name@) {
                let more = before.connected.push(pin.name@);
                assert(end.connected == more);
                assert(more[more.len() - 1] == pin.name@);
                if before.connected.contains(name) {
                    let k = choose|k: int|
                        0 <= k < before.connected.len() && before.connected[k] == name;
                    assert(more[k] == name);
                }
                if more.contains(name) && name != pin.name@ {
                    let k = choose|k: int| 0 <= k < more.len() && more[k] == name;
                    assert(before.connected[k] == name);
                }
            }
        }
    }
}

proof fn lemma_lowest(s: Seq<i32>)
    ensures
        cuts::lowest(s) is Some <==> s.len() > 0,
        cuts::lowest(s) matches Some(m) ==> s.contains(m) && forall|k: int|
            0 <= k < s.len() ==> m <= #[trigger] s[k],
    decreases s.len(),
{
    if s.len() > 0 {
        let fewer = s.drop_last();
        lemma_lowest(fewer);
        assert(s[s.len() - 1] == s.last());
        if let Some(m) = cuts::lowest(fewer) {
            let k = choose|k: int| 0 <= k < fewer.len() && fewer[k] == m;
            assert(s[k] == m);
            assert forall|j: int| 0 <= j < s.len() implies cuts::lowest(s)->Some_0
                <= #[trigger] s[j] by {
                if j < fewer.len() {
                    assert(m <= fewer[j]);
                }
            }
        }
    }
}

/// A port's layer is that of the first shape of its first pin; an instance terminal's is the lowest
/// that its geometry has. Each is known by the first terminal of the pin's name.
pub proof fn law_layer_of_a_pin(net: Net, pin: PinLoc, i: int)
    requires
        pin.is_port ==> db::stands_first(net.bterms@, pin.name@, i),
        !pin.is_port ==> db::stands_first(net.iterms@, pin.name@, i),
    ensures
        pin.is_port ==> (match net.bterms@[i].layers {
            Err(e) => cuts::pin_layer(net, pin) == Err::<i32, Seq<char>>(e@),
            Ok(v) => if v@.len() > 0 {
                cuts::pin_layer(net, pin) == Ok::<i32, Seq<char>>(v@[0])
            } else {
                cuts::pin_layer(net, pin) is Err
            },
        }),
        !pin.is_port ==> (cuts::pin_layer(net, pin) is Ok <==> net.iterms@[i].layers@.len() > 0),
        !pin.is_port ==> (cuts::pin_layer(net, pin) matches Ok(l) ==> net.iterms@[i].layers@.contains(l)
            && forall|k: int|
            0 <= k < net.iterms@[i].layers@.len() ==> l <= #[trigger] net.iterms@[i].layers@[k]),
{
    db::law_first_named(net.bterms@, pin.name@);
    db::law_first_named(net.iterms@, pin.name@);
    if !pin.is_port {
        lemma_lowest(net.iterms@[i].layers@);
    }
}

/// The layer at place `i` is the first of its number.
pub open spec fn first_of_number(s: Seq<Layer>, i: int) -> bool {
    0 <= i < s.len() && forall|k: int| 0 <= k < i ==> (#[trigger] s[k]).number != s[i].number
}

proof fn lemma_numbered(s: Seq<Layer>, i: int)
    requires
        first_of_number(s, i),
    ensures
        cuts::numbered(s, s[i].number as int) == Some(s[i]),
    decreases s.len(),
{
    if i > 0 {
        let rest = s.skip(1);
        assert forall|k: int| 0 <= k < i - 1 implies (#[trigger] rest[k]).number != rest[i - 1].number by {
            assert(rest[k] == s[k + 1]);
        }
        assert(rest[i - 1] == s[i]);
        assert(s[0].number != s[i].number);
        lemma_numbered(rest, i - 1);
    }
}

/// A layer number is a cut layer's exactly where the layer that has it is of type `CUT`; where that
/// type is not known, neither is this.
pub proof fn law_cut_layers_are_of_type_cut(db: Db, i: int)
    requires
        first_of_number(db.layers@, i),
        db::stands_first(db.layers@, db.layers@[i].name@, i),
    ensures
        cuts::cut_at(db, db.layers@[i].number as int) == match db.layers@[i].kind {
            Ok(kind) => Ok::<bool, Seq<char>>(kind@ == "CUT"@),
            Err(e) => Err(e@),
        },
        cuts::name_at(db, db.layers@[i].number as int) == db.layers@[i].name@,
{
    lemma_numbered(db.layers@, i);
    db::law_first_named(db.layers@, db.layers@[i].name@);
}

proof fn lemma_not_numbered(s: Seq<Layer>, n: int)
    requires
        forall|k: int| 0 <= k < s.len() ==> (#[trigger] s[k]).number != n,
    ensures
        cuts::numbered(s, n) is None,
    decreases s.len(),
{
    if s.len() > 0 {
        let rest = s.skip(1);
        assert(s[0].number != n);
        assert forall|k: int| 0 <= k < rest.len() implies (#[trigger] rest[k]).number != n by {
            assert(rest[k] == s[k + 1]);
        }
        lemma_not_numbered(rest, n);
    }
}

/// A number that no layer has goes by what is said of a layer without a name, where every layer has
/// one; it has no name.
pub proof fn law_numbers_without_a_layer(db: Db, n: int)
    requires
        forall|k: int| 0 <= k < db.layers@.len() ==> (#[trigger] db.layers@[k]).number != n,
        forall|k: int| 0 <= k < db.layers@.len() ==> (#[trigger] db.layers@[k]).name@.len() > 0,
    ensures
        cuts::name_at(db, n).len() == 0,
        cuts::cut_at(db, n) == match db.unnamed_kind {
            Ok(kind) => Ok::<bool, Seq<char>>(kind@ == "CUT"@),
            Err(e) => Err(e@),
        },
{
    lemma_not_numbered(db.layers@, n);
    db::law_first_named(db.layers@, Seq::empty());
    if db::first_named(db.layers@, Seq::empty()) is Some {
        let i = choose|i: int| #[trigger] db::stands_first(db.layers@, Seq::empty(), i);
        assert(db.layers@[i].name@.len() > 0);
    }
}

/// The layer at place `i` is the first of its routing level.
pub open spec fn first_of_level(s: Seq<Layer>, level: int, i: int) -> bool {
    &&& 0 <= i < s.len()
    &&& s[i].routing_level == level
    &&& forall|k: int| 0 <= k < i ==> (#[trigger] s[k]).routing_level != level
}

proof fn lemma_at_level(s: Seq<Layer>, level: int) -> (i: int)
    requires
        cuts::at_level(s, level) is Some,
    ensures
        first_of_level(s, level, i),
        cuts::at_level(s, level) == Some(s[i]),
    decreases s.len(),
{
    if s[0].routing_level == level {
        0
    } else {
        let rest = s.skip(1);
        let j = lemma_at_level(rest, level);
        assert forall|k: int| 0 <= k < j + 1 implies (#[trigger] s[k]).routing_level != level by {
            if k > 0 {
                assert(rest[k - 1].routing_level != level);
            }
        }
        assert(rest[j] == s[j + 1]);
        j + 1
    }
}

/// The number is that of a cut layer with a name.
pub open spec fn named_cut(db: Db, n: int) -> bool {
    cuts::name_at(db, n).len() > 0 && cuts::cut_at(db, n) == Ok::<bool, Seq<char>>(true)
}

/// The values are the resistances, in the corner, of the layers `numbers`.
pub open spec fn are_resistances(v: Seq<Double>, numbers: Seq<int>, rc: RcView, corner: int) -> bool {
    &&& v.len() == numbers.len()
    &&& forall|i: int|
        0 <= i < v.len() ==> #[trigger] v[i] == rc::layer_value(rc.layer_res, numbers[i], corner)
}

/// The numbers are those, in ascending order and each once, of the named cut layers from `low` up
/// to `high`, both of them counted.
pub open spec fn all_cuts(db: Db, numbers: Seq<int>, low: int, high: int) -> bool {
    &&& forall|i: int, j: int|
        0 <= i < j < numbers.len() ==> #[trigger] numbers[i] < #[trigger] numbers[j]
    &&& forall|i: int|
        0 <= i < numbers.len() ==> low <= #[trigger] numbers[i] <= high && named_cut(db, numbers[i])
    &&& forall|n: int|
        low <= n <= high && #[trigger] named_cut(db, n) ==> numbers.contains(n)
}

proof fn lemma_cuts_below(db: Db, rc: RcView, corner: int, low: int, n: int) -> (numbers: Seq<int>)
    requires
        cuts::cuts_below(db, rc, corner, low, n) is Ok,
    ensures
        all_cuts(db, numbers, low, n - 1),
        are_resistances(cuts::cuts_below(db, rc, corner, low, n)->Ok_0, numbers, rc, corner),
    decreases n - low,
{
    if n <= low {
        Seq::empty()
    } else {
        let before = lemma_cuts_below(db, rc, corner, low, n - 1);
        if named_cut(db, n - 1) {
            let all = before.push(n - 1);
            assert forall|k: int| low <= k <= n - 1 && #[trigger] named_cut(db, k) implies all.contains(
                k,
            ) by {
                if k < n - 1 {
                    assert(before.contains(k));
                    let i = choose|i: int| 0 <= i < before.len() && before[i] == k;
                    assert(all[i] == k);
                } else {
                    assert(all[before.len() as int] == k);
                }
            }
            all
        } else {
            before
        }
    }
}

/// A mean cut is the mean of the resistances, in the net's corner, of every named cut layer from
/// the lowest layer that the block is routed on up to the highest, both of them counted and each
/// once; of nothing where no layer has a resistance.
pub proof fn law_mean_cut_is_of_the_routed_layers(db: Db, rc: RcView, corner: int) -> (found: (
    Seq<int>,
    int,
    int,
))
    requires
        cuts::average_cuts(db, rc, corner) is Ok,
    ensures
        rc.layer_res == Map::<int, Seq<Double>>::empty() ==> cuts::average_cuts(
            db,
            rc,
            corner,
        )->Ok_0.len() == 0,
        rc.layer_res != Map::<int, Seq<Double>>::empty() ==> {
            &&& first_of_level(db.layers@, db.min_routing_layer as int, found.1)
            &&& first_of_level(db.layers@, cuts::top_level(db), found.2)
            &&& all_cuts(
                db,
                found.0,
                db.layers@[found.1].number as int,
                db.layers@[found.2].number as int,
            )
            &&& are_resistances(cuts::average_cuts(db, rc, corner)->Ok_0, found.0, rc, corner)
        },
{
    if rc.layer_res == Map::<int, Seq<Double>>::empty() {
        (Seq::empty(), 0, 0)
    } else {
        let i = lemma_at_level(db.layers@, db.min_routing_layer as int);
        let j = lemma_at_level(db.layers@, cuts::top_level(db));
        let numbers = lemma_cuts_below(
            db,
            rc,
            corner,
            db.layers@[i].number as int,
            db.layers@[j].number + 1,
        );
        (numbers, i, j)
    }
}

/// A block is routed up to the level that it sets itself, where it sets one. Else it is routed up
/// to the middle of its layers: half their number where none is a frontside layer; else as far
/// above the level below the first frontside layer as there are layers above that level, halved.
pub proof fn law_top_level(db: Db, first: Option<int>)
    requires
        match first {
            Some(i) => db::stands_first(db.layers@, db.first_frontside_layer@, i),
            None => forall|k: int|
                0 <= k < db.layers@.len() ==> (#[trigger] db.layers@[k]).name@
                    != db.first_frontside_layer@,
        },
    ensures
        db.max_routing_layer >= 0 ==> cuts::top_level(db) == db.max_routing_layer,
        db.max_routing_layer < 0 && db.first_frontside_layer@.len() == 0 && db.routing_layer_count
            >= 0 ==> db.routing_layer_count - 1 <= 2 * cuts::top_level(db) <= db.routing_layer_count,
        db.max_routing_layer < 0 && db.first_frontside_layer@.len() > 0 ==> ({
            let below = match first {
                Some(i) => db.layers@[i].routing_level - 1,
                None => -1,
            };
            let above = db.routing_layer_count - below;
            above >= 0 ==> above - 1 <= 2 * (cuts::top_level(db) - below) <= above
        }),
{
    db::law_first_named(db.layers@, db.first_frontside_layer@);
}

/// A net without a rule has no widths. A net with one has the width of its rule's first layer, and
/// that layer's own, 0 where the technology does not know it; a rule that is not known, or that has
/// no layer, is an error.
pub proof fn law_widths_of_a_rule(db: Db, net: Net, r: int, l: Option<int>)
    requires
        net.rule@.len() > 0 ==> db::stands_first(db.rules@, net.rule@, r),
        net.rule@.len() > 0 && db.rules@[r].layers is Ok && db.rules@[r].layers->Ok_0@.len() > 0
            ==> (match l {
            Some(i) => db::stands_first(db.layers@, db.rules@[r].layers->Ok_0@[0].layer@, i),
            None => forall|k: int|
                0 <= k < db.layers@.len() ==> (#[trigger] db.layers@[k]).name@
                    != db.rules@[r].layers->Ok_0@[0].layer@,
        }),
    ensures
        net.rule@.len() == 0 ==> steiner::rule_widths(db, net) == Ok::<
            Option<(i32, i32)>,
            Seq<char>,
        >(None),
        net.rule@.len() > 0 ==> (match db.rules@[r].layers {
            Err(e) => steiner::rule_widths(db, net) == Err::<Option<(i32, i32)>, Seq<char>>(e@),
            Ok(v) => if v@.len() > 0 {
                steiner::rule_widths(db, net) == Ok::<Option<(i32, i32)>, Seq<char>>(
                    Some(
                        (
                            v@[0].width,
                            match l {
                                Some(i) => db.layers@[i].width,
                                None => 0,
                            },
                        ),
                    ),
                )
            } else {
                steiner::rule_widths(db, net) is Err
            },
        }),
{
    db::law_first_named(db.rules@, net.rule@);
    if net.rule@.len() > 0 {
        if let Ok(v) = db.rules@[r].layers {
            if v@.len() > 0 {
                db::law_first_named(db.layers@, v@[0].layer@);
            }
        }
    }
}

/// The pin at `j` of the tree is at the place of point `i`, one of those that the tree was built
/// for, and has that number.
pub open spec fn pin_at_point(net: Net, tree: SteinerTreeView, i: int, j: int, key: int) -> bool {
    &&& 0 <= i < tree.tree.branch.len()
    &&& i < tree.tree.deg
    &&& 0 <= j < tree.pinlocs.len()
    &&& tree.pinlocs[j].x == tree.tree.branch[i].x
    &&& tree.pinlocs[j].y == tree.tree.branch[i].y
    &&& placement::key_of(net, tree.pinlocs[j]) matches Ok(k) && k == key
}

/// Every pin node is a pin of the tree at one of the points that it was built for, and is as that
/// pin's terminal says.
pub open spec fn pins_of_points(g: ParasiticView, net: Net, tree: SteinerTreeView) -> bool {
    forall|key: int| #[trigger]
        g.pin_nodes.contains_key(key) ==> exists|i: int, j: int| #[trigger]
            pin_at_point(net, tree, i, j, key) && g.pin_nodes[key] == network::pin_node(
                net,
                tree.pinlocs[j],
            )
}

proof fn lemma_joined_pins(
    cx: CtxView,
    net: Net,
    pin: PinLoc,
    pin_node: Node,
    node: Node,
    g: ParasiticView,
    last: u32,
)
    ensures
        steiner::joined(cx, net, pin, pin_node, node, g, last) matches Ok(made)
            ==> made.0.pin_nodes == g.pin_nodes,
{
    let layers = steiner::wire_layers(cx);
    if layers.len() > 0 && cx.rc.layer_res != Map::<int, Seq<Double>>::empty() {
        if let Ok(p) = cuts::pin_layer(net, pin) {
            let ends = ViaEnds { p: p as int, t: layers[0] as int, pin_node, node };
            lemma_chain_stacked(
                cx.db,
                cx.rc,
                cx.corner,
                ends,
                ViaState { g, last, prev: None },
                ends.high(),
            );
        }
    }
}

proof fn lemma_pins_of_point(
    cx: CtxView,
    net: Net,
    tree: SteinerTreeView,
    n: int,
    pt: int,
    st: BuildState,
    node: Node,
)
    requires
        0 <= n <= tree.pinlocs.len(),
        0 <= pt < tree.tree.branch.len(),
        pt < tree.tree.deg,
        pins_of_points(st.g, net, tree),
    ensures
        steiner::pins_connected(
            cx,
            net,
            tree.pinlocs.take(n),
            tree.tree.branch[pt].x,
            tree.tree.branch[pt].y,
            st,
            node,
        ) matches Ok(end) ==> pins_of_points(end.g, net, tree),
    decreases n,
{
    if n > 0 {
        lemma_pins_of_point(cx, net, tree, n - 1, pt, st, node);
        let pins = tree.pinlocs.take(n);
        assert(pins.drop_last() =~= tree.pinlocs.take(n - 1));
        let (x, y) = (tree.tree.branch[pt].x, tree.tree.branch[pt].y);
        if let Ok(end) = steiner::pins_connected(cx, net, pins, x, y, st, node) {
            let before = steiner::pins_connected(cx, net, pins.drop_last(), x, y, st, node)->Ok_0;
            let pin = pins.last();
            if pin.x == x && pin.y == y {
                let key = placement::key_of(net, pin)->Ok_0;
                let g = before.g.with_pin(net, pin, key);
                lemma_joined_pins(cx, net, pin, Node::Pin(key), node, g, before.last);
                assert(end.g.pin_nodes == g.pin_nodes);
                assert forall|k: int| #[trigger] end.g.pin_nodes.contains_key(k) implies exists|
                    i: int,
                    j: int,
                | #[trigger]
                    pin_at_point(net, tree, i, j, k) && end.g.pin_nodes[k] == network::pin_node(
                        net,
                        tree.pinlocs[j],
                    ) by {
                    if before.g.pin_nodes.contains_key(k) {
                        let (i, j) = choose|i: int, j: int| #[trigger]
                            pin_at_point(net, tree, i, j, k) && before.g.pin_nodes[k]
                                == network::pin_node(net, tree.pinlocs[j]);
                        assert(pin_at_point(net, tree, i, j, k) && end.g.pin_nodes[k]
                            == network::pin_node(net, tree.pinlocs[j]));
                    } else {
                        assert(pin_at_point(net, tree, pt, n - 1, k) && end.g.pin_nodes[k]
                            == network::pin_node(net, tree.pinlocs[n - 1]));
                    }
                }
            }
        }
    }
}

proof fn lemma_point_pins(
    cx: CtxView,
    net: Net,
    tree: SteinerTreeView,
    pt: int,
    st: BuildState,
    node: Node,
)
    requires
        0 <= pt < tree.tree.branch.len(),
        pins_of_points(st.g, net, tree),
    ensures
        steiner::point_connected(cx, net, tree, pt, st, node) matches Ok(end) ==> pins_of_points(
            end.g,
            net,
            tree,
        ),
{
    if pt < tree.tree.deg {
        lemma_pins_of_point(cx, net, tree, tree.pinlocs.len() as int, pt, st, node);
        assert(tree.pinlocs.take(tree.pinlocs.len() as int) =~= tree.pinlocs);
    }
}

proof fn lemma_branches_pins(
    cx: CtxView,
    net: Net,
    tree: SteinerTreeView,
    rule: Option<(i32, i32)>,
    n: int,
)
    requires
        steiner::sound(tree),
        0 <= n <= tree.tree.branch.len(),
    ensures
        steiner::branches_built(cx, net, tree, rule, n) matches Ok(end) ==> pins_of_points(
            end.g,
            net,
            tree,
        ),
    decreases n,
{
    if n > 0 {
        lemma_branches_pins(cx, net, tree, rule, n - 1);
        if let Ok(st) = steiner::branches_built(cx, net, tree, rule, n - 1) {
            let i = n - 1;
            let a = tree.tree.branch[i];
            let b = tree.tree.branch[a.n as int];
            assert(steiner::branch_sound(tree.tree.branch, tree.tree.branch[i]));
            let (from, to) = (Node::Sub(steiner::id_of(i)), Node::Sub(steiner::id_of(a.n as int)));
            let g = steiner::branch_wired(
                cx,
                rule,
                st.g.with_sub(steiner::id_of(i)).with_sub(steiner::id_of(a.n as int)),
                from,
                to,
                steiner::apart(a.x as int, b.x as int) as i32,
                steiner::apart(a.y as int, b.y as int) as i32,
            );
            assert(g.pin_nodes == st.g.pin_nodes);
            let wired = BuildState { g, ..st };
            assert(pins_of_points(wired.g, net, tree)) by {
                assert forall|key: int| #[trigger] g.pin_nodes.contains_key(key) implies exists|
                    i: int,
                    j: int,
                | #[trigger]
                    pin_at_point(net, tree, i, j, key) && g.pin_nodes[key] == network::pin_node(
                        net,
                        tree.pinlocs[j],
                    ) by {
                    assert(st.g.pin_nodes.contains_key(key));
                }
            }
            lemma_point_pins(cx, net, tree, i, wired, from);
            if let Ok(half) = steiner::point_connected(cx, net, tree, i, wired, from) {
                lemma_point_pins(cx, net, tree, a.n as int, half, to);
            }
        }
    }
}

/// The pin nodes of a network are the pins at the places of the points that the tree was built for:
/// all of them, by their numbers, and no other pin. Each is named and typed as its terminal is.
pub proof fn law_pin_nodes_are_the_pins_at_points(cx: CtxView, net: Net, tree: SteinerTreeView)
    requires
        steiner::sound(tree),
        steiner::steiner_network(cx, net, tree) is Ok,
    ensures
        ({
            let g = steiner::steiner_network(cx, net, tree)->Ok_0;
            &&& pins_of_points(g, net, tree)
            &&& forall|i: int, j: int, key: int| #[trigger]
                pin_at_point(net, tree, i, j, key) ==> g.pin_nodes.contains_key(key)
        }),
{
    let g = steiner::steiner_network(cx, net, tree)->Ok_0;
    let rule = steiner::rule_widths(cx.db, net)->Ok_0;
    lemma_branches_pins(cx, net, tree, rule, tree.tree.branch.len() as int);
    assert forall|i: int, j: int, key: int| #[trigger]
        pin_at_point(net, tree, i, j, key) implies g.pin_nodes.contains_key(key) by {
        network_laws::law_every_pin_is_a_node(cx, net, tree, i, j);
    }
}

/// The node of a port tells its name and its IO type and no master; that of an instance terminal
/// its name, its IO type and its instance's master. Neither has capacitance to begin with.
pub proof fn law_pin_node_tells_its_terminal(net: Net, pin: PinLoc, i: int)
    requires
        pin.is_port ==> db::stands_first(net.bterms@, pin.name@, i),
        !pin.is_port ==> db::stands_first(net.iterms@, pin.name@, i),
    ensures
        ({
            let n = network::pin_node(net, pin);
            &&& n.name == pin.name@
            &&& n.is_port == pin.is_port
            &&& n.cap.len() == 0
            &&& pin.is_port ==> n.io_type == net.bterms@[i].io_type@ && n.master.len() == 0
            &&& !pin.is_port ==> n.io_type == net.iterms@[i].io_type@ && n.master
                == net.iterms@[i].master@
        }),
{
    db::law_first_named(net.bterms@, pin.name@);
    db::law_first_named(net.iterms@, pin.name@);
}

/// A pin's number is twice its id, and one more for a port.
pub proof fn law_number_of_a_pin(net: Net, pin: PinLoc, i: int)
    requires
        pin.is_port ==> db::stands_first(net.bterms@, pin.name@, i),
        !pin.is_port ==> db::stands_first(net.iterms@, pin.name@, i),
    ensures
        pin.is_port ==> (match net.bterms@[i].id {
            Ok(id) => placement::key_of(net, pin) matches Ok(key) && key == 2 * id + 1,
            Err(e) => placement::key_of(net, pin) == Err::<u64, Seq<char>>(e@),
        }),
        !pin.is_port ==> (match net.iterms@[i].id {
            Ok(id) => placement::key_of(net, pin) matches Ok(key) && key == 2 * id,
            Err(e) => placement::key_of(net, pin) == Err::<u64, Seq<char>>(e@),
        }),
{
    db::law_first_named(net.bterms@, pin.name@);
    db::law_first_named(net.iterms@, pin.name@);
}

/// A pad net's link leads from the first of its pins to the second, and those two are its nodes.
pub proof fn law_pad_link_is_between_the_first_two(net: Net, pins: Seq<PinLoc>)
    requires
        pins.len() >= 2,
        steiner::pad_network(net, pins) is Ok,
    ensures
        ({
            let g = steiner::pad_network(net, pins)->Ok_0;
            let (a, b) = (placement::key_of(net, pins[0]), placement::key_of(net, pins[1]));
            &&& a is Ok
            &&& b is Ok
            &&& g.resistors == seq![
                ResistorView {
                    from: Node::Pin(a->Ok_0),
                    to: Node::Pin(b->Ok_0),
                    value: ResistanceView::Link,
                },
            ]
            &&& forall|k: int| #[trigger]
                g.pin_nodes.contains_key(k) <==> k == a->Ok_0 || k == b->Ok_0
        }),
{
    let g = steiner::pad_network(net, pins)->Ok_0;
    assert(g.resistors =~= seq![g.resistors[0]]);
}

/// The names of those of the pins that are at a place, in order and each once, behind the names that
/// are there.
pub open spec fn names_joined(pins: Seq<PinLoc>, x: i32, y: i32, done: Seq<Seq<char>>) -> Seq<Seq<char>>
    decreases pins.len(),
{
    if pins.len() == 0 {
        done
    } else {
        let before = names_joined(pins.drop_last(), x, y, done);
        let pin = pins.last();
        if pin.x == x && pin.y == y && !before.contains(pin.name@) {
            before.push(pin.name@)
        } else {
            before
        }
    }
}

proof fn lemma_names_joined(
    cx: CtxView,
    net: Net,
    pins: Seq<PinLoc>,
    x: i32,
    y: i32,
    st: BuildState,
    node: Node,
)
    ensures
        steiner::pins_connected(cx, net, pins, x, y, st, node) matches Ok(end) ==> end.connected
            == names_joined(pins, x, y, st.connected),
    decreases pins.len(),
{
    if pins.len() > 0 {
        lemma_names_joined(cx, net, pins.drop_last(), x, y, st, node);
    }
}

/// The names joined at a point: a Steiner point has no pins.
pub open spec fn names_at_point(tree: SteinerTreeView, pt: int, done: Seq<Seq<char>>) -> Seq<Seq<char>> {
    if pt < tree.tree.deg {
        names_joined(tree.pinlocs, tree.tree.branch[pt].x, tree.tree.branch[pt].y, done)
    } else {
        done
    }
}

/// The names that the first `n` branches join: each joins the pins at the point that it comes from
/// and then those at the point that it goes to.
pub open spec fn names_by_branches(tree: SteinerTreeView, n: int) -> Seq<Seq<char>>
    decreases n,
{
    if n <= 0 {
        Seq::empty()
    } else {
        names_at_point(
            tree,
            tree.tree.branch[n - 1].n as int,
            names_at_point(tree, n - 1, names_by_branches(tree, n - 1)),
        )
    }
}

/// A branch is built in this order: its own resistor, then the pins at the point that it comes from,
/// then those at the point that it goes to; at each point in the tree's order of pins, and every pin
/// once in the whole network.
pub proof fn law_order_of_a_branch(
    cx: CtxView,
    net: Net,
    tree: SteinerTreeView,
    rule: Option<(i32, i32)>,
    n: int,
)
    requires
        0 <= n,
    ensures
        steiner::branches_built(cx, net, tree, rule, n) matches Ok(end) ==> end.connected
            == names_by_branches(tree, n),
        steiner::branches_built(cx, net, tree, rule, n + 1) matches Ok(end) ==> ({
            let before = steiner::branches_built(cx, net, tree, rule, n);
            let k = before->Ok_0.g.resistors.len() as int;
            &&& before is Ok
            &&& k < end.g.resistors.len()
            &&& end.g.resistors.take(k) == before->Ok_0.g.resistors
            &&& end.g.resistors[k].from == Node::Sub(steiner::id_of(n))
            &&& end.g.resistors[k].to == Node::Sub(
                steiner::id_of(tree.tree.branch[n].n as int),
            )
            &&& end.g.resistors[k].value is Link || end.g.resistors[k].value is Wire
        }),
    decreases n,
{
    if n > 0 {
        law_order_of_a_branch(cx, net, tree, rule, n - 1);
        lemma_names_of_branch(cx, net, tree, rule, n - 1);
    }
    lemma_names_of_branch(cx, net, tree, rule, n);
}

proof fn lemma_names_of_branch(
    cx: CtxView,
    net: Net,
    tree: SteinerTreeView,
    rule: Option<(i32, i32)>,
    i: int,
)
    requires
        0 <= i,
    ensures
        steiner::branches_built(cx, net, tree, rule, i + 1) matches Ok(end) ==> ({
            let st = steiner::branches_built(cx, net, tree, rule, i)->Ok_0;
            let k = st.g.resistors.len() as int;
            &&& steiner::branches_built(cx, net, tree, rule, i) is Ok
            &&& end.connected == names_at_point(
                tree,
                tree.tree.branch[i].n as int,
                names_at_point(tree, i, st.connected),
            )
            &&& k < end.g.resistors.len()
            &&& end.g.resistors.take(k) == st.g.resistors
            &&& end.g.resistors[k].from == Node::Sub(steiner::id_of(i))
            &&& end.g.resistors[k].to == Node::Sub(
                steiner::id_of(tree.tree.branch[i].n as int),
            )
            &&& end.g.resistors[k].value is Link || end.g.resistors[k].value is Wire
        }),
{
    if let Ok(end) = steiner::branches_built(cx, net, tree, rule, i + 1) {
        let st = steiner::branches_built(cx, net, tree, rule, i)->Ok_0;
        let a = tree.tree.branch[i];
        let b = tree.tree.branch[a.n as int];
        let (from, to) = (Node::Sub(steiner::id_of(i)), Node::Sub(steiner::id_of(a.n as int)));
        let g = steiner::branch_wired(
            cx,
            rule,
            st.g.with_sub(steiner::id_of(i)).with_sub(steiner::id_of(a.n as int)),
            from,
            to,
            steiner::apart(a.x as int, b.x as int) as i32,
            steiner::apart(a.y as int, b.y as int) as i32,
        );
        let wired = BuildState { g, ..st };
        let half = steiner::point_connected(cx, net, tree, i, wired, from)->Ok_0;
        let k = st.g.resistors.len() as int;
        assert(g.resistors.len() == k + 1);
        assert(g.resistors.drop_last() =~= st.g.resistors);
        lemma_names_joined(cx, net, tree.pinlocs, a.x, a.y, wired, from);
        lemma_names_joined(cx, net, tree.pinlocs, b.x, b.y, half, to);
        wiring_laws::lemma_pins_grow(cx, net, tree.pinlocs, a.x, a.y, wired, from);
        wiring_laws::lemma_pins_grow(cx, net, tree.pinlocs, b.x, b.y, half, to);
        assert(wiring_laws::grows(g.resistors, half.g.resistors)) by {
            assert(g.resistors.take(g.resistors.len() as int) =~= g.resistors);
        }
        assert(wiring_laws::grows(half.g.resistors, end.g.resistors)) by {
            assert(half.g.resistors.take(half.g.resistors.len() as int) =~= half.g.resistors);
        }
        assert(end.g.resistors.take(half.g.resistors.len() as int)[k] == half.g.resistors[k]);
        assert(half.g.resistors.take(g.resistors.len() as int)[k] == g.resistors[k]);
        assert(end.g.resistors.take(k) =~= st.g.resistors) by {
            assert forall|j: int| 0 <= j < k implies end.g.resistors[j] == st.g.resistors[j] by {
                assert(end.g.resistors.take(half.g.resistors.len() as int)[j] == half.g.resistors[j]);
                assert(half.g.resistors.take(g.resistors.len() as int)[j] == g.resistors[j]);
                assert(g.resistors.drop_last()[j] == st.g.resistors[j]);
            }
        }
    }
}

/// The type of every layer from `low` up to, and without, `high` is known.
pub open spec fn kinds_known(db: Db, low: int, high: int) -> bool {
    forall|l: int| low <= l < high ==> #[trigger] cuts::cut_at(db, l) is Ok
}

proof fn lemma_chain_made(db: Db, rc: RcView, corner: int, ends: ViaEnds, st: ViaState, l: int)
    requires
        st.prev is None,
        ends.low() <= l <= ends.high(),
    ensures
        cuts::via_chain(db, rc, corner, ends, st, l) is Ok <==> kinds_known(db, ends.low(), l) && (
        cut_layers(db, ends.low(), l).len() > 0 ==> cut_layers(db, ends.low(), l)[0] == ends.low()
            + 1),
    decreases l - ends.low(),
{
    if l > ends.low() {
        lemma_chain_made(db, rc, corner, ends, st, l - 1);
        lemma_chain_stacked(db, rc, corner, ends, st, l - 1);
        lemma_cut_layers(db, ends.low(), l - 1);
        let layers = cut_layers(db, ends.low(), l - 1);
        if kinds_known(db, ends.low(), l) {
            assert(cuts::cut_at(db, l - 1) is Ok);
            assert(kinds_known(db, ends.low(), l - 1));
        }
        if kinds_known(db, ends.low(), l - 1) && cuts::cut_at(db, l - 1) is Ok {
            assert(kinds_known(db, ends.low(), l)) by {
                assert forall|m: int| ends.low() <= m < l implies #[trigger] cuts::cut_at(
                    db,
                    m,
                ) is Ok by {
                    if m < l - 1 {
                        assert(cuts::cut_at(db, m) is Ok);
                    }
                }
            }
        }
        if layers.len() > 0 {
            assert(layers[layers.len() - 1] < l - 1);
            assert(cut_layers(db, ends.low(), l)[0] == layers[0]);
        }
    }
}

/// A pin and a wire whose layers are neither the same nor two apart are joined exactly where the
/// type of every layer from the lower one up to the higher is known, and the lowest cut layer among
/// them, where there is one, is right above the lower one.
pub proof fn law_when_a_chain_is_made(
    db: Db,
    rc: RcView,
    corner: int,
    ends: ViaEnds,
    g: ParasiticView,
    last: u32,
)
    requires
        ends.p != ends.t,
        ends.p - ends.t != 2,
        ends.t - ends.p != 2,
    ensures
        ({
            let (low, high) = if ends.p < ends.t {
                (ends.p, ends.t)
            } else {
                (ends.t, ends.p)
            };
            cuts::joined_by_vias(db, rc, corner, ends, g, last) is Ok <==> kinds_known(
                db,
                low,
                high,
            ) && (cut_layers(db, low, high).len() > 0 ==> cut_layers(db, low, high)[0] == low + 1)
        }),
{
    lemma_chain_made(db, rc, corner, ends, ViaState { g, last, prev: None }, ends.high());
}

} // verus!
