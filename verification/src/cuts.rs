//! From a pin's layer to a net's wires: the cuts between.

use vstd::prelude::*;
use vstd::string::*;

use crate::db;
use crate::db::{find_named, Db, Layer, Net};
use crate::network::{NetCtx, Node, Parasitic, ParasiticView, Resistance, ResistanceView};
use crate::placement;
use crate::placement::PinLoc;
use crate::rc;
use crate::rc::RcView;
use crate::text;
use crate::text::{framed, same};
use crate::value::Double;

verus! {

/// The first layer of that number.
pub open spec fn numbered(s: Seq<Layer>, n: int) -> Option<Layer>
    decreases s.len(),
{
    if s.len() == 0 {
        None
    } else if s[0].number == n {
        Some(s[0])
    } else {
        numbered(s.skip(1), n)
    }
}

/// The first layer of that routing level.
pub open spec fn at_level(s: Seq<Layer>, level: int) -> Option<Layer>
    decreases s.len(),
{
    if s.len() == 0 {
        None
    } else if s[0].routing_level == level {
        Some(s[0])
    } else {
        at_level(s.skip(1), level)
    }
}

fn find_numbered(v: &Vec<Layer>, number: i64) -> (r: Option<&Layer>)
    ensures
        match r {
            Some(l) => numbered(v@, number as int) == Some(*l),
            None => numbered(v@, number as int) is None,
        },
{
    let n: usize = v.len();
    let mut i: usize = 0;
    assert(v@.skip(0) =~= v@);
    while i < n
        invariant
            n == v@.len(),
            i <= n,
            numbered(v@, number as int) == numbered(v@.skip(i as int), number as int),
        decreases n - i,
    {
        assert(v@.skip(i as int).skip(1) =~= v@.skip(i + 1));
        if v[i].number as i64 == number {
            return Some(&v[i]);
        }
        i = i + 1;
    }
    None
}

fn find_level(v: &Vec<Layer>, level: i64) -> (r: Option<&Layer>)
    ensures
        match r {
            Some(l) => at_level(v@, level as int) == Some(*l),
            None => at_level(v@, level as int) is None,
        },
{
    let n: usize = v.len();
    let mut i: usize = 0;
    assert(v@.skip(0) =~= v@);
    while i < n
        invariant
            n == v@.len(),
            i <= n,
            at_level(v@, level as int) == at_level(v@.skip(i as int), level as int),
        decreases n - i,
    {
        assert(v@.skip(i as int).skip(1) =~= v@.skip(i + 1));
        if v[i].routing_level as i64 == level {
            return Some(&v[i]);
        }
        i = i + 1;
    }
    None
}

/// The name of the layer of that number; empty where there is none.
pub open spec fn name_at(db: Db, n: int) -> Seq<char> {
    match numbered(db.layers@, n) {
        Some(l) => l.name@,
        None => Seq::empty(),
    }
}

/// The type of the layer of that number, or why there is none.
pub open spec fn kind_at(db: Db, n: int) -> Result<Seq<char>, Seq<char>> {
    let kind = match db::first_named(db.layers@, name_at(db, n)) {
        Some(l) => l.kind,
        None => db.unnamed_kind,
    };
    match kind {
        Ok(s) => Ok(s@),
        Err(e) => Err(e@),
    }
}

/// Whether the layer of that number is a cut layer, or why its type is not known.
pub open spec fn cut_at(db: Db, n: int) -> Result<bool, Seq<char>> {
    match kind_at(db, n) {
        Ok(s) => Ok(s == "CUT"@),
        Err(e) => Err(e),
    }
}

fn layer_name(db: &Db, n: i64) -> (r: String)
    ensures
        r@ == name_at(*db, n as int),
{
    match find_numbered(&db.layers, n) {
        Some(l) => l.name.clone(),
        None => String::new(),
    }
}

fn is_cut(db: &Db, n: i64) -> (r: Result<bool, String>)
    ensures
        text::outcome(r) == cut_at(*db, n as int),
{
    let name = layer_name(db, n);
    let kind = match find_named(&db.layers, name.as_str()) {
        Some(l) => &l.kind,
        None => &db.unnamed_kind,
    };
    match kind {
        Ok(s) => Ok(same(s.as_str(), "CUT")),
        Err(e) => Err(e.clone()),
    }
}

/// The lowest of numbers.
pub open spec fn lowest(s: Seq<i32>) -> Option<i32>
    decreases s.len(),
{
    if s.len() == 0 {
        None
    } else {
        match lowest(s.drop_last()) {
            Some(m) => Some(if s.last() < m { s.last() } else { m }),
            None => Some(s.last()),
        }
    }
}

fn find_lowest(v: &Vec<i32>) -> (r: Option<i32>)
    ensures
        r == lowest(v@),
{
    let n: usize = v.len();
    let mut found: Option<i32> = None;
    let mut i: usize = 0;
    while i < n
        invariant
            n == v@.len(),
            i <= n,
            found == lowest(v@.take(i as int)),
        decreases n - i,
    {
        assert(v@.take(i + 1).drop_last() =~= v@.take(i as int));
        found = match found {
            Some(m) => Some(if v[i] < m { v[i] } else { m }),
            None => Some(v[i]),
        };
        i = i + 1;
    }
    assert(v@.take(n as int) =~= v@);
    found
}

/// The number of a pin's layer: of a port, its first pin's first shape's; of an instance terminal,
/// the lowest of its geometry.
pub open spec fn pin_layer(net: Net, pin: PinLoc) -> Result<i32, Seq<char>> {
    if pin.is_port {
        match db::first_named(net.bterms@, pin.name@) {
            Some(t) => match t.layers {
                Err(e) => Err(e@),
                Ok(v) => if v@.len() > 0 {
                    Ok(v@[0])
                } else {
                    Err("[ERROR EST-0164] sta::Pin "@ + pin.name@ + " has no placed iterm or bterm."@)
                },
            },
            None => Err(placement::no_such_pin(pin.name@)),
        }
    } else {
        match db::first_named(net.iterms@, pin.name@) {
            Some(t) => match lowest(t.layers@) {
                Some(l) => Ok(l),
                None => Err("pin "@ + pin.name@ + ": no routing geometry"@),
            },
            None => Err(placement::no_such_pin(pin.name@)),
        }
    }
}

/// The number of a pin's layer.
pub fn get_pin_layer(net: &Net, pin: &PinLoc) -> (r: Result<i32, String>)
    ensures
        text::outcome(r) == pin_layer(*net, *pin),
{
    let name = pin.name.as_str();
    if pin.is_port {
        match find_named(&net.bterms, name) {
            Some(t) => match &t.layers {
                Err(e) => Err(e.clone()),
                Ok(v) => if v.len() > 0 {
                    Ok(v[0])
                } else {
                    Err(framed("[ERROR EST-0164] sta::Pin ", name, " has no placed iterm or bterm."))
                },
            },
            None => Err(framed("pin ", name, " is not of the net")),
        }
    } else {
        match find_named(&net.iterms, name) {
            Some(t) => match find_lowest(&t.layers) {
                Some(l) => Ok(l),
                None => Err(framed("pin ", name, ": no routing geometry")),
            },
            None => Err(framed("pin ", name, " is not of the net")),
        }
    }
}

/// The id after that one; ids wrap round.
pub open spec fn next_id(id: u32) -> u32 {
    if id == u32::MAX {
        0
    } else {
        (id + 1) as u32
    }
}

/// A via chain as far as it was made.
pub struct ViaState {
    pub g: ParasiticView,
    /// The last id that was given.
    pub last: u32,
    /// The node that the chain has reached, where it has one.
    pub prev: Option<Node>,
}

/// What is said of a chain that skips a layer.
pub open spec fn broken_chain(p: int, t: int) -> Seq<char> {
    "via chain from layer "@ + text::integer(p) + " to "@ + text::integer(t)
        + ": a step with no node — not modelled"@
}

/// A via chain between a pin at layer `p` and a wire at layer `t`, and where it stands.
pub struct ViaEnds {
    pub p: int,
    pub t: int,
    pub pin_node: Node,
    pub node: Node,
}

impl ViaEnds {
    /// The lower of the two layers.
    pub open spec fn low(self) -> int {
        if self.p < self.t {
            self.p
        } else {
            self.t
        }
    }

    /// The higher of the two layers.
    pub open spec fn high(self) -> int {
        if self.p < self.t {
            self.t
        } else {
            self.p
        }
    }

    /// The node at the lower layer.
    pub open spec fn bottom(self) -> Node {
        if self.p < self.t {
            self.pin_node
        } else {
            self.node
        }
    }

    /// The node at the higher layer.
    pub open spec fn top(self) -> Node {
        if self.p < self.t {
            self.node
        } else {
            self.pin_node
        }
    }
}

/// The chain over layer `l`: nothing where it is not a cut layer. A cut goes from the node reached
/// before, or from the lower end where it stands on it, to the upper end where it is right below
/// it, else to a new node.
pub open spec fn via_step(db: Db, rc: RcView, corner: int, ends: ViaEnds, st: ViaState, l: int) -> Result<
    ViaState,
    Seq<char>,
> {
    match cut_at(db, l) {
        Err(e) => Err(e),
        Ok(false) => Ok(st),
        Ok(true) => {
            let from = if l - 1 == ends.low() {
                Some(ends.bottom())
            } else {
                st.prev
            };
            let value = ResistanceView::Cut(rc::layer_value(rc.layer_res, l, corner));
            match from {
                None => Err(broken_chain(ends.p, ends.t)),
                Some(a) => if l + 1 == ends.high() {
                    Ok(
                        ViaState {
                            g: st.g.with_resistor(a, ends.top(), value),
                            last: st.last,
                            prev: None,
                        },
                    )
                } else {
                    let id = next_id(st.last);
                    Ok(
                        ViaState {
                            g: st.g.with_sub(id).with_resistor(a, Node::Sub(id), value),
                            last: id,
                            prev: Some(Node::Sub(id)),
                        },
                    )
                },
            }
        },
    }
}

/// The chain over the layers from the lower end up to, and without, `l`.
pub open spec fn via_chain(db: Db, rc: RcView, corner: int, ends: ViaEnds, st: ViaState, l: int) -> Result<
    ViaState,
    Seq<char>,
>
    decreases l - ends.low(),
{
    if l <= ends.low() {
        Ok(st)
    } else {
        match via_chain(db, rc, corner, ends, st, l - 1) {
            Err(e) => Err(e),
            Ok(before) => via_step(db, rc, corner, ends, before, l - 1),
        }
    }
}

/// A network with the pin joined to the wire, and the last id given: one cut where the layers are
/// two apart, a link where they are the same, else a chain over every cut layer between.
pub open spec fn joined_by_vias(
    db: Db,
    rc: RcView,
    corner: int,
    ends: ViaEnds,
    g: ParasiticView,
    last: u32,
) -> Result<(ParasiticView, u32), Seq<char>> {
    if ends.high() - ends.low() == 2 {
        let value = ResistanceView::Cut(rc::layer_value(rc.layer_res, ends.low() + 1, corner));
        Ok((g.with_resistor(ends.pin_node, ends.node, value), last))
    } else if ends.p == ends.t {
        Ok((g.with_resistor(ends.pin_node, ends.node, ResistanceView::Link), last))
    } else {
        match via_chain(
            db,
            rc,
            corner,
            ends,
            ViaState { g, last, prev: None },
            ends.high(),
        ) {
            Err(e) => Err(e),
            Ok(st) => Ok((st.g, st.last)),
        }
    }
}

proof fn lemma_chain_fails(db: Db, rc: RcView, corner: int, ends: ViaEnds, st: ViaState, l: int, m: int)
    requires
        ends.low() <= l <= m,
        via_chain(db, rc, corner, ends, st, l) is Err,
    ensures
        via_chain(db, rc, corner, ends, st, m) == via_chain(db, rc, corner, ends, st, l),
    decreases m - l,
{
    if l < m {
        lemma_chain_fails(db, rc, corner, ends, st, l, m - 1);
    }
}

fn broken_chain_text(p: i32, t: i32) -> (r: String)
    ensures
        r@ == broken_chain(p as int, t as int),
{
    let mut s = "via chain from layer ".to_owned();
    text::push_int(&mut s, p as i128);
    s.append(" to ");
    text::push_int(&mut s, t as i128);
    s.append(": a step with no node — not modelled");
    s
}

/// Joins a pin at layer `p` to a wire at layer `t`. `last` is the last id given.
pub fn insert_via_resistances(
    cx: &NetCtx<'_>,
    g: &mut Parasitic,
    p: i32,
    t: i32,
    pin_node: Node,
    node: Node,
    last: &mut u32,
) -> (r: Result<(), String>)
    requires
        cx.rc.wf(),
        old(g).wf(),
    ensures
        final(g).wf(),
        match joined_by_vias(
            *cx.db,
            cx.rc@,
            cx.corner as int,
            (ViaEnds { p: p as int, t: t as int, pin_node, node }),
            old(g)@,
            *old(last),
        ) {
            Ok(made) => r is Ok && final(g)@ == made.0 && *final(last) == made.1,
            Err(e) => r matches Err(s) && s@ == e,
        },
{
    let ghost ends = ViaEnds { p: p as int, t: t as int, pin_node, node };
    let ghost start = ViaState { g: g@, last: *last, prev: None };
    let (low, high): (i64, i64) = if p < t {
        (p as i64, t as i64)
    } else {
        (t as i64, p as i64)
    };
    if high - low == 2 {
        let (res, _) = cx.rc.layer_rc_at(low as i128 + 1, cx.corner);
        g.make_resistor(pin_node, node, Resistance::Cut(res));
        return Ok(());
    }
    if p == t {
        g.make_resistor(pin_node, node, Resistance::Link);
        return Ok(());
    }
    let (bottom, top): (Node, Node) = if p < t {
        (pin_node, node)
    } else {
        (node, pin_node)
    };
    let mut prev: Option<Node> = None;
    let mut l: i64 = low;
    while l < high
        invariant
            cx.rc.wf(),
            g.wf(),
            low <= l <= high,
            i32::MIN <= low,
            high <= i32::MAX,
            ends == (ViaEnds { p: p as int, t: t as int, pin_node, node }),
            low == ends.low(),
            high == ends.high(),
            bottom == ends.bottom(),
            top == ends.top(),
            high - low != 2,
            p != t,
            start == (ViaState { g: old(g)@, last: *old(last), prev: None }),
            via_chain(*cx.db, cx.rc@, cx.corner as int, ends, start, l as int) == Ok::<
                ViaState,
                Seq<char>,
            >(ViaState { g: g@, last: *last, prev }),
        decreases high - l,
    {
        let ghost there = via_chain(*cx.db, cx.rc@, cx.corner as int, ends, start, l + 1);
        match is_cut(cx.db, l) {
            Err(e) => {
                proof {
                    lemma_chain_fails(*cx.db, cx.rc@, cx.corner as int, ends, start, l + 1, high as int);
                }
                return Err(e);
            },
            Ok(false) => {},
            Ok(true) => {
                let (res, _) = cx.rc.layer_rc_at(l as i128, cx.corner);
                let from: Option<Node> = if l - 1 == low {
                    Some(bottom)
                } else {
                    prev
                };
                match from {
                    None => {
                        proof {
                            lemma_chain_fails(
                                *cx.db,
                                cx.rc@,
                                cx.corner as int,
                                ends,
                                start,
                                l + 1,
                                high as int,
                            );
                        }
                        return Err(broken_chain_text(p, t));
                    },
                    Some(a) => {
                        if l + 1 == high {
                            g.make_resistor(a, top, Resistance::Cut(res));
                            prev = None;
                        } else {
                            let id: u32 = if *last == u32::MAX {
                                0
                            } else {
                                *last + 1
                            };
                            *last = id;
                            let mid = g.ensure_sub(id);
                            g.make_resistor(a, mid, Resistance::Cut(res));
                            prev = Some(mid);
                        }
                    },
                }
            },
        }
        l = l + 1;
    }
    Ok(())
}

/// Half of a number, towards 0.
pub open spec fn half(n: int) -> int {
    if n < 0 {
        -((-n) / 2)
    } else {
        n / 2
    }
}

/// The level of the layer of that name; 0 where there is none.
pub open spec fn level_of(db: Db, name: Seq<char>) -> int {
    match db::first_named(db.layers@, name) {
        Some(l) => l.routing_level as int,
        None => 0,
    }
}

/// The level up to which a block is routed: its own, or the middle of the frontside layers where it
/// has none, or half the layers where there is no frontside layer.
pub open spec fn top_level(db: Db) -> int {
    if db.max_routing_layer >= 0 {
        db.max_routing_layer as int
    } else if db.first_frontside_layer@.len() == 0 {
        half(db.routing_layer_count as int)
    } else {
        let first = level_of(db, db.first_frontside_layer@);
        first - 1 + half(db.routing_layer_count - first + 1)
    }
}

fn halved(n: i64) -> (r: i64)
    requires
        n > i64::MIN,
    ensures
        r == half(n as int),
{
    if n < 0 {
        -((-n) / 2)
    } else {
        n / 2
    }
}

fn make_top_level(db: &Db) -> (r: i64)
    ensures
        r == top_level(*db),
{
    if db.max_routing_layer >= 0 {
        return db.max_routing_layer as i64;
    }
    let total: i64 = db.routing_layer_count as i64;
    if db.first_frontside_layer.as_str().is_empty() {
        halved(total)
    } else {
        let first: i64 = match find_named(&db.layers, db.first_frontside_layer.as_str()) {
            Some(l) => l.routing_level as i64,
            None => 0,
        };
        first - 1 + halved(total - first + 1)
    }
}

/// The resistances of the cut layers from number `low` up to, and without, `n`. A number without a
/// named layer counts for nothing.
pub open spec fn cuts_below(db: Db, rc: RcView, corner: int, low: int, n: int) -> Result<
    Seq<Double>,
    Seq<char>,
>
    decreases n - low,
{
    if n <= low {
        Ok(Seq::empty())
    } else {
        match cuts_below(db, rc, corner, low, n - 1) {
            Err(e) => Err(e),
            Ok(before) => if name_at(db, n - 1).len() == 0 {
                Ok(before)
            } else {
                match cut_at(db, n - 1) {
                    Err(e) => Err(e),
                    Ok(false) => Ok(before),
                    Ok(true) => Ok(before.push(rc::layer_value(rc.layer_res, n - 1, corner))),
                }
            },
        }
    }
}

/// The resistances whose mean stands for a cut: those of the cut layers between the lowest and the
/// highest layer that the block is routed on; none where no layer has one.
pub open spec fn average_cuts(db: Db, rc: RcView, corner: int) -> Result<Seq<Double>, Seq<char>> {
    if rc.layer_res == Map::<int, Seq<Double>>::empty() {
        Ok(Seq::empty())
    } else {
        match at_level(db.layers@, db.min_routing_layer as int) {
            None => Err("min routing layer"@),
            Some(low) => match at_level(db.layers@, top_level(db)) {
                None => Err("max routing layer"@),
                Some(high) => cuts_below(db, rc, corner, low.number as int, high.number + 1),
            },
        }
    }
}

/// Values or what is wrong, as sequences.
pub open spec fn doubles_view(r: Result<Vec<Double>, String>) -> Result<Seq<Double>, Seq<char>> {
    match r {
        Ok(v) => Ok(v@),
        Err(e) => Err(e@),
    }
}

proof fn lemma_cuts_fail(db: Db, rc: RcView, corner: int, low: int, n: int, m: int)
    requires
        low <= n <= m,
        cuts_below(db, rc, corner, low, n) is Err,
    ensures
        cuts_below(db, rc, corner, low, m) == cuts_below(db, rc, corner, low, n),
    decreases m - n,
{
    if n < m {
        lemma_cuts_fail(db, rc, corner, low, n, m - 1);
    }
}

/// The resistances whose mean stands for a cut.
pub fn compute_average_cut_resistance(cx: &NetCtx<'_>) -> (r: Result<Vec<Double>, String>)
    requires
        cx.rc.wf(),
    ensures
        doubles_view(r) == average_cuts(*cx.db, cx.rc@, cx.corner as int),
{
    if cx.rc.layer_res.is_empty() {
        return Ok(Vec::new());
    }
    let bottom: i64 = cx.db.min_routing_layer as i64;
    let (low, high): (i64, i64) = match find_level(&cx.db.layers, bottom) {
        None => {
            return Err("min routing layer".to_owned());
        },
        Some(low) => match find_level(&cx.db.layers, make_top_level(cx.db)) {
            None => {
                return Err("max routing layer".to_owned());
            },
            Some(high) => (low.number as i64, high.number as i64),
        },
    };
    let mut out: Vec<Double> = Vec::new();
    let mut n: i64 = low;
    while n <= high
        invariant
            cx.rc.wf(),
            i32::MIN <= low,
            high <= i32::MAX,
            low <= n,
            n <= high + 1 || n == low,
            average_cuts(*cx.db, cx.rc@, cx.corner as int) == cuts_below(
                *cx.db,
                cx.rc@,
                cx.corner as int,
                low as int,
                high + 1,
            ),
            cuts_below(*cx.db, cx.rc@, cx.corner as int, low as int, n as int) == Ok::<
                Seq<Double>,
                Seq<char>,
            >(out@),
        decreases high + 1 - n,
    {
        let ghost there = cuts_below(*cx.db, cx.rc@, cx.corner as int, low as int, n + 1);
        let name = layer_name(cx.db, n);
        if !name.as_str().is_empty() {
            match is_cut(cx.db, n) {
                Err(e) => {
                    proof {
                        lemma_cuts_fail(
                            *cx.db,
                            cx.rc@,
                            cx.corner as int,
                            low as int,
                            n + 1,
                            high + 1,
                        );
                    }
                    return Err(e);
                },
                Ok(false) => {},
                Ok(true) => {
                    let (res, _) = cx.rc.layer_rc_at(n as i128, cx.corner);
                    out.push(res);
                },
            }
        }
        n = n + 1;
    }
    Ok(out)
}

} // verus!
