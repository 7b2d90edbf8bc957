//! The RC network of one net in one corner.
//!
//! Pin nodes are kept by their numbers, Steiner nodes by their ids and resistors in the order they
//! were made: that is the order in which the network is written out. What a node's capacitance and
//! a resistor's resistance come to is kept as the wire or the layer values it is computed from.

use vstd::prelude::*;
use vstd::string::*;

use crate::db;
use crate::db::{find_named, Db, Net};
use crate::placement;
use crate::placement::{pin_key, PinLoc};
use crate::rc::Rc;
use crate::table::Table;
use crate::text;
use crate::value::Double;

verus! {

/// A node of the network.
#[derive(Debug, Clone, Copy, PartialEq, Eq, PartialOrd, Ord, Structural)]
pub enum Node {
    /// A pin, by its number.
    Pin(u64),
    /// A Steiner point of the net or a point within a via chain, by its id.
    Sub(u32),
}

/// Half the capacitance of a wire that runs so far along x and along y, in database units, with
/// the capacitance per metre of horizontal and of vertical wire.
#[derive(Debug, Clone, Copy, PartialEq, Eq, Structural)]
pub struct HalfWire {
    pub along_x: i32,
    pub along_y: i32,
    pub h: Double,
    pub v: Double,
}

/// What a resistor's resistance is.
#[derive(Debug, PartialEq, Eq)]
pub enum Resistance {
    /// One milliohm: the two ends are at one place.
    Link,
    /// A cut layer's resistance, one milliohm at least.
    Cut(Double),
    /// The mean of cut layers' resistances, 0 where there is none, one milliohm at least.
    AverageCut(Vec<Double>),
    /// A wire that runs so far along x and along y, in database units, with the resistance per
    /// metre of horizontal and of vertical wire; divided by the first of `rule`'s widths over the
    /// second, where the net has a rule.
    Wire { along_x: i32, along_y: i32, h: Double, v: Double, rule: Option<(i32, i32)> },
}

/// A [`Resistance`] with its list as a sequence.
pub enum ResistanceView {
    Link,
    Cut(Double),
    AverageCut(Seq<Double>),
    Wire { along_x: i32, along_y: i32, h: Double, v: Double, rule: Option<(i32, i32)> },
}

impl View for Resistance {
    type V = ResistanceView;

    open spec fn view(&self) -> ResistanceView {
        match self {
            Resistance::Link => ResistanceView::Link,
            Resistance::Cut(d) => ResistanceView::Cut(*d),
            Resistance::AverageCut(v) => ResistanceView::AverageCut(v@),
            Resistance::Wire { along_x, along_y, h, v, rule } => ResistanceView::Wire {
                along_x: *along_x,
                along_y: *along_y,
                h: *h,
                v: *v,
                rule: *rule,
            },
        }
    }
}

/// A resistor between two nodes.
#[derive(Debug, PartialEq, Eq)]
pub struct Resistor {
    pub from: Node,
    pub to: Node,
    pub value: Resistance,
}

/// A [`Resistor`] with its list as a sequence.
pub struct ResistorView {
    pub from: Node,
    pub to: Node,
    pub value: ResistanceView,
}

impl View for Resistor {
    type V = ResistorView;

    open spec fn view(&self) -> ResistorView {
        ResistorView { from: self.from, to: self.to, value: self.value@ }
    }
}

/// Resistors with their lists as sequences.
pub open spec fn resistors_view(s: Seq<Resistor>) -> Seq<ResistorView> {
    Seq::new(s.len(), |i: int| s[i]@)
}

/// A pin node.
#[derive(Debug, PartialEq, Eq)]
pub struct PinNode {
    /// `inst/term` or the port's name.
    pub name: String,
    pub is_port: bool,
    /// The terminal's LEF IO type.
    pub io_type: String,
    /// The instance's master; empty for a port.
    pub master: String,
    /// The capacitance at the node: the sum of these.
    pub cap: Vec<HalfWire>,
}

/// A [`PinNode`] with its texts and its list as sequences.
pub struct PinNodeView {
    pub name: Seq<char>,
    pub is_port: bool,
    pub io_type: Seq<char>,
    pub master: Seq<char>,
    pub cap: Seq<HalfWire>,
}

impl View for PinNode {
    type V = PinNodeView;

    open spec fn view(&self) -> PinNodeView {
        PinNodeView {
            name: self.name@,
            is_port: self.is_port,
            io_type: self.io_type@,
            master: self.master@,
            cap: self.cap@,
        }
    }
}

/// The RC network of a net.
pub struct Parasitic {
    /// The pin nodes by number.
    pub pin_nodes: Table<PinNode>,
    /// The Steiner nodes by id, each with the terms whose sum is its capacitance.
    pub sub_nodes: Table<Vec<HalfWire>>,
    /// The resistors in the order they were made.
    pub resistors: Vec<Resistor>,
}

/// A [`Parasitic`] as maps and a sequence.
pub struct ParasiticView {
    pub pin_nodes: Map<int, PinNodeView>,
    pub sub_nodes: Map<int, Seq<HalfWire>>,
    pub resistors: Seq<ResistorView>,
}

impl View for Parasitic {
    type V = ParasiticView;

    open spec fn view(&self) -> ParasiticView {
        ParasiticView {
            pin_nodes: self.pin_nodes@,
            sub_nodes: self.sub_nodes@,
            resistors: resistors_view(self.resistors@),
        }
    }
}

impl ParasiticView {
    /// A network of nothing.
    pub open spec fn empty() -> ParasiticView {
        ParasiticView { pin_nodes: Map::empty(), sub_nodes: Map::empty(), resistors: Seq::empty() }
    }

    /// The node is in the network.
    pub open spec fn holds(self, n: Node) -> bool {
        match n {
            Node::Pin(k) => self.pin_nodes.contains_key(k as int),
            Node::Sub(id) => self.sub_nodes.contains_key(id as int),
        }
    }

    /// Every resistor joins two nodes of the network.
    pub open spec fn closed(self) -> bool {
        forall|i: int|
            0 <= i < self.resistors.len() ==> self.holds((#[trigger] self.resistors[i]).from)
                && self.holds(self.resistors[i].to)
    }

    /// No pin node has capacitance.
    pub open spec fn bare_pins(self) -> bool {
        forall|k: int| #[trigger]
            self.pin_nodes.contains_key(k) ==> self.pin_nodes[k].cap.len() == 0
    }

    /// The network with a Steiner node of that id, without capacitance where it had none.
    pub open spec fn with_sub(self, id: u32) -> ParasiticView {
        if self.sub_nodes.contains_key(id as int) {
            self
        } else {
            ParasiticView { sub_nodes: self.sub_nodes.insert(id as int, Seq::empty()), ..self }
        }
    }

    /// The network with more capacitance at a node.
    pub open spec fn with_cap(self, n: Node, c: HalfWire) -> ParasiticView {
        match n {
            Node::Sub(id) => ParasiticView {
                sub_nodes: self.sub_nodes.insert(id as int, self.sub_nodes[id as int].push(c)),
                ..self
            },
            Node::Pin(k) => ParasiticView {
                pin_nodes: self.pin_nodes.insert(
                    k as int,
                    PinNodeView {
                        cap: self.pin_nodes[k as int].cap.push(c),
                        ..self.pin_nodes[k as int]
                    },
                ),
                ..self
            },
        }
    }

    /// The network with one more resistor.
    pub open spec fn with_resistor(self, from: Node, to: Node, value: ResistanceView) -> ParasiticView {
        ParasiticView { resistors: self.resistors.push(ResistorView { from, to, value }), ..self }
    }

    /// The network with the pin's node, as it is where there is one of that number.
    pub open spec fn with_pin(self, net: Net, pin: PinLoc, key: u64) -> ParasiticView {
        if self.pin_nodes.contains_key(key as int) {
            self
        } else {
            ParasiticView {
                pin_nodes: self.pin_nodes.insert(key as int, pin_node(net, pin)),
                ..self
            }
        }
    }
}

/// The node of a pin.
pub open spec fn pin_node(net: Net, pin: PinLoc) -> PinNodeView {
    PinNodeView {
        name: pin.name@,
        is_port: pin.is_port,
        io_type: if pin.is_port {
            match db::first_named(net.bterms@, pin.name@) {
                Some(t) => t.io_type@,
                None => Seq::empty(),
            }
        } else {
            match db::first_named(net.iterms@, pin.name@) {
                Some(t) => t.io_type@,
                None => Seq::empty(),
            }
        },
        master: if pin.is_port {
            Seq::empty()
        } else {
            match db::first_named(net.iterms@, pin.name@) {
                Some(t) => t.master@,
                None => Seq::empty(),
            }
        },
        cap: Seq::empty(),
    }
}

fn copy_terms(v: &Vec<HalfWire>) -> (r: Vec<HalfWire>)
    ensures
        r@ == v@,
{
    let n: usize = v.len();
    let mut out: Vec<HalfWire> = Vec::new();
    let mut i: usize = 0;
    while i < n
        invariant
            n == v@.len(),
            i <= n,
            out@ == v@.take(i as int),
        decreases n - i,
    {
        out.push(v[i]);
        i = i + 1;
        assert(out@ =~= v@.take(i as int));
    }
    assert(out@ =~= v@);
    out
}

impl Parasitic {
    /// The tables are in order.
    pub open spec fn wf(&self) -> bool {
        self.pin_nodes.wf() && self.sub_nodes.wf()
    }

    pub fn new() -> (r: Parasitic)
        ensures
            r.wf(),
            r@ == ParasiticView::empty(),
    {
        let r = Parasitic { pin_nodes: Table::new(), sub_nodes: Table::new(), resistors: Vec::new() };
        assert(resistors_view(r.resistors@) =~= Seq::empty());
        r
    }

    /// Makes a Steiner node of that id, where there is none.
    pub fn ensure_sub(&mut self, id: u32) -> (r: Node)
        requires
            old(self).wf(),
        ensures
            final(self).wf(),
            final(self)@ == old(self)@.with_sub(id),
            r == Node::Sub(id),
    {
        if self.sub_nodes.get(id as i128).is_none() {
            let none: Vec<HalfWire> = Vec::new();
            self.sub_nodes.set(id as i128, none);
        }
        Node::Sub(id)
    }

    /// Adds capacitance to a node of the network.
    pub fn incr_cap(&mut self, n: Node, cap: HalfWire)
        requires
            old(self).wf(),
            old(self)@.holds(n),
        ensures
            final(self).wf(),
            final(self)@ == old(self)@.with_cap(n, cap),
    {
        match n {
            Node::Sub(id) => {
                if let Some(terms) = self.sub_nodes.get(id as i128) {
                    let mut more = copy_terms(terms);
                    more.push(cap);
                    self.sub_nodes.set(id as i128, more);
                }
            },
            Node::Pin(k) => {
                if let Some(p) = self.pin_nodes.get(k as i128) {
                    let mut more = copy_terms(&p.cap);
                    more.push(cap);
                    let node = PinNode {
                        name: p.name.clone(),
                        is_port: p.is_port,
                        io_type: p.io_type.clone(),
                        master: p.master.clone(),
                        cap: more,
                    };
                    self.pin_nodes.set(k as i128, node);
                }
            },
        }
    }

    /// Makes a resistor.
    pub fn make_resistor(&mut self, from: Node, to: Node, value: Resistance)
        requires
            old(self).wf(),
        ensures
            final(self).wf(),
            final(self)@ == old(self)@.with_resistor(from, to, value@),
    {
        self.resistors.push(Resistor { from, to, value });
        assert(resistors_view(self.resistors@) =~= resistors_view(old(self).resistors@).push(
            ResistorView { from, to, value: value@ },
        ));
    }

    /// Makes the pin's node, where there is none of its number.
    pub fn ensure_pin(&mut self, net: &Net, pin: &PinLoc) -> (r: Result<Node, String>)
        requires
            old(self).wf(),
        ensures
            final(self).wf(),
            match placement::key_of(*net, *pin) {
                Ok(key) => final(self)@ == old(self)@.with_pin(*net, *pin, key) && r == Ok::<
                    Node,
                    String,
                >(Node::Pin(key)),
                Err(e) => *final(self) == *old(self) && text::outcome(r) == Err::<Node, Seq<char>>(e),
            },
    {
        match pin_key(net, pin) {
            Err(e) => Err(e),
            Ok(key) => {
                if self.pin_nodes.get(key as i128).is_none() {
                    let (io_type, master) = if pin.is_port {
                        match find_named(&net.bterms, pin.name.as_str()) {
                            Some(t) => (t.io_type.clone(), String::new()),
                            None => (String::new(), String::new()),
                        }
                    } else {
                        match find_named(&net.iterms, pin.name.as_str()) {
                            Some(t) => (t.io_type.clone(), t.master.clone()),
                            None => (String::new(), String::new()),
                        }
                    };
                    let node = PinNode {
                        name: pin.name.clone(),
                        is_port: pin.is_port,
                        io_type,
                        master,
                        cap: Vec::new(),
                    };
                    assert(node@ == pin_node(*net, *pin)) by {
                        assert(node.cap@ =~= Seq::empty());
                    }
                    self.pin_nodes.set(key as i128, node);
                }
                Ok(Node::Pin(key))
            },
        }
    }

    /// The terms of every node's capacitance, Steiner nodes by id and then pin nodes by number: the
    /// network's capacitance is the sum of the nodes' sums, taken in this order.
    pub fn capacitance(&self) -> (r: Vec<Vec<HalfWire>>)
        requires
            self.wf(),
        ensures
            terms_view(r@) == self.node_terms(),
    {
        let (n, m): (usize, usize) = (self.sub_nodes.len(), self.pin_nodes.len());
        let mut out: Vec<Vec<HalfWire>> = Vec::new();
        let mut i: usize = 0;
        assert(terms_view(out@) =~= self.node_terms().take(0));
        while i < n
            invariant
                self.wf(),
                n == self.sub_nodes.order().len(),
                i <= n,
                terms_view(out@) == self.node_terms().take(i as int),
            decreases n - i,
        {
            let ghost before = out@;
            out.push(copy_terms(self.sub_nodes.value_at(i)));
            i = i + 1;
            assert(terms_view(out@) =~= terms_view(before).push(out@[i - 1]@));
            assert(terms_view(out@) =~= self.node_terms().take(i as int));
        }
        let mut j: usize = 0;
        while j < m
            invariant
                self.wf(),
                n == self.sub_nodes.order().len(),
                m == self.pin_nodes.order().len(),
                j <= m,
                terms_view(out@) == self.node_terms().take(n + j),
            decreases m - j,
        {
            let ghost before = out@;
            out.push(copy_terms(&self.pin_nodes.value_at(j).cap));
            j = j + 1;
            assert(terms_view(out@) =~= terms_view(before).push(out@[n + j - 1]@));
            assert(terms_view(out@) =~= self.node_terms().take(n + j));
        }
        assert(self.node_terms().take(n + m) =~= self.node_terms());
        out
    }

    /// The terms of every node's capacitance, Steiner nodes by id and then pin nodes by number.
    pub open spec fn node_terms(&self) -> Seq<Seq<HalfWire>> {
        Seq::new(
            self.sub_nodes.order().len(),
            |i: int| self.sub_nodes@[self.sub_nodes.order()[i]],
        ) + Seq::new(
            self.pin_nodes.order().len(),
            |i: int| self.pin_nodes@[self.pin_nodes.order()[i]].cap,
        )
    }
}

/// Lists of terms as sequences.
pub open spec fn terms_view(s: Seq<Vec<HalfWire>>) -> Seq<Seq<HalfWire>> {
    Seq::new(s.len(), |i: int| s[i]@)
}

/// What the network of a net is made from beyond its tree.
pub struct NetCtx<'a> {
    pub db: &'a Db,
    pub rc: &'a Rc,
    pub tech: &'a str,
    pub corner: usize,
    pub is_clk: bool,
}

} // verus!
