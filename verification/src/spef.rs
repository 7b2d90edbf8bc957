//! The SPEF text: a header with the timer's units and the block's ports, then every net's network
//! in the order it is kept.
//!
//! Values come rounded to six significant digits, divided by their unit already.

use vstd::prelude::*;
use vstd::string::*;

use crate::db::Db;
use crate::network::{Node, Parasitic, PinNode, PinNodeView};
use crate::number;
use crate::number::{fmt_g, Decimal};
use crate::text;
use crate::text::{chars_of, find_last, framed, same, slice_text, to_capitals};

verus! {

/// A unit's SI prefix.
#[derive(Debug, Clone, Copy, PartialEq, Eq, Structural)]
pub enum SiPrefix {
    Femto,
    Pico,
    Nano,
    Micro,
    Milli,
    /// The unit itself, or a scale that no prefix names.
    One,
    Kilo,
    Mega,
}

/// The timer's units.
#[derive(Debug, Clone, Copy, PartialEq, Eq, Structural)]
pub struct SpefUnits {
    pub time: SiPrefix,
    pub capacitance: SiPrefix,
    pub resistance: SiPrefix,
}

/// `s` with a backslash before every `$`.
pub open spec fn escaped(s: Seq<char>) -> Seq<char>
    decreases s.len(),
{
    if s.len() == 0 {
        Seq::empty()
    } else if s.last() == '$' {
        escaped(s.drop_last()).push('\\').push('$')
    } else {
        escaped(s.drop_last()).push(s.last())
    }
}

/// `s` with a backslash before every `$`.
pub fn escape_special(s: &str) -> (r: String)
    ensures
        r@ == escaped(s@),
{
    let cs = chars_of(s);
    let n: usize = cs.len();
    let mut out = String::new();
    let mut i: usize = 0;
    while i < n
        invariant
            cs@ == s@,
            n == s@.len(),
            i <= n,
            out@ == escaped(s@.take(i as int)),
        decreases n - i,
    {
        assert(s@.take(i + 1).drop_last() =~= s@.take(i as int));
        if cs[i] == '$' {
            out.push('\\');
            out.push('$');
        } else {
            out.push(cs[i]);
        }
        i = i + 1;
    }
    assert(s@.take(n as int) =~= s@);
    out
}

/// `s` with its last `/` made into `:`.
pub open spec fn colon_last(s: Seq<char>) -> Seq<char> {
    match text::last_place(s, '/') {
        Some(i) => s.take(i) + ":"@ + s.skip(i + 1),
        None => s,
    }
}

/// `s` with its last `/` made into `:`.
pub fn fix_pin_delimiter(s: &str) -> (r: String)
    ensures
        r@ == colon_last(s@),
{
    let cs = chars_of(s);
    let n: usize = cs.len();
    match find_last(&cs, '/') {
        Some(i) => {
            let (before, behind) = (slice_text(&cs, 0, i), slice_text(&cs, i + 1, n));
            assert(s@.subrange(0, i as int) =~= s@.take(i as int));
            assert(s@.subrange(i + 1, n as int) =~= s@.skip(i + 1));
            framed(before.as_str(), ":", behind.as_str())
        },
        None => s.to_owned(),
    }
}

/// A direction's letter: `I` for an input, `O` for an output, else `B`.
pub open spec fn io_letter(io: Seq<char>) -> Seq<char> {
    if io == "INPUT"@ {
        "I"@
    } else if io == "OUTPUT"@ {
        "O"@
    } else {
        "B"@
    }
}

/// A direction's letter.
pub fn io_text(io: &str) -> (r: &'static str)
    ensures
        r@ == io_letter(io@),
{
    if same(io, "INPUT") {
        "I"
    } else if same(io, "OUTPUT") {
        "O"
    } else {
        "B"
    }
}

/// A prefix's letter.
pub open spec fn prefix_letter(p: SiPrefix) -> Seq<char> {
    match p {
        SiPrefix::Femto => "f"@,
        SiPrefix::Pico => "p"@,
        SiPrefix::Nano => "n"@,
        SiPrefix::Micro => "u"@,
        SiPrefix::Milli => "m"@,
        SiPrefix::One => ""@,
        SiPrefix::Kilo => "k"@,
        SiPrefix::Mega => "M"@,
    }
}

/// A unit's name: its prefix's letter and its suffix, in capitals.
pub open spec fn unit_name(p: SiPrefix, suffix: Seq<char>) -> Seq<char> {
    text::capitals(prefix_letter(p) + suffix)
}

/// A unit's name. The suffix is of ASCII letters.
pub fn abbrev(p: SiPrefix, suffix: &str) -> (r: String)
    requires
        forall|i: int| 0 <= i < suffix@.len() ==> (#[trigger] suffix@[i]) as u32 <= 127,
    ensures
        r@ == unit_name(p, suffix@),
{
    let letter = match p {
        SiPrefix::Femto => "f",
        SiPrefix::Pico => "p",
        SiPrefix::Nano => "n",
        SiPrefix::Micro => "u",
        SiPrefix::Milli => "m",
        SiPrefix::One => "",
        SiPrefix::Kilo => "k",
        SiPrefix::Mega => "M",
    };
    let mut s = letter.to_owned();
    s.append(suffix);
    to_capitals(s.as_str())
}

/// The header's lines before the units.
pub open spec fn preamble(block: Seq<char>) -> Seq<char> {
    "*SPEF \"ieee 1481-1999\"\n*DESIGN \""@ + escaped(block)
        + "\"\n*DATE \"11:11:11 Fri 11 11, 1111\"\n*VENDOR \"The OpenROAD Project\"\n*PROGRAM \"OpenROAD\"\n*VERSION \"1.0\"\n*DESIGN_FLOW \"NAME_SCOPE LOCAL\" \"PIN_CAP NONE\"\n*DIVIDER /\n*DELIMITER :\n*BUS_DELIMITER []\n"@
}

/// The header's lines of the units.
pub open spec fn unit_lines(units: SpefUnits) -> Seq<char> {
    "*T_UNIT 1 "@ + unit_name(units.time, "s"@) + "\n*C_UNIT 1 "@ + unit_name(
        units.capacitance,
        "F"@,
    ) + "\n*R_UNIT 1 "@ + unit_name(units.resistance, "ohm"@) + "\n*L_UNIT 1 HENRY\n\n"@
}

/// A port's line.
pub open spec fn port_line(name: Seq<char>, io: Seq<char>) -> Seq<char> {
    escaped(name) + " "@ + io_letter(io) + "\n"@
}

/// The lines of the first `n` ports of the block.
pub open spec fn port_lines(db: Db, n: int) -> Seq<char>
    decreases n,
{
    if n <= 0 {
        Seq::empty()
    } else {
        port_lines(db, n - 1) + port_line(db.ports@[n - 1].name@, db.ports@[n - 1].io_type@)
    }
}

/// The header: the preamble, the units and the block's ports in order.
pub open spec fn header_text(db: Db, units: SpefUnits) -> Seq<char> {
    preamble(db.block_name@) + unit_lines(units) + "*PORTS\n"@ + port_lines(db, db.ports@.len() as int)
        + "\n"@
}

fn make_unit_lines(units: SpefUnits) -> (r: String)
    ensures
        r@ == unit_lines(units),
{
    proof {
        reveal_strlit("s");
        reveal_strlit("F");
        reveal_strlit("ohm");
    }
    let mut s = framed("*T_UNIT 1 ", abbrev(units.time, "s").as_str(), "\n*C_UNIT 1 ");
    s.append(abbrev(units.capacitance, "F").as_str());
    s.append("\n*R_UNIT 1 ");
    s.append(abbrev(units.resistance, "ohm").as_str());
    s.append("\n*L_UNIT 1 HENRY\n\n");
    s
}

/// The header, then the block's ports.
pub fn header(db: &Db, units: SpefUnits) -> (r: String)
    ensures
        r@ == header_text(*db, units),
{
    let mut t = framed(
        "*SPEF \"ieee 1481-1999\"\n*DESIGN \"",
        escape_special(db.block_name.as_str()).as_str(),
        "\"\n*DATE \"11:11:11 Fri 11 11, 1111\"\n*VENDOR \"The OpenROAD Project\"\n*PROGRAM \"OpenROAD\"\n*VERSION \"1.0\"\n*DESIGN_FLOW \"NAME_SCOPE LOCAL\" \"PIN_CAP NONE\"\n*DIVIDER /\n*DELIMITER :\n*BUS_DELIMITER []\n",
    );
    t.append(make_unit_lines(units).as_str());
    t.append("*PORTS\n");
    let n: usize = db.ports.len();
    let mut lines = String::new();
    let mut i: usize = 0;
    while i < n
        invariant
            n == db.ports@.len(),
            i <= n,
            lines@ == port_lines(*db, i as int),
        decreases n - i,
    {
        let p = &db.ports[i];
        let mut one = escape_special(p.name.as_str());
        one.append(" ");
        one.append(io_text(p.io_type.as_str()));
        one.append("\n");
        lines.append(one.as_str());
        i = i + 1;
    }
    t.append(lines.as_str());
    t.append("\n");
    t
}

/// The values of a network, each divided by its unit and rounded to six significant digits.
#[derive(Debug, PartialEq, Eq)]
pub struct NetValues {
    /// The capacitance of the network.
    pub total: Decimal,
    /// The capacitance of each Steiner node by id; `None` where it is 0.
    pub caps: Vec<Option<Decimal>>,
    /// The resistance of each resistor.
    pub res: Vec<Decimal>,
}

/// A value with six significant digits.
pub open spec fn g6(d: Decimal) -> Seq<char> {
    number::g_text(d@, 6)
}

/// Every resistor's end that is a pin is a pin node of the network.
pub open spec fn ends_known(g: Parasitic) -> bool {
    forall|i: int|
        0 <= i < g.resistors@.len() ==> end_known(g, (#[trigger] g.resistors@[i]).from) && end_known(
            g,
            g.resistors@[i].to,
        )
}

/// The node, where it is a pin, is a pin node of the network.
pub open spec fn end_known(g: Parasitic, n: Node) -> bool {
    n matches Node::Pin(k) ==> g.pin_nodes@.contains_key(k as int)
}

/// There is a value of six digits for the network, for each Steiner node and for each resistor.
pub open spec fn values_fit(g: Parasitic, v: NetValues) -> bool {
    &&& v.total@.wf(6)
    &&& v.caps@.len() == g.sub_nodes.order().len()
    &&& forall|i: int|
        0 <= i < v.caps@.len() ==> ((#[trigger] v.caps@[i]) matches Some(d) ==> d@.wf(6))
    &&& v.res@.len() == g.resistors@.len()
    &&& forall|i: int| 0 <= i < v.res@.len() ==> (#[trigger] v.res@[i])@.wf(6)
}

/// A pin node's name: a port's own, an instance terminal's with a colon.
pub open spec fn pin_name(p: PinNodeView) -> Seq<char> {
    if p.is_port {
        p.name
    } else {
        colon_last(p.name)
    }
}

/// A pin node's line.
pub open spec fn conn_line(p: PinNodeView) -> Seq<char> {
    if p.is_port {
        "*P "@ + escaped(pin_name(p)) + " "@ + io_letter(p.io_type) + "\n"@
    } else {
        "*I "@ + escaped(pin_name(p)) + " "@ + io_letter(p.io_type) + " *D "@ + p.master + "\n"@
    }
}

/// The lines of the first `n` pin nodes by number.
pub open spec fn conn_lines(g: Parasitic, n: int) -> Seq<char>
    decreases n,
{
    if n <= 0 {
        Seq::empty()
    } else {
        conn_lines(g, n - 1) + conn_line(g.pin_nodes@[g.pin_nodes.order()[n - 1]])
    }
}

/// How many of the first `n` Steiner nodes have capacitance.
pub open spec fn caps_count(v: NetValues, n: int) -> nat
    decreases n,
{
    if n <= 0 {
        0
    } else if v.caps@[n - 1] is Some {
        caps_count(v, n - 1) + 1
    } else {
        caps_count(v, n - 1)
    }
}

/// The lines of those of the first `n` Steiner nodes by id that have capacitance, numbered from 1.
pub open spec fn cap_lines(net: Seq<char>, g: Parasitic, v: NetValues, n: int) -> Seq<char>
    decreases n,
{
    if n <= 0 {
        Seq::empty()
    } else {
        match v.caps@[n - 1] {
            None => cap_lines(net, g, v, n - 1),
            Some(d) => cap_lines(net, g, v, n - 1) + (text::integer(caps_count(v, n) as int) + " "@
                + escaped(net) + ":"@ + text::integer(g.sub_nodes.order()[n - 1]) + " "@ + g6(d) + "\n"@),
        }
    }
}

/// A node's name: a Steiner node's is the net's, a colon and its id.
pub open spec fn node_name(net: Seq<char>, g: Parasitic, n: Node) -> Seq<char> {
    match n {
        Node::Sub(id) => escaped(net + ":"@ + text::integer(id as int)),
        Node::Pin(k) => escaped(pin_name(g.pin_nodes@[k as int])),
    }
}

/// The lines of the first `n` resistors, numbered from 1.
pub open spec fn res_lines(net: Seq<char>, g: Parasitic, v: NetValues, n: int) -> Seq<char>
    decreases n,
{
    if n <= 0 {
        Seq::empty()
    } else {
        res_lines(net, g, v, n - 1) + (text::integer(n) + " "@ + node_name(
            net,
            g,
            g.resistors@[n - 1].from,
        ) + " "@ + node_name(net, g, g.resistors@[n - 1].to) + " "@ + g6(v.res@[n - 1]) + "\n"@)
    }
}

/// `lines` under a label; nothing where there are none.
pub open spec fn labelled(label: Seq<char>, lines: Seq<char>, any: bool) -> Seq<char> {
    if any {
        label + lines
    } else {
        Seq::empty()
    }
}

/// A net's network as text.
pub open spec fn net_text(net: Seq<char>, g: Parasitic, v: NetValues) -> Seq<char> {
    "*D_NET "@ + escaped(net) + " "@ + g6(v.total) + "\n*CONN\n"@ + conn_lines(
        g,
        g.pin_nodes.order().len() as int,
    ) + labelled(
        "*CAP\n"@,
        cap_lines(net, g, v, v.caps@.len() as int),
        caps_count(v, v.caps@.len() as int) > 0,
    ) + labelled("*RES\n"@, res_lines(net, g, v, v.res@.len() as int), v.res@.len() > 0) + "*END\n\n"@
}

fn make_conn_lines(g: &Parasitic) -> (r: String)
    requires
        g.wf(),
    ensures
        r@ == conn_lines(*g, g.pin_nodes.order().len() as int),
{
    let n: usize = g.pin_nodes.len();
    let mut t = String::new();
    let mut i: usize = 0;
    while i < n
        invariant
            g.wf(),
            n == g.pin_nodes.order().len(),
            i <= n,
            t@ == conn_lines(*g, i as int),
        decreases n - i,
    {
        let p: &PinNode = g.pin_nodes.value_at(i);
        let io = io_text(p.io_type.as_str());
        let one = if p.is_port {
            let mut s = framed("*P ", escape_special(p.name.as_str()).as_str(), " ");
            s.append(io);
            s.append("\n");
            s
        } else {
            let name = fix_pin_delimiter(p.name.as_str());
            let mut s = framed("*I ", escape_special(name.as_str()).as_str(), " ");
            s.append(io);
            s.append(" *D ");
            s.append(p.master.as_str());
            s.append("\n");
            s
        };
        assert(one@ == conn_line(p@));
        t.append(one.as_str());
        i = i + 1;
    }
    t
}

fn make_cap_lines(net: &str, g: &Parasitic, v: &NetValues) -> (r: (String, u128))
    requires
        g.wf(),
        values_fit(*g, *v),
    ensures
        r.0@ == cap_lines(net@, *g, *v, v.caps@.len() as int),
        r.1 == caps_count(*v, v.caps@.len() as int),
{
    let n: usize = v.caps.len();
    let mut t = String::new();
    let mut count: u128 = 0;
    let mut i: usize = 0;
    while i < n
        invariant
            g.wf(),
            values_fit(*g, *v),
            n == v.caps@.len(),
            i <= n,
            count <= i,
            count == caps_count(*v, i as int),
            t@ == cap_lines(net@, *g, *v, i as int),
        decreases n - i,
    {
        match &v.caps[i] {
            None => {},
            Some(d) => {
                assert(v.caps@[i as int] == Some(*d));
                count = count + 1;
                let mut one = String::new();
                text::push_nat(&mut one, count);
                assert(one@ =~= text::integer(count as int));
                one.append(" ");
                one.append(escape_special(net).as_str());
                one.append(":");
                text::push_int(&mut one, g.sub_nodes.key_at(i));
                one.append(" ");
                one.append(fmt_g(d, 6).as_str());
                one.append("\n");
                t.append(one.as_str());
            },
        }
        i = i + 1;
    }
    (t, count)
}

fn make_node_name(net: &str, g: &Parasitic, n: Node) -> (r: String)
    requires
        g.wf(),
        end_known(*g, n),
    ensures
        r@ == node_name(net@, *g, n),
{
    match n {
        Node::Sub(id) => {
            let mut s = net.to_owned();
            s.append(":");
            text::push_int(&mut s, id as i128);
            escape_special(s.as_str())
        },
        Node::Pin(k) => match g.pin_nodes.get(k as i128) {
            Some(p) => {
                if p.is_port {
                    escape_special(p.name.as_str())
                } else {
                    escape_special(fix_pin_delimiter(p.name.as_str()).as_str())
                }
            },
            None => String::new(),
        },
    }
}

fn make_res_lines(net: &str, g: &Parasitic, v: &NetValues) -> (r: String)
    requires
        g.wf(),
        ends_known(*g),
        values_fit(*g, *v),
    ensures
        r@ == res_lines(net@, *g, *v, v.res@.len() as int),
{
    let n: usize = v.res.len();
    let mut t = String::new();
    let mut i: usize = 0;
    while i < n
        invariant
            g.wf(),
            ends_known(*g),
            values_fit(*g, *v),
            n == v.res@.len(),
            i <= n,
            t@ == res_lines(net@, *g, *v, i as int),
        decreases n - i,
    {
        let r = &g.resistors[i];
        let mut one = text::int_text(i as i128 + 1);
        one.append(" ");
        one.append(make_node_name(net, g, r.from).as_str());
        one.append(" ");
        one.append(make_node_name(net, g, r.to).as_str());
        one.append(" ");
        one.append(fmt_g(&v.res[i], 6).as_str());
        one.append("\n");
        t.append(one.as_str());
        i = i + 1;
    }
    t
}

/// A net's network as text: its pins, the Steiner nodes that have capacitance, and its resistors.
pub fn write_net(net: &str, g: &Parasitic, v: &NetValues) -> (r: String)
    requires
        g.wf(),
        ends_known(*g),
        values_fit(*g, *v),
    ensures
        r@ == net_text(net@, *g, *v),
{
    let mut t = framed("*D_NET ", escape_special(net).as_str(), " ");
    t.append(fmt_g(&v.total, 6).as_str());
    t.append("\n*CONN\n");
    t.append(make_conn_lines(g).as_str());
    let (lines, count) = make_cap_lines(net, g, v);
    let mut caps = String::new();
    if count > 0 {
        caps.append("*CAP\n");
        caps.append(lines.as_str());
        assert(caps@ =~= "*CAP\n"@ + lines@);
    }
    t.append(caps.as_str());
    let mut res = String::new();
    if v.res.len() > 0 {
        res.append("*RES\n");
        res.append(make_res_lines(net, g, v).as_str());
        assert(res@ =~= "*RES\n"@ + res_lines(net@, *g, *v, v.res@.len() as int));
    }
    t.append(res.as_str());
    t.append("*END\n\n");
    t
}

/// A name without `$` is written as it is.
pub proof fn law_plain_names_stay(s: Seq<char>)
    requires
        !s.contains('$'),
    ensures
        escaped(s) == s,
    decreases s.len(),
{
    if s.len() > 0 {
        let fewer = s.drop_last();
        assert forall|i: int| 0 <= i < fewer.len() implies fewer[i] != '$' by {
            assert(s[i] == fewer[i]);
            assert(s.contains(s[i]));
        }
        law_plain_names_stay(fewer);
        assert(s.contains(s.last()));
        assert(fewer.push(s.last()) =~= s);
    } else {
        assert(s =~= Seq::empty());
    }
}

/// Two names are never written alike.
pub proof fn law_escaped_names_differ(a: Seq<char>, b: Seq<char>)
    requires
        a != b,
    ensures
        escaped(a) != escaped(b),
    decreases a.len() + b.len(),
{
    if escaped(a) == escaped(b) {
        if a.len() == 0 || b.len() == 0 {
            assert(a.len() > 0 ==> escaped(a).len() > 0);
            assert(b.len() > 0 ==> escaped(b).len() > 0);
            assert(a =~= b);
        } else {
            let (x, y) = (a.drop_last(), b.drop_last());
            assert(escaped(a).last() == a.last());
            assert(escaped(b).last() == b.last());
            if a.last() == '$' {
                assert(escaped(a).drop_last().drop_last() =~= escaped(x));
                assert(escaped(b).drop_last().drop_last() =~= escaped(y));
            } else {
                assert(escaped(a).drop_last() =~= escaped(x));
                assert(escaped(b).drop_last() =~= escaped(y));
            }
            if x != y {
                law_escaped_names_differ(x, y);
            }
            assert(a =~= x.push(a.last()));
            assert(b =~= y.push(b.last()));
        }
    }
}

} // verus!
