//! What a net's SPEF text says, line by line.

use vstd::prelude::*;
use vstd::string::*;

use crate::db::Db;
use crate::network::{Node, Parasitic, PinNodeView};
use crate::spef;
use crate::spef::NetValues;
use crate::text;
use crate::text_laws;

verus! {

/// Texts, one behind the other.
pub open spec fn glued(parts: Seq<Seq<char>>) -> Seq<char>
    decreases parts.len(),
{
    if parts.len() == 0 {
        Seq::empty()
    } else {
        glued(parts.drop_last()) + parts.last()
    }
}

/// A name is escaped character by character: a backslash before `$`, all else as it is.
pub proof fn law_names_are_escaped_by_character(a: Seq<char>, b: Seq<char>, c: char)
    ensures
        spef::escaped(a + b) == spef::escaped(a) + spef::escaped(b),
        spef::escaped(seq!['$']) == seq!['\\', '$'],
        c != '$' ==> spef::escaped(seq![c]) == seq![c],
    decreases b.len(),
{
    let (one, other) = (seq!['$'], seq![c]);
    assert(one.drop_last() =~= Seq::empty());
    assert(other.drop_last() =~= Seq::empty());
    assert(spef::escaped(one.drop_last()) =~= Seq::empty());
    assert(spef::escaped(one) =~= seq!['\\', '$']);
    if c != '$' {
        assert(spef::escaped(other) =~= other);
    }
    if b.len() == 0 {
        assert(a + b =~= a);
        assert(spef::escaped(a) + spef::escaped(b) =~= spef::escaped(a));
    } else {
        law_names_are_escaped_by_character(a, b.drop_last(), c);
        assert((a + b).drop_last() =~= a + b.drop_last());
        assert((a + b).last() == b.last());
        assert(spef::escaped(a + b) =~= spef::escaped(a) + spef::escaped(b));
    }
}

/// An instance terminal's name has a colon in place of its last slash; a name without a slash stays.
pub proof fn law_last_slash_becomes_a_colon(inst: Seq<char>, term: Seq<char>)
    requires
        !term.contains('/'),
    ensures
        spef::colon_last(inst.push('/') + term) == inst.push(':') + term,
        spef::colon_last(term) == term,
{
    reveal_strlit(":");
    let s = inst.push('/') + term;
    let n = inst.len() as int;
    text_laws::law_a_text_is_split_at_its_last(s, '/');
    text_laws::law_a_text_is_split_at_its_last(term, '/');
    assert(s[n] == '/');
    let i = text::last_place(s, '/')->Some_0;
    if i > n {
        assert(term[i - n - 1] == '/');
    }
    assert(i == n) by {
        if i < n {
            assert(s[n] != '/');
        }
    }
    assert(s.take(n) + ":"@ + s.skip(n + 1) =~= inst.push(':') + term);
}

/// The places below `n` of the Steiner nodes that have a capacitance, in order.
pub open spec fn nodes_with_cap(v: NetValues, n: int) -> Seq<int>
    decreases n,
{
    if n <= 0 {
        Seq::empty()
    } else if v.caps@[n - 1] is Some {
        nodes_with_cap(v, n - 1).push(n - 1)
    } else {
        nodes_with_cap(v, n - 1)
    }
}

/// The line of a pin node: a port's own name and its direction; an instance terminal's name with a
/// colon, its direction and its master.
pub open spec fn pin_says(p: PinNodeView) -> Seq<char> {
    let io = if p.io_type == "INPUT"@ {
        "I"@
    } else if p.io_type == "OUTPUT"@ {
        "O"@
    } else {
        "B"@
    };
    if p.is_port {
        "*P "@ + spef::escaped(p.name) + " "@ + io + "\n"@
    } else {
        "*I "@ + spef::escaped(spef::colon_last(p.name)) + " "@ + io + " *D "@ + p.master + "\n"@
    }
}

/// The line of a Steiner node's capacitance, the one numbered `j + 1`.
pub open spec fn cap_says(net: Seq<char>, g: Parasitic, v: NetValues, j: int) -> Seq<char> {
    let i = nodes_with_cap(v, v.caps@.len() as int)[j];
    text::integer(j + 1) + " "@ + spef::escaped(net) + ":"@ + text::integer(
        g.sub_nodes.order()[i],
    ) + " "@ + spef::g6(v.caps@[i]->Some_0) + "\n"@
}

/// The name of a resistor's end.
pub open spec fn end_says(net: Seq<char>, g: Parasitic, n: Node) -> Seq<char> {
    match n {
        Node::Sub(id) => spef::escaped(net + ":"@ + text::integer(id as int)),
        Node::Pin(k) => {
            let p = g.pin_nodes@[k as int];
            if p.is_port {
                spef::escaped(p.name)
            } else {
                spef::escaped(spef::colon_last(p.name))
            }
        },
    }
}

/// The line of a resistor, the one numbered `j + 1`.
pub open spec fn res_says(net: Seq<char>, g: Parasitic, v: NetValues, j: int) -> Seq<char> {
    text::integer(j + 1) + " "@ + end_says(net, g, g.resistors@[j].from) + " "@ + end_says(
        net,
        g,
        g.resistors@[j].to,
    ) + " "@ + spef::g6(v.res@[j]) + "\n"@
}

proof fn lemma_glued(parts: Seq<Seq<char>>, more: Seq<char>)
    ensures
        glued(parts.push(more)) == glued(parts) + more,
{
    assert(parts.push(more).drop_last() =~= parts);
}

proof fn lemma_conn_lines(g: Parasitic, n: int)
    requires
        0 <= n,
    ensures
        spef::conn_lines(g, n) == glued(
            Seq::new(n as nat, |i: int| pin_says(g.pin_nodes@[g.pin_nodes.order()[i]])),
        ),
    decreases n,
{
    let f = |i: int| pin_says(g.pin_nodes@[g.pin_nodes.order()[i]]);
    if n > 0 {
        lemma_conn_lines(g, n - 1);
        let before = Seq::new((n - 1) as nat, f);
        let p = g.pin_nodes@[g.pin_nodes.order()[n - 1]];
        assert(spef::conn_line(p) == pin_says(p));
        lemma_glued(before, pin_says(p));
        assert(Seq::new(n as nat, f) =~= before.push(pin_says(p)));
    } else {
        assert(Seq::new(0, f) =~= Seq::empty());
    }
}

proof fn lemma_caps_count(v: NetValues, n: int)
    ensures
        spef::caps_count(v, n) == nodes_with_cap(v, n).len(),
    decreases n,
{
    if n > 0 {
        lemma_caps_count(v, n - 1);
    }
}

/// The line of the Steiner node at place `i`, as the one numbered `j + 1`.
spec fn cap_at_says(net: Seq<char>, g: Parasitic, v: NetValues, i: int, j: int) -> Seq<char> {
    text::integer(j + 1) + " "@ + spef::escaped(net) + ":"@ + text::integer(
        g.sub_nodes.order()[i],
    ) + " "@ + spef::g6(v.caps@[i]->Some_0) + "\n"@
}

proof fn lemma_cap_lines(net: Seq<char>, g: Parasitic, v: NetValues, n: int)
    requires
        0 <= n,
    ensures
        spef::cap_lines(net, g, v, n) == glued(
            Seq::new(
                nodes_with_cap(v, n).len(),
                |j: int| cap_at_says(net, g, v, nodes_with_cap(v, n)[j], j),
            ),
        ),
    decreases n,
{
    let nodes = nodes_with_cap(v, n);
    let all = Seq::new(nodes.len(), |j: int| cap_at_says(net, g, v, nodes[j], j));
    if n > 0 {
        lemma_cap_lines(net, g, v, n - 1);
        lemma_caps_count(v, n);
        let fewer = nodes_with_cap(v, n - 1);
        let before = Seq::new(fewer.len(), |j: int| cap_at_says(net, g, v, fewer[j], j));
        if v.caps@[n - 1] is Some {
            let more = cap_at_says(net, g, v, n - 1, fewer.len() as int);
            lemma_glued(before, more);
            assert(all =~= before.push(more));
        } else {
            assert(all =~= before);
        }
    } else {
        assert(all =~= Seq::empty());
    }
}

proof fn lemma_res_lines(net: Seq<char>, g: Parasitic, v: NetValues, n: int)
    requires
        0 <= n,
    ensures
        spef::res_lines(net, g, v, n) == glued(
            Seq::new(n as nat, |j: int| res_says(net, g, v, j)),
        ),
    decreases n,
{
    let f = |j: int| res_says(net, g, v, j);
    if n > 0 {
        lemma_res_lines(net, g, v, n - 1);
        let before = Seq::new((n - 1) as nat, f);
        let r = g.resistors@[n - 1];
        assert(spef::node_name(net, g, r.from) == end_says(net, g, r.from));
        assert(spef::node_name(net, g, r.to) == end_says(net, g, r.to));
        lemma_glued(before, res_says(net, g, v, n - 1));
        assert(Seq::new(n as nat, f) =~= before.push(res_says(net, g, v, n - 1)));
    } else {
        assert(Seq::new(0, f) =~= Seq::empty());
    }
}

/// A net's text is its name and its whole capacitance; then a line for each pin node by number; then,
/// where any Steiner node has capacitance, a line for each that has, by id, numbered from 1 without a
/// gap; then, where there are resistors, a line for each in the order it was made, numbered from 1,
/// with its two ends and its resistance; then its end.
pub proof fn law_text_of_a_network(net: Seq<char>, g: Parasitic, v: NetValues)
    ensures
        ({
            let pins = Seq::new(
                g.pin_nodes.order().len(),
                |i: int| pin_says(g.pin_nodes@[g.pin_nodes.order()[i]]),
            );
            let nodes = nodes_with_cap(v, v.caps@.len() as int);
            let caps = Seq::new(nodes.len(), |j: int| cap_says(net, g, v, j));
            let res = Seq::new(v.res@.len(), |j: int| res_says(net, g, v, j));
            spef::net_text(net, g, v) == "*D_NET "@ + spef::escaped(net) + " "@ + spef::g6(v.total)
                + "\n*CONN\n"@ + glued(pins) + (if caps.len() > 0 {
                "*CAP\n"@ + glued(caps)
            } else {
                Seq::empty()
            }) + (if res.len() > 0 {
                "*RES\n"@ + glued(res)
            } else {
                Seq::empty()
            }) + "*END\n\n"@
        }),
{
    let n = v.caps@.len() as int;
    lemma_conn_lines(g, g.pin_nodes.order().len() as int);
    lemma_cap_lines(net, g, v, n);
    lemma_caps_count(v, n);
    lemma_res_lines(net, g, v, v.res@.len() as int);
    let nodes = nodes_with_cap(v, n);
    assert(Seq::new(nodes.len(), |j: int| cap_at_says(net, g, v, nodes[j], j)) =~= Seq::new(
        nodes.len(),
        |j: int| cap_says(net, g, v, j),
    ));
}

/// The Steiner nodes that have a line are those that have a capacitance, each once and in order.
pub proof fn law_every_capacitance_has_a_line(v: NetValues, n: int)
    requires
        0 <= n <= v.caps@.len(),
    ensures
        forall|i: int|
            0 <= i < n ==> (nodes_with_cap(v, n).contains(i) <==> (#[trigger] v.caps@[i]) is Some),
        forall|j: int|
            0 <= j < nodes_with_cap(v, n).len() ==> 0 <= #[trigger] nodes_with_cap(v, n)[j] < n,
        forall|j: int, k: int|
            0 <= j < k < nodes_with_cap(v, n).len() ==> #[trigger] nodes_with_cap(v, n)[j]
                < #[trigger] nodes_with_cap(v, n)[k],
    decreases n,
{
    if n > 0 {
        law_every_capacitance_has_a_line(v, n - 1);
        let before = nodes_with_cap(v, n - 1);
        let all = nodes_with_cap(v, n);
        assert forall|i: int| 0 <= i < n implies (all.contains(i) <==> (
        #[trigger] v.caps@[i]) is Some) by {
            if before.contains(i) {
                let k = choose|k: int| 0 <= k < before.len() && before[k] == i;
                assert(all[k] == i);
            }
            if all.contains(i) && i < n - 1 {
                let k = choose|k: int| 0 <= k < all.len() && all[k] == i;
                assert(before[k] == i);
            }
            if i == n - 1 {
                if v.caps@[i] is Some {
                    assert(all[before.len() as int] == i);
                } else if all.contains(i) {
                    let k = choose|k: int| 0 <= k < all.len() && all[k] == i;
                    assert(before[k] < n - 1);
                }
            }
        }
    }
}

/// The header's ports are the block's, in order: each port's name and its direction.
pub proof fn law_ports_of_the_header(db: Db, n: int)
    requires
        0 <= n < db.ports@.len(),
    ensures
        spef::port_lines(db, 0).len() == 0,
        spef::port_lines(db, n + 1) == spef::port_lines(db, n) + (spef::escaped(db.ports@[n].name@)
            + " "@ + (if db.ports@[n].io_type@ == "INPUT"@ {
            "I"@
        } else if db.ports@[n].io_type@ == "OUTPUT"@ {
            "O"@
        } else {
            "B"@
        }) + "\n"@),
{
}

} // verus!
