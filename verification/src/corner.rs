//! A corner's SPEF: the header, then the network of every net that has one.

use vstd::prelude::*;
use vstd::string::*;

use crate::db;
use crate::db::{find_named, Db, Net};
use crate::network::{NetCtx, Parasitic, ParasiticView};
use crate::placement;
use crate::placement::{Decision, DecisionView, NetEstimate, NetEstimateView};
use crate::rc::Rc;
use crate::spef;
use crate::spef::{header, write_net, NetValues, SpefUnits};
use crate::steiner;
use crate::steiner::{is_sound, make_pad_parasitic, make_steiner_parasitic, CtxView};
use crate::text::framed;

verus! {

/// The decision can be made into a network: a tree is sound, and a pad net has two pins.
pub open spec fn drawable(d: DecisionView) -> bool {
    match d {
        DecisionView::Tree { tree, .. } => steiner::sound(tree),
        DecisionView::Pad { pins } => pins.len() >= 2,
        _ => true,
    }
}

/// Whether the decision can be made into a network.
pub fn is_drawable(d: &Decision) -> (r: bool)
    ensures
        r == drawable(d@),
{
    match d {
        Decision::Tree { tree, .. } => is_sound(tree),
        Decision::Pad { pins } => pins.len() >= 2,
        _ => true,
    }
}

/// The net of that name, or what is said where there is none.
pub open spec fn net_named(db: Db, name: Seq<char>) -> Result<Net, Seq<char>> {
    match db::first_named(db.nets@, name) {
        Some(net) => Ok(net),
        None => Err("net "@ + name + " is not of the design"@),
    }
}

/// The network of a net in a corner, or what is wrong; none where nothing is to be drawn. A net
/// with a tree takes the clock's wire RC where it is a clock that is no leaf.
pub open spec fn drawn(base: CtxView, n: NetEstimateView) -> Result<Option<ParasiticView>, Seq<char>> {
    match n.decision {
        DecisionView::Tree { tree, non_leaf_clock, .. } => match net_named(base.db, n.net) {
            Err(e) => Err(e),
            Ok(net) => match steiner::steiner_network(
                CtxView { is_clk: non_leaf_clock, ..base },
                net,
                tree,
            ) {
                Err(e) => Err(e),
                Ok(g) => Ok(Some(g)),
            },
        },
        DecisionView::Pad { pins } => match net_named(base.db, n.net) {
            Err(e) => Err(e),
            Ok(net) => match steiner::pad_network(net, pins) {
                Err(e) => Err(e),
                Ok(g) => Ok(Some(g)),
            },
        },
        _ => Ok(None),
    }
}

/// A network, where there is one, or what is wrong.
pub open spec fn drawn_view(r: Result<Option<Parasitic>, String>) -> Result<
    Option<ParasiticView>,
    Seq<char>,
> {
    match r {
        Ok(Some(g)) => Ok(Some(g@)),
        Ok(None) => Ok(None),
        Err(e) => Err(e@),
    }
}

/// The network of a net in a corner; none where nothing is to be drawn.
pub fn draw(db: &Db, rc: &Rc, tech: &str, corner: usize, n: &NetEstimate) -> (r: Result<
    Option<Parasitic>,
    String,
>)
    requires
        rc.wf(),
        drawable(n.decision@),
    ensures
        r matches Ok(Some(g)) ==> g.wf() && g@.closed(),
        drawn_view(r) == drawn(
            (CtxView { db: *db, rc: rc@, tech: tech@, corner: corner as int, is_clk: false }),
            n@,
        ),
{
    match &n.decision {
        Decision::Tree { tree, non_leaf_clock, .. } => match find_named(&db.nets, n.net.as_str()) {
            None => Err(framed("net ", n.net.as_str(), " is not of the design")),
            Some(net) => {
                let cx = NetCtx { db, rc, tech, corner, is_clk: *non_leaf_clock };
                match make_steiner_parasitic(&cx, net, tree) {
                    Err(e) => Err(e),
                    Ok(g) => Ok(Some(g)),
                }
            },
        },
        Decision::Pad { pins } => match find_named(&db.nets, n.net.as_str()) {
            None => Err(framed("net ", n.net.as_str(), " is not of the design")),
            Some(net) => match make_pad_parasitic(net, pins) {
                Err(e) => Err(e),
                Ok(g) => Ok(Some(g)),
            },
        },
        _ => Ok(None),
    }
}

/// What gives a network its values: it takes every network, and has a value of six digits for all
/// that is written.
pub open spec fn evaluates<V: Fn(&Parasitic) -> NetValues>(values: V) -> bool {
    &&& forall|g: Parasitic| g.wf() ==> #[trigger] call_requires(values, (&g,))
    &&& forall|g: Parasitic, v: NetValues|
        g.wf() && #[trigger] call_ensures(values, (&g,), v) ==> spef::values_fit(g, v)
}

/// `t` is the text of that network, with the values it is given.
pub open spec fn network_written<V: Fn(&Parasitic) -> NetValues>(
    values: V,
    net: Seq<char>,
    network: ParasiticView,
    t: Seq<char>,
) -> bool {
    exists|g: Parasitic, v: NetValues|
        g.wf() && g@ == network && #[trigger] call_ensures(values, (&g,), v) && t == spef::net_text(
            net,
            g,
            v,
        )
}

/// `t` is what is written of a net: its network's text, and nothing where it has none.
pub open spec fn net_written<V: Fn(&Parasitic) -> NetValues>(
    values: V,
    base: CtxView,
    n: NetEstimateView,
    t: Seq<char>,
) -> bool {
    match drawn(base, n) {
        Err(_) => false,
        Ok(None) => t == Seq::<char>::empty(),
        Ok(Some(network)) => network_written(values, n.net, network, t),
    }
}

/// Texts, one after the other.
pub open spec fn joined_texts(parts: Seq<Seq<char>>) -> Seq<char>
    decreases parts.len(),
{
    if parts.len() == 0 {
        Seq::empty()
    } else {
        joined_texts(parts.drop_last()) + parts.last()
    }
}

/// Each part is what is written of the net at its place.
pub open spec fn nets_written<V: Fn(&Parasitic) -> NetValues>(
    values: V,
    base: CtxView,
    nets: Seq<NetEstimateView>,
    parts: Seq<Seq<char>>,
) -> bool {
    &&& parts.len() == nets.len()
    &&& forall|i: int|
        0 <= i < nets.len() ==> #[trigger] net_written(values, base, nets[i], parts[i])
}

/// `t` is the text of a corner: the header and then what is written of each net in order.
pub open spec fn corner_written<V: Fn(&Parasitic) -> NetValues>(
    values: V,
    base: CtxView,
    nets: Seq<NetEstimateView>,
    units: SpefUnits,
    t: Seq<char>,
) -> bool {
    exists|parts: Seq<Seq<char>>| #[trigger]
        nets_written(values, base, nets, parts) && t == spef::header_text(base.db, units)
            + joined_texts(parts)
}

/// The first net whose network fails does so with that error.
pub open spec fn corner_fails(base: CtxView, nets: Seq<NetEstimateView>, e: Seq<char>) -> bool {
    exists|n: int| #[trigger] draws_to(base, nets, n) && drawn(base, nets[n]) == Err::<
        Option<ParasiticView>,
        Seq<char>,
    >(e)
}

/// The nets before that place are drawn without failure.
pub open spec fn draws_to(base: CtxView, nets: Seq<NetEstimateView>, n: int) -> bool {
    &&& 0 <= n < nets.len()
    &&& forall|i: int| 0 <= i < n ==> drawn(base, #[trigger] nets[i]) is Ok
}

/// A corner's SPEF text.
pub fn write_corner<V: Fn(&Parasitic) -> NetValues>(
    db: &Db,
    rc: &Rc,
    tech: &str,
    corner: usize,
    nets: &Vec<NetEstimate>,
    units: SpefUnits,
    values: &V,
) -> (r: Result<String, String>)
    requires
        rc.wf(),
        evaluates(*values),
        forall|i: int| 0 <= i < nets@.len() ==> drawable((#[trigger] nets@[i]).decision@),
    ensures
        ({
            let base = CtxView {
                db: *db,
                rc: rc@,
                tech: tech@,
                corner: corner as int,
                is_clk: false,
            };
            match r {
                Ok(t) => corner_written(*values, base, placement::estimates(nets@), units, t@),
                Err(e) => corner_fails(base, placement::estimates(nets@), e@),
            }
        }),
{
    let ghost base = CtxView {
        db: *db,
        rc: rc@,
        tech: tech@,
        corner: corner as int,
        is_clk: false,
    };
    let ghost all = placement::estimates(nets@);
    let mut t = header(db, units);
    let ghost mut parts: Seq<Seq<char>> = Seq::empty();
    let n: usize = nets.len();
    let mut i: usize = 0;
    assert(t@ =~= spef::header_text(*db, units) + joined_texts(parts));
    while i < n
        invariant
            rc.wf(),
            evaluates(*values),
            forall|i: int| 0 <= i < nets@.len() ==> drawable((#[trigger] nets@[i]).decision@),
            base == (CtxView {
                db: *db,
                rc: rc@,
                tech: tech@,
                corner: corner as int,
                is_clk: false,
            }),
            all == placement::estimates(nets@),
            n == nets@.len(),
            i <= n,
            parts.len() == i,
            forall|k: int| 0 <= k < i ==> #[trigger] net_written(*values, base, all[k], parts[k]),
            t@ == spef::header_text(*db, units) + joined_texts(parts),
        decreases n - i,
    {
        let e = &nets[i];
        let one = match draw(db, rc, tech, corner, e) {
            Err(err) => {
                proof {
                    assert(drawn(base, all[i as int]) == Err::<Option<ParasiticView>, Seq<char>>(
                        err@,
                    ));
                    assert forall|k: int| 0 <= k < i implies drawn(base, #[trigger] all[k]) is Ok by {
                        assert(net_written(*values, base, all[k], parts[k]));
                    }
                    assert(draws_to(base, all, i as int));
                }
                return Err(err);
            },
            Ok(None) => String::new(),
            Ok(Some(g)) => {
                proof {
                    lemma_ends_known(g);
                }
                let v = values(&g);
                let one = write_net(e.net.as_str(), &g, &v);
                assert(network_written(*values, e.net@, g@, one@));
                one
            },
        };
        t.append(one.as_str());
        proof {
            let before = parts;
            parts = parts.push(one@);
            assert(parts.drop_last() =~= before);
            assert(t@ =~= spef::header_text(*db, units) + joined_texts(parts));
            assert forall|k: int| 0 <= k < i + 1 implies #[trigger] net_written(
                *values,
                base,
                all[k],
                parts[k],
            ) by {
                if k < i {
                    assert(net_written(*values, base, all[k], before[k]));
                }
            }
        }
        i = i + 1;
    }
    assert(nets_written(*values, base, all, parts));
    Ok(t)
}

proof fn lemma_ends_known(g: Parasitic)
    requires
        g@.closed(),
    ensures
        spef::ends_known(g),
{
    assert forall|i: int| 0 <= i < g.resistors@.len() implies spef::end_known(
        g,
        (#[trigger] g.resistors@[i]).from,
    ) && spef::end_known(g, g.resistors@[i].to) by {
        assert(g@.resistors[i] == g.resistors@[i]@);
        assert(g@.holds(g@.resistors[i].from) && g@.holds(g@.resistors[i].to));
    }
}

/// Only a net with a tree and a pad net have a network: of every other net nothing is written, and
/// none of them fails.
pub proof fn law_other_nets_write_nothing<V: Fn(&Parasitic) -> NetValues>(
    values: V,
    base: CtxView,
    n: NetEstimateView,
)
    requires
        !(n.decision is Tree),
        !(n.decision is Pad),
    ensures
        drawn(base, n) == Ok::<Option<ParasiticView>, Seq<char>>(None),
        forall|t: Seq<char>| #[trigger] net_written(values, base, n, t) <==> t == Seq::<char>::empty(),
{
}

} // verus!
