//! What `set_wire_rc` does, told from its arguments and from what resolves after it.

use vstd::prelude::*;
use vstd::string::*;

use crate::args;
use crate::command_laws;
use crate::db;
use crate::db::Db;
use crate::layer_rc;
use crate::rc;
use crate::rc::{RcView, WireRcView};
use crate::text;
use crate::text_laws;
use crate::value::{Amount, Double, Quantity, HV};
use crate::wire_rc;
use crate::wire_rc::{WirePlanView, WireSourceView, WireValues};

verus! {

/// The options of `set_wire_rc` that have a value.
pub open spec fn wire_options() -> Seq<Seq<char>> {
    seq![
        "-layer"@,
        "-layers"@,
        "-resistance"@,
        "-capacitance"@,
        "-corner"@,
        "-h_resistance"@,
        "-h_capacitance"@,
        "-v_resistance"@,
        "-v_capacitance"@,
        "-tech"@,
    ]
}

/// The options of `set_wire_rc` that have none.
pub open spec fn bare_options() -> Seq<Seq<char>> {
    seq!["-clock"@, "-signal"@, "-data"@, "-redistribution_layer"@]
}

/// The place of an option's value among the arguments of `set_wire_rc`.
pub open spec fn wire_option(args: Seq<Seq<char>>, key: Seq<char>) -> Option<int> {
    args::given_at(args, wire_options(), key)
}

/// An option without a value is among the arguments of `set_wire_rc`.
pub open spec fn wire_flag(args: Seq<Seq<char>>, flag: Seq<char>) -> bool {
    args::flag_given(args, wire_options(), flag)
}

/// Signal nets are meant: by `-signal`, or where `-clock` is not given either.
pub open spec fn for_signals(args: Seq<Seq<char>>) -> bool {
    wire_flag(args, "-signal"@) || !wire_flag(args, "-clock"@)
}

/// Clocks are meant: by `-clock`, or where `-signal` is not given either.
pub open spec fn for_clocks(args: Seq<Seq<char>>) -> bool {
    wire_flag(args, "-clock"@) || !wire_flag(args, "-signal"@)
}

/// The technology whose entry is set: the one that `-tech` names, else the shared one.
pub open spec fn set_tech(args: Seq<Seq<char>>) -> Option<Seq<char>> {
    match wire_option(args, "-tech"@) {
        Some(p) => Some(args[p]),
        None => None,
    }
}

/// The corner is meant: by `-corner`, or where no corner is named.
pub open spec fn sets_corner(scenes: Seq<Seq<char>>, args: Seq<Seq<char>>, c: int) -> bool {
    command_laws::means_corner(scenes, args, wire_option(args, "-corner"@), c)
}

/// A technology's entry; one without a value or a layer where it has none.
pub open spec fn own_entry(wire: Map<Option<Seq<char>>, WireRcView>, tech: Option<Seq<char>>) -> WireRcView {
    if wire.contains_key(tech) {
        wire[tech]
    } else {
        WireRcView {
            signal_res: Seq::empty(),
            signal_cap: Seq::empty(),
            clk_res: Seq::empty(),
            clk_cap: Seq::empty(),
            signal_layers: Seq::empty(),
            clk_layers: Seq::empty(),
        }
    }
}

/// The keys that were got are the options that are given.
spec fn keys_are_options(args: Seq<Seq<char>>, keys: Map<Seq<char>, int>) -> bool {
    forall|key: Seq<char>|
        wire_options().contains(key) ==> (#[trigger] keys.contains_key(key) <==> wire_option(
            args,
            key,
        ) is Some) && (keys.contains_key(key) ==> wire_option(args, key) == Some(keys[key]) && 0
            < keys[key] < args.len())
}

proof fn lemma_option_names()
    ensures
        wire_options().contains("-layer"@),
        wire_options().contains("-layers"@),
        wire_options().contains("-resistance"@),
        wire_options().contains("-capacitance"@),
        wire_options().contains("-corner"@),
        wire_options().contains("-h_resistance"@),
        wire_options().contains("-h_capacitance"@),
        wire_options().contains("-v_resistance"@),
        wire_options().contains("-v_capacitance"@),
        wire_options().contains("-tech"@),
{
    let s = wire_options();
    assert(s[0] == "-layer"@);
    assert(s[1] == "-layers"@);
    assert(s[2] == "-resistance"@);
    assert(s[3] == "-capacitance"@);
    assert(s[4] == "-corner"@);
    assert(s[5] == "-h_resistance"@);
    assert(s[6] == "-h_capacitance"@);
    assert(s[7] == "-v_resistance"@);
    assert(s[8] == "-v_capacitance"@);
    assert(s[9] == "-tech"@);
}

proof fn lemma_flag_names()
    ensures
        !wire_options().contains("-clock"@),
        !wire_options().contains("-signal"@),
        !wire_options().contains("-redistribution_layer"@),
{
    reveal_strlit("-layer");
    reveal_strlit("-layers");
    reveal_strlit("-resistance");
    reveal_strlit("-capacitance");
    reveal_strlit("-corner");
    reveal_strlit("-h_resistance");
    reveal_strlit("-h_capacitance");
    reveal_strlit("-v_resistance");
    reveal_strlit("-v_capacitance");
    reveal_strlit("-tech");
    reveal_strlit("-clock");
    reveal_strlit("-signal");
    reveal_strlit("-redistribution_layer");
    let s = wire_options();
    assert(s[0][1] == 'l' && s[1][1] == 'l' && s[2][3] == 's' && s[3][1] == 'c' && s[3][2] == 'a');
    assert(s[4][1] == 'c' && s[4][2] == 'o' && s[5][1] == 'h' && s[6][1] == 'h' && s[7][1] == 'v');
    assert(s[8][1] == 'v' && s[9][1] == 't');
    assert("-clock"@[1] == 'c' && "-clock"@[2] == 'l');
    assert("-signal"@[1] == 's');
    assert("-redistribution_layer"@[1] == 'r' && "-redistribution_layer"@[3] == 'd');
    assert(s[2][1] == 'r');
}

proof fn lemma_wire_options(args: Seq<Seq<char>>)
    ensures
        args::key_args(args, wire_rc::wire_keys(), wire_rc::wire_flags()) is Ok <==> args::all_known(
            args,
            wire_options(),
            bare_options(),
        ),
        args::key_args(args, wire_rc::wire_keys(), wire_rc::wire_flags()) matches Ok(given) ==> {
            &&& keys_are_options(args, given.keys)
            &&& given.flags.contains("-clock"@) <==> wire_flag(args, "-clock"@)
            &&& given.flags.contains("-signal"@) <==> wire_flag(args, "-signal"@)
            &&& given.flags.contains("-redistribution_layer"@) <==> wire_flag(
                args,
                "-redistribution_layer"@,
            )
        },
{
    let s = wire_options();
    assert(wire_rc::wire_keys() =~= s);
    assert(wire_rc::wire_flags() =~= bare_options());
    args::law_keys_and_flags_are_those_read(args, s, bare_options());
    lemma_flag_names();
}

proof fn lemma_spread_read(row: Seq<HV>, n: int, corner: Option<usize>, value: HV, c: int)
    requires
        corner matches Some(k) ==> k < n,
        0 <= c,
    ensures
        rc::hv_at(rc::spread(row, n, corner, value, HV::zero()), c) == if rc::chosen(corner, n, c) {
            value
        } else {
            rc::hv_at(row, c)
        },
{
    rc::law_spread_reads_back(row, n, corner, value, HV::zero(), c);
}

/// What a plan of the command takes from its arguments.
proof fn lemma_plan(
    old: RcView,
    db: Db,
    args: Seq<Seq<char>>,
    amounts: Seq<Option<Amount>>,
    plan: WirePlanView,
    c: int,
)
    requires
        old.scenes.len() <= usize::MAX,
        wire_rc::wire_command(old, db, args, amounts) == Ok::<WirePlanView, Seq<char>>(plan),
        0 <= c,
    ensures
        wire_rc::means_signal(plan) == for_signals(args),
        wire_rc::means_clk(plan) == for_clocks(args),
        plan.tech == set_tech(args),
        plan.tech matches Some(t) ==> t == db.tech_name@,
        plan.corner matches Some(k) ==> k < old.scenes.len(),
        plan.corner is Some <==> wire_option(args, "-corner"@) is Some,
        rc::chosen(plan.corner, old.scenes.len() as int, c) == sets_corner(old.scenes, args, c),
        args::key_args(args, wire_rc::wire_keys(), wire_rc::wire_flags()) matches Ok(given)
            && keys_are_options(args, given.keys) && layer_rc::named_corner(
            old.scenes,
            args,
            given.keys,
        ) == Ok::<Option<usize>, Seq<char>>(plan.corner),
{
    lemma_wire_options(args);
    lemma_option_names();
    let given = args::key_args(args, wire_rc::wire_keys(), wire_rc::wire_flags())->Ok_0;
    let keys = given.keys;
    assert(keys.contains_key("-corner"@) <==> wire_option(args, "-corner"@) is Some);
    assert(keys.contains_key("-tech"@) <==> wire_option(args, "-tech"@) is Some);
    if let Some(p) = wire_option(args, "-corner"@) {
        text_laws::law_place_is_the_first(old.scenes, args[p]);
        let k = plan.corner->Some_0;
        assert(text_laws::first_at(old.scenes, args[p], k as int));
        if text_laws::first_at(old.scenes, args[p], c) {
            if c < k {
                assert(old.scenes[c] != args[p]);
            } else if k < c {
                assert(old.scenes[k as int] != args[p]);
            }
        }
    }
}

/// `set_wire_rc` sets the entry of the technology that `-tech` names, which is the design's own, or
/// the shared one, and no other. In it, the lists of the nets that are meant read, in the corners
/// that are meant, the four values, each in its place; in every other corner, and in the lists of
/// the other nets, they read as before. No layer's own values change.
pub proof fn law_set_wire_rc_sets_what_is_meant(
    old: RcView,
    db: Db,
    args: Seq<Seq<char>>,
    amounts: Seq<Option<Amount>>,
    plan: WirePlanView,
    v: WireValues,
    c: int,
)
    requires
        old.scenes.len() <= usize::MAX,
        wire_rc::wire_command(old, db, args, amounts) == Ok::<WirePlanView, Seq<char>>(plan),
        0 <= c,
    ensures
        ({
            let new = wire_rc::wire_applied(old, plan, v);
            let tech = set_tech(args);
            let was = own_entry(old.wire_rc, tech);
            let is = own_entry(new.wire_rc, tech);
            let meant = sets_corner(old.scenes, args, c);
            let res = HV { h: v.h_res.stored, v: v.v_res.stored };
            let cap = HV { h: v.h_cap.stored, v: v.v_cap.stored };
            &&& tech matches Some(t) ==> t == db.tech_name@
            &&& forall|other: Option<Seq<char>>|
                other != tech ==> new.wire_rc.contains_key(other) == old.wire_rc.contains_key(other)
                    && own_entry(new.wire_rc, other) == #[trigger] own_entry(old.wire_rc, other)
            &&& rc::hv_at(is.signal_res, c) == if for_signals(args) && meant {
                res
            } else {
                rc::hv_at(was.signal_res, c)
            }
            &&& rc::hv_at(is.signal_cap, c) == if for_signals(args) && meant {
                cap
            } else {
                rc::hv_at(was.signal_cap, c)
            }
            &&& rc::hv_at(is.clk_res, c) == if for_clocks(args) && meant {
                res
            } else {
                rc::hv_at(was.clk_res, c)
            }
            &&& rc::hv_at(is.clk_cap, c) == if for_clocks(args) && meant {
                cap
            } else {
                rc::hv_at(was.clk_cap, c)
            }
            &&& new.scenes == old.scenes
            &&& new.layer_res == old.layer_res
            &&& new.layer_cap == old.layer_cap
        }),
{
    lemma_plan(old, db, args, amounts, plan, c);
    let n = old.scenes.len() as int;
    let was = own_entry(old.wire_rc, plan.tech);
    let res = HV { h: v.h_res.stored, v: v.v_res.stored };
    let cap = HV { h: v.h_cap.stored, v: v.v_cap.stored };
    lemma_spread_read(was.signal_res, n, plan.corner, res, c);
    lemma_spread_read(was.signal_cap, n, plan.corner, cap, c);
    lemma_spread_read(was.clk_res, n, plan.corner, res, c);
    lemma_spread_read(was.clk_cap, n, plan.corner, cap, c);
}

/// What an option gives, or else what the option for both directions gives, or else 0: a resistance
/// per metre.
pub open spec fn res_given(amounts: Seq<Option<Amount>>, own: Option<int>, both: Option<int>, q: Quantity) -> bool {
    &&& own matches Some(p) ==> amounts[p] is Some && q == amounts[p]->Some_0.ohm_per_metre
    &&& own is None ==> {
        &&& both matches Some(p) ==> amounts[p] is Some && q == amounts[p]->Some_0.ohm_per_metre
        &&& both is None ==> q.given.bits == 0 && q.stored.bits == 0
    }
}

/// What an option gives, or else what the option for both directions gives, or else 0: a
/// capacitance per metre.
pub open spec fn cap_given(amounts: Seq<Option<Amount>>, own: Option<int>, both: Option<int>, q: Quantity) -> bool {
    &&& own matches Some(p) ==> amounts[p] is Some && q == amounts[p]->Some_0.farad_per_metre
    &&& own is None ==> {
        &&& both matches Some(p) ==> amounts[p] is Some && q == amounts[p]->Some_0.farad_per_metre
        &&& both is None ==> q.given.bits == 0 && q.stored.bits == 0
    }
}

/// The entry that is set is the one that the current technology takes its list from: its own, or
/// the shared one where it has no such list of its own.
pub open spec fn set_for<C: rc::Category>(old: RcView, args: Seq<Seq<char>>, current: Seq<char>) -> bool {
    match set_tech(args) {
        Some(t) => t == current,
        None => !(old.wire_rc.contains_key(Some(current)) && C::of(
            old.wire_rc[Some(current)],
        ).len() > 0),
    }
}

/// Values given outright: where `set_wire_rc` is given neither `-layers` nor `-layer`, what resolves
/// after it for the nets and in the corner that it means has, each in its place, the amount behind
/// `-h_resistance`, `-v_resistance`, `-h_capacitance` and `-v_capacitance`; where one of them is not
/// given, the amount behind `-resistance` or `-capacitance`; and 0 where that is not given either.
pub proof fn law_values_given_outright_resolve<F: Fn(&Vec<Double>) -> Quantity>(
    old: RcView,
    db: Db,
    args: Seq<Seq<char>>,
    amounts: Seq<Option<Amount>>,
    mean: F,
    plan: WirePlanView,
    v: WireValues,
    current: Seq<char>,
    c: int,
)
    requires
        old.scenes.len() <= usize::MAX,
        wire_rc::wire_command(old, db, args, amounts) == Ok::<WirePlanView, Seq<char>>(plan),
        wire_rc::values_of(plan.source, mean, v),
        wire_option(args, "-layers"@) is None,
        wire_option(args, "-layer"@) is None,
        0 <= c,
    ensures
        ({
            let new = wire_rc::wire_applied(old, plan, v);
            let w = new.wire_rc;
            let both_res = wire_option(args, "-resistance"@);
            let both_cap = wire_option(args, "-capacitance"@);
            let meant = sets_corner(old.scenes, args, c);
            &&& res_given(amounts, wire_option(args, "-h_resistance"@), both_res, v.h_res)
            &&& res_given(amounts, wire_option(args, "-v_resistance"@), both_res, v.v_res)
            &&& cap_given(amounts, wire_option(args, "-h_capacitance"@), both_cap, v.h_cap)
            &&& cap_given(amounts, wire_option(args, "-v_capacitance"@), both_cap, v.v_cap)
            &&& meant && for_signals(args) && set_for::<rc::SignalRes>(old, args, current) ==> rc::hv_at(
                rc::resolved_list::<rc::SignalRes>(w, current),
                c,
            ) == (HV { h: v.h_res.stored, v: v.v_res.stored })
            &&& meant && for_signals(args) && set_for::<rc::SignalCap>(old, args, current) ==> rc::hv_at(
                rc::resolved_list::<rc::SignalCap>(w, current),
                c,
            ) == (HV { h: v.h_cap.stored, v: v.v_cap.stored })
            &&& meant && for_clocks(args) && set_for::<rc::ClkRes>(old, args, current) ==> rc::hv_at(
                rc::resolved_list::<rc::ClkRes>(w, current),
                c,
            ) == (HV { h: v.h_res.stored, v: v.v_res.stored })
            &&& meant && for_clocks(args) && set_for::<rc::ClkCap>(old, args, current) ==> rc::hv_at(
                rc::resolved_list::<rc::ClkCap>(w, current),
                c,
            ) == (HV { h: v.h_cap.stored, v: v.v_cap.stored })
            &&& own_entry(w, set_tech(args)).signal_layers == own_entry(
                old.wire_rc,
                set_tech(args),
            ).signal_layers
            &&& own_entry(w, set_tech(args)).clk_layers == own_entry(
                old.wire_rc,
                set_tech(args),
            ).clk_layers
        }),
{
    lemma_plan(old, db, args, amounts, plan, c);
    lemma_option_names();
    let given = args::key_args(args, wire_rc::wire_keys(), wire_rc::wire_flags())->Ok_0;
    let keys = given.keys;
    assert(keys.contains_key("-layers"@) <==> wire_option(args, "-layers"@) is Some);
    assert(keys.contains_key("-layer"@) <==> wire_option(args, "-layer"@) is Some);
    assert(keys.contains_key("-resistance"@) <==> wire_option(args, "-resistance"@) is Some);
    assert(keys.contains_key("-capacitance"@) <==> wire_option(args, "-capacitance"@) is Some);
    assert(keys.contains_key("-h_resistance"@) <==> wire_option(args, "-h_resistance"@) is Some);
    assert(keys.contains_key("-h_capacitance"@) <==> wire_option(args, "-h_capacitance"@) is Some);
    assert(keys.contains_key("-v_resistance"@) <==> wire_option(args, "-v_resistance"@) is Some);
    assert(keys.contains_key("-v_capacitance"@) <==> wire_option(args, "-v_capacitance"@) is Some);
    if sets_corner(old.scenes, args, c) {
        lemma_resolves(old, args, plan, v, current, c);
    }
    let entry = own_entry(old.wire_rc, plan.tech);
    assert(plan.added.len() == 0);
    assert(entry.signal_layers + plan.added =~= entry.signal_layers);
    assert(entry.clk_layers + plan.added =~= entry.clk_layers);
}

proof fn lemma_resolves(
    old: RcView,
    args: Seq<Seq<char>>,
    plan: WirePlanView,
    v: WireValues,
    current: Seq<char>,
    c: int,
)
    requires
        0 <= c,
        plan.tech == set_tech(args),
        plan.corner matches Some(k) ==> k < old.scenes.len(),
        rc::chosen(plan.corner, old.scenes.len() as int, c),
    ensures
        ({
            let w = wire_rc::wire_applied(old, plan, v).wire_rc;
            &&& wire_rc::means_signal(plan) && set_for::<rc::SignalRes>(old, args, current)
                ==> rc::hv_at(rc::resolved_list::<rc::SignalRes>(w, current), c) == (HV {
                h: v.h_res.stored,
                v: v.v_res.stored,
            })
            &&& wire_rc::means_signal(plan) && set_for::<rc::SignalCap>(old, args, current)
                ==> rc::hv_at(rc::resolved_list::<rc::SignalCap>(w, current), c) == (HV {
                h: v.h_cap.stored,
                v: v.v_cap.stored,
            })
            &&& wire_rc::means_clk(plan) && set_for::<rc::ClkRes>(old, args, current) ==> rc::hv_at(
                rc::resolved_list::<rc::ClkRes>(w, current),
                c,
            ) == (HV { h: v.h_res.stored, v: v.v_res.stored })
            &&& wire_rc::means_clk(plan) && set_for::<rc::ClkCap>(old, args, current) ==> rc::hv_at(
                rc::resolved_list::<rc::ClkCap>(w, current),
                c,
            ) == (HV { h: v.h_cap.stored, v: v.v_cap.stored })
        }),
{
    let n = old.scenes.len() as int;
    let was = own_entry(old.wire_rc, plan.tech);
    let res = HV { h: v.h_res.stored, v: v.v_res.stored };
    let cap = HV { h: v.h_cap.stored, v: v.v_cap.stored };
    rc::law_spread_reads_back(was.signal_res, n, plan.corner, res, HV::zero(), c);
    rc::law_spread_reads_back(was.signal_cap, n, plan.corner, cap, HV::zero(), c);
    rc::law_spread_reads_back(was.clk_res, n, plan.corner, res, HV::zero(), c);
    rc::law_spread_reads_back(was.clk_cap, n, plan.corner, cap, HV::zero(), c);
}

/// Where `set_wire_rc` is given `-layer` and no `-layers`, wires of both directions have that
/// layer's resistance and capacitance: those of the technology itself without `-corner`, and with it
/// those that the layer reads in that corner. The layer is added to the lists of the nets that are
/// meant, and to no other.
pub proof fn law_values_of_one_layer<F: Fn(&Vec<Double>) -> Quantity>(
    old: RcView,
    db: Db,
    args: Seq<Seq<char>>,
    amounts: Seq<Option<Amount>>,
    mean: F,
    plan: WirePlanView,
    v: WireValues,
    c: int,
) -> (l: int)
    requires
        old.scenes.len() <= usize::MAX,
        wire_rc::wire_command(old, db, args, amounts) == Ok::<WirePlanView, Seq<char>>(plan),
        wire_rc::values_of(plan.source, mean, v),
        wire_option(args, "-layers"@) is None,
        wire_option(args, "-layer"@) is Some,
        0 <= c,
        wire_option(args, "-corner"@) is Some ==> sets_corner(old.scenes, args, c),
    ensures
        ({
            let layer = db.layers@[l];
            let new = wire_rc::wire_applied(old, plan, v);
            let tech = set_tech(args);
            let was = own_entry(old.wire_rc, tech);
            let is = own_entry(new.wire_rc, tech);
            &&& db::stands_first(db.layers@, args[wire_option(args, "-layer"@)->Some_0], l)
            &&& v.h_res == v.v_res
            &&& v.h_cap == v.v_cap
            &&& wire_option(args, "-corner"@) is None ==> v.h_res == layer.wire_res && v.h_cap
                == layer.wire_cap
            &&& wire_option(args, "-corner"@) is Some ==> {
                &&& v.h_res.given == rc::layer_value(old.layer_res, layer.number as int, c)
                &&& v.h_res.stored == v.h_res.given
                &&& v.h_cap.given == rc::layer_value(old.layer_cap, layer.number as int, c)
                &&& v.h_cap.stored == v.h_cap.given
            }
            &&& is.signal_layers == if for_signals(args) {
                was.signal_layers.push(layer.number)
            } else {
                was.signal_layers
            }
            &&& is.clk_layers == if for_clocks(args) {
                was.clk_layers.push(layer.number)
            } else {
                was.clk_layers
            }
        }),
{
    lemma_plan(old, db, args, amounts, plan, c);
    lemma_option_names();
    let given = args::key_args(args, wire_rc::wire_keys(), wire_rc::wire_flags())->Ok_0;
    let keys = given.keys;
    assert(keys.contains_key("-layers"@) <==> wire_option(args, "-layers"@) is Some);
    assert(keys.contains_key("-layer"@) <==> wire_option(args, "-layer"@) is Some);
    let name = args[keys["-layer"@]];
    db::law_first_named(db.layers@, name);
    let layer = db::first_named(db.layers@, name)->Some_0;
    let l = choose|l: int| #[trigger] db::stands_first(db.layers@, name, l) && db.layers@[l] == layer;
    let was = own_entry(old.wire_rc, plan.tech);
    assert(plan.added == seq![layer.number]);
    assert(was.signal_layers + plan.added =~= was.signal_layers.push(layer.number));
    assert(was.clk_layers + plan.added =~= was.clk_layers.push(layer.number));
    l
}

/// The last direction that is listed for the layer is that one.
pub open spec fn runs(dirs: Seq<(String, String)>, name: Seq<char>, dir: Seq<char>) -> bool {
    exists|i: int|
        0 <= i < dirs.len() && (#[trigger] dirs[i]).0@ == name && dirs[i].1@ == dir && forall|k: int|
            i < k < dirs.len() ==> (#[trigger] dirs[k]).0@ != name
}

proof fn lemma_direction(dirs: Seq<(String, String)>, name: Seq<char>, dir: Seq<char>)
    ensures
        wire_rc::direction_of(dirs, name) == Some(dir) <==> runs(dirs, name, dir),
    decreases dirs.len(),
{
    if dirs.len() > 0 {
        let fewer = dirs.drop_last();
        lemma_direction(fewer, name, dir);
        let n = dirs.len() - 1;
        if dirs.last().0@ == name {
            if dirs.last().1@ == dir {
                assert(dirs[n].0@ == name);
            }
            if runs(dirs, name, dir) {
                let i = choose|i: int|
                    0 <= i < dirs.len() && (#[trigger] dirs[i]).0@ == name && dirs[i].1@ == dir
                        && forall|k: int| i < k < dirs.len() ==> (#[trigger] dirs[k]).0@ != name;
                assert(i == n) by {
                    if i < n {
                        assert(dirs[n].0@ != name);
                    }
                }
            }
        } else {
            if runs(fewer, name, dir) {
                let i = choose|i: int|
                    0 <= i < fewer.len() && (#[trigger] fewer[i]).0@ == name && fewer[i].1@ == dir
                        && forall|k: int| i < k < fewer.len() ==> (#[trigger] fewer[k]).0@ != name;
                assert(dirs[i] == fewer[i]);
                assert forall|k: int| i < k < dirs.len() implies (#[trigger] dirs[k]).0@ != name by {
                    if k < n {
                        assert(fewer[k] == dirs[k]);
                    }
                }
            }
            if runs(dirs, name, dir) {
                let i = choose|i: int|
                    0 <= i < dirs.len() && (#[trigger] dirs[i]).0@ == name && dirs[i].1@ == dir
                        && forall|k: int| i < k < dirs.len() ==> (#[trigger] dirs[k]).0@ != name;
                assert(fewer[i] == dirs[i]);
                assert forall|k: int| i < k < fewer.len() implies (#[trigger] fewer[k]).0@ != name by {
                    assert(dirs[k] == fewer[k]);
                }
            }
        }
    }
}

/// The values, in the names' order, of the layers that do not run that way.
pub open spec fn of_layers(
    names: Seq<Seq<char>>,
    dirs: Seq<(String, String)>,
    not: Seq<char>,
    value: spec_fn(Seq<char>) -> Double,
) -> Seq<Double>
    decreases names.len(),
{
    if names.len() == 0 {
        Seq::empty()
    } else {
        let before = of_layers(names.drop_last(), dirs, not, value);
        if runs(dirs, names.last(), not) {
            before
        } else {
            before.push(value(names.last()))
        }
    }
}

/// A layer's resistance: that of the technology itself without a corner, and what the layer reads in
/// one.
pub open spec fn layer_res(old: RcView, db: Db, corner: Option<int>) -> spec_fn(Seq<char>) -> Double {
    |name: Seq<char>|
        {
            let layer = db::first_named(db.layers@, name)->Some_0;
            match corner {
                None => layer.wire_res.given,
                Some(c) => rc::layer_value(old.layer_res, layer.number as int, c),
            }
        }
}

/// A layer's capacitance: that of the technology itself without a corner, and what the layer reads
/// in one.
pub open spec fn layer_cap(old: RcView, db: Db, corner: Option<int>) -> spec_fn(Seq<char>) -> Double {
    |name: Seq<char>|
        {
            let layer = db::first_named(db.layers@, name)->Some_0;
            match corner {
                None => layer.wire_cap.given,
                Some(c) => rc::layer_value(old.layer_cap, layer.number as int, c),
            }
        }
}

proof fn lemma_layers_have(
    old: RcView,
    db: Db,
    dirs: Seq<(String, String)>,
    corner: Option<usize>,
    names: Seq<Seq<char>>,
)
    ensures
        ({
            let have = wire_rc::layers_have(old, db, dirs, corner, names);
            let c = match corner {
                Some(c) => Some(c as int),
                None => None,
            };
            &&& have.h_res == of_layers(names, dirs, "VERTICAL"@, layer_res(old, db, c))
            &&& have.h_cap == of_layers(names, dirs, "VERTICAL"@, layer_cap(old, db, c))
            &&& have.v_res == of_layers(names, dirs, "HORIZONTAL"@, layer_res(old, db, c))
            &&& have.v_cap == of_layers(names, dirs, "HORIZONTAL"@, layer_cap(old, db, c))
        }),
    decreases names.len(),
{
    if names.len() > 0 {
        lemma_layers_have(old, db, dirs, corner, names.drop_last());
        lemma_direction(dirs, names.last(), "VERTICAL"@);
        lemma_direction(dirs, names.last(), "HORIZONTAL"@);
    }
}

/// The number is what `mean` may answer for those values.
pub open spec fn mean_of<F: Fn(&Vec<Double>) -> Quantity>(mean: F, s: Seq<Double>, q: Quantity) -> bool {
    exists|list: Vec<Double>| #[trigger] call_ensures(mean, (&list,), q) && list@ == s
}

/// Where `set_wire_rc` is given `-layers`, a horizontal value is the mean of what the layers have
/// that do not run vertically, and a vertical value of those that do not run horizontally; of each
/// there is one at least. A layer has its own values of the technology without `-corner`, and with it
/// those that it reads in that corner. The layers are added, in the order in which they are named,
/// to the lists of the nets that are meant, and to no other.
pub proof fn law_values_of_layers_are_means<F: Fn(&Vec<Double>) -> Quantity>(
    old: RcView,
    db: Db,
    args: Seq<Seq<char>>,
    amounts: Seq<Option<Amount>>,
    mean: F,
    plan: WirePlanView,
    v: WireValues,
    c: int,
)
    requires
        old.scenes.len() <= usize::MAX,
        wire_rc::wire_command(old, db, args, amounts) == Ok::<WirePlanView, Seq<char>>(plan),
        wire_rc::values_of(plan.source, mean, v),
        wire_option(args, "-layers"@) is Some,
        0 <= c,
        wire_option(args, "-corner"@) is Some ==> sets_corner(old.scenes, args, c),
    ensures
        ({
            let names = text::words(args[wire_option(args, "-layers"@)->Some_0]);
            let dirs = db.directions->Ok_0@;
            let corner = if wire_option(args, "-corner"@) is Some {
                Some(c)
            } else {
                None
            };
            let res = layer_res(old, db, corner);
            let cap = layer_cap(old, db, corner);
            let new = wire_rc::wire_applied(old, plan, v);
            let tech = set_tech(args);
            let was = own_entry(old.wire_rc, tech);
            let is = own_entry(new.wire_rc, tech);
            let numbers = Seq::new(
                names.len(),
                |i: int| (db::first_named(db.layers@, names[i])->Some_0).number,
            );
            &&& db.directions is Ok
            &&& forall|i: int|
                0 <= i < names.len() ==> db::first_named(db.layers@, #[trigger] names[i]) is Some
            &&& of_layers(names, dirs, "VERTICAL"@, res).len() > 0
            &&& of_layers(names, dirs, "HORIZONTAL"@, res).len() > 0
            &&& mean_of(mean, of_layers(names, dirs, "VERTICAL"@, res), v.h_res)
            &&& mean_of(mean, of_layers(names, dirs, "VERTICAL"@, cap), v.h_cap)
            &&& mean_of(mean, of_layers(names, dirs, "HORIZONTAL"@, res), v.v_res)
            &&& mean_of(mean, of_layers(names, dirs, "HORIZONTAL"@, cap), v.v_cap)
            &&& is.signal_layers == if for_signals(args) {
                was.signal_layers + numbers
            } else {
                was.signal_layers
            }
            &&& is.clk_layers == if for_clocks(args) {
                was.clk_layers + numbers
            } else {
                was.clk_layers
            }
        }),
{
    lemma_plan(old, db, args, amounts, plan, c);
    lemma_option_names();
    let given = args::key_args(args, wire_rc::wire_keys(), wire_rc::wire_flags())->Ok_0;
    let keys = given.keys;
    assert(keys.contains_key("-layers"@) <==> wire_option(args, "-layers"@) is Some);
    let names = text::words(args[keys["-layers"@]]);
    let dirs = db.directions->Ok_0@;
    lemma_layers_have(old, db, dirs, plan.corner, names);
    lemma_none_unknown(db, names);
    let have = wire_rc::layers_have(old, db, dirs, plan.corner, names);
    assert(plan.source == WireSourceView::Means(have));
    let was = own_entry(old.wire_rc, plan.tech);
    let numbers = Seq::new(
        names.len(),
        |i: int| (db::first_named(db.layers@, names[i])->Some_0).number,
    );
    assert(plan.added =~= numbers);
    if names.len() == 0 {
        assert(have.h_res.len() == 0);
    }
    lemma_mean(mean, have.h_res, v.h_res);
    lemma_mean(mean, have.h_cap, v.h_cap);
    lemma_mean(mean, have.v_res, v.v_res);
    lemma_mean(mean, have.v_cap, v.v_cap);
}

proof fn lemma_mean<F: Fn(&Vec<Double>) -> Quantity>(mean: F, s: Seq<Double>, q: Quantity)
    requires
        wire_rc::is_mean(mean, s, q),
    ensures
        mean_of(mean, s, q),
{
    let list = choose|list: Vec<Double>|
        list@ == s && #[trigger] call_ensures(mean, (&list,), q);
    assert(call_ensures(mean, (&list,), q) && list@ == s);
}

proof fn lemma_none_unknown(db: Db, names: Seq<Seq<char>>)
    ensures
        wire_rc::first_unknown(db, names) is None <==> forall|i: int|
            0 <= i < names.len() ==> db::first_named(db.layers@, #[trigger] names[i]) is Some,
    decreases names.len(),
{
    if names.len() > 0 {
        let rest = names.skip(1);
        lemma_none_unknown(db, rest);
        assert forall|i: int| 0 < i < names.len() implies #[trigger] names[i] == rest[i - 1] by {}
        if db::first_named(db.layers@, names[0]) is Some {
            if forall|i: int|
                0 <= i < rest.len() ==> db::first_named(db.layers@, #[trigger] rest[i]) is Some {
                assert forall|i: int| 0 <= i < names.len() implies db::first_named(
                    db.layers@,
                    #[trigger] names[i],
                ) is Some by {
                    if i > 0 {
                        assert(db::first_named(db.layers@, rest[i - 1]) is Some);
                    }
                }
            }
            if forall|i: int|
                0 <= i < names.len() ==> db::first_named(db.layers@, #[trigger] names[i]) is Some {
                assert forall|i: int| 0 <= i < rest.len() implies db::first_named(
                    db.layers@,
                    #[trigger] rest[i],
                ) is Some by {
                    assert(db::first_named(db.layers@, names[i + 1]) is Some);
                }
            }
        }
    }
}

/// `set_wire_rc` succeeds exactly where its arguments are right, its corner and its technology are
/// known and it means no redistribution layer; and, with `-layers`, no value of one direction and no
/// `-layer` is given, the layers' directions are known and so are the layers, and one of them carries
/// horizontal wires and one vertical ones; with `-layer`, the layer is known; with neither, what it
/// gives as numbers are such.
pub proof fn law_set_wire_rc_succeeds(
    old: RcView,
    db: Db,
    args: Seq<Seq<char>>,
    amounts: Seq<Option<Amount>>,
)
    requires
        old.scenes.len() <= usize::MAX,
    ensures
        ({
            let layers_at = wire_option(args, "-layers"@);
            let layer_at = wire_option(args, "-layer"@);
            let corner_at = wire_option(args, "-corner"@);
            let tech_at = wire_option(args, "-tech"@);
            let right = args::all_known(args, wire_options(), bare_options()) && (
            corner_at matches Some(p) ==> old.scenes.contains(args[p])) && !wire_flag(
                args,
                "-redistribution_layer"@,
            ) && (tech_at matches Some(p) ==> args[p] == db.tech_name@);
            wire_rc::wire_command(old, db, args, amounts) is Ok <==> right && if layers_at is Some {
                let names = text::words(args[layers_at->Some_0]);
                let any = |name: Seq<char>| Double { bits: 0 };
                &&& layer_at is None
                &&& wire_option(args, "-h_resistance"@) is None
                &&& wire_option(args, "-h_capacitance"@) is None
                &&& wire_option(args, "-v_resistance"@) is None
                &&& wire_option(args, "-v_capacitance"@) is None
                &&& db.directions is Ok
                &&& forall|i: int|
                    0 <= i < names.len() ==> db::first_named(db.layers@, #[trigger] names[i]) is Some
                &&& of_layers(names, db.directions->Ok_0@, "VERTICAL"@, any).len() > 0
                &&& of_layers(names, db.directions->Ok_0@, "HORIZONTAL"@, any).len() > 0
            } else if layer_at is Some {
                db::first_named(db.layers@, args[layer_at->Some_0]) is Some
            } else {
                &&& command_laws::number_or_none(amounts, wire_option(args, "-resistance"@))
                &&& command_laws::number_or_none(amounts, wire_option(args, "-capacitance"@))
                &&& command_laws::number_or_none(amounts, wire_option(args, "-h_resistance"@))
                &&& command_laws::number_or_none(amounts, wire_option(args, "-h_capacitance"@))
                &&& command_laws::number_or_none(amounts, wire_option(args, "-v_resistance"@))
                &&& command_laws::number_or_none(amounts, wire_option(args, "-v_capacitance"@))
            }
        }),
{
    lemma_wire_options(args);
    lemma_option_names();
    if let Ok(given) = args::key_args(args, wire_rc::wire_keys(), wire_rc::wire_flags()) {
        let keys = given.keys;
        assert(keys.contains_key("-corner"@) <==> wire_option(args, "-corner"@) is Some);
        assert(keys.contains_key("-tech"@) <==> wire_option(args, "-tech"@) is Some);
        assert(keys.contains_key("-layers"@) <==> wire_option(args, "-layers"@) is Some);
        assert(keys.contains_key("-layer"@) <==> wire_option(args, "-layer"@) is Some);
        assert(keys.contains_key("-resistance"@) <==> wire_option(args, "-resistance"@) is Some);
        assert(keys.contains_key("-capacitance"@) <==> wire_option(args, "-capacitance"@) is Some);
        assert(keys.contains_key("-h_resistance"@) <==> wire_option(args, "-h_resistance"@) is Some);
        assert(keys.contains_key("-h_capacitance"@) <==> wire_option(args, "-h_capacitance"@) is Some);
        assert(keys.contains_key("-v_resistance"@) <==> wire_option(args, "-v_resistance"@) is Some);
        assert(keys.contains_key("-v_capacitance"@) <==> wire_option(args, "-v_capacitance"@) is Some);
        if keys.contains_key("-corner"@) {
            text_laws::law_place_is_the_first(old.scenes, args[keys["-corner"@]]);
        }
        if keys.contains_key("-layers"@) && db.directions is Ok && layer_rc::named_corner(
            old.scenes,
            args,
            keys,
        ) is Ok {
            let names = text::words(args[keys["-layers"@]]);
            let dirs = db.directions->Ok_0@;
            let corner = layer_rc::named_corner(old.scenes, args, keys)->Ok_0;
            let any = |name: Seq<char>| Double { bits: 0 };
            lemma_none_unknown(db, names);
            lemma_layers_have(old, db, dirs, corner, names);
            let c = match corner {
                Some(c) => Some(c as int),
                None => None,
            };
            lemma_same_length(names, dirs, "VERTICAL"@, any, layer_res(old, db, c));
            lemma_same_length(names, dirs, "HORIZONTAL"@, any, layer_res(old, db, c));
        }
    }
}

proof fn lemma_same_length(
    names: Seq<Seq<char>>,
    dirs: Seq<(String, String)>,
    not: Seq<char>,
    a: spec_fn(Seq<char>) -> Double,
    b: spec_fn(Seq<char>) -> Double,
)
    ensures
        of_layers(names, dirs, not, a).len() == of_layers(names, dirs, not, b).len(),
    decreases names.len(),
{
    if names.len() > 0 {
        lemma_same_length(names.drop_last(), dirs, not, a, b);
    }
}

/// The nets that the command means, in words.
pub open spec fn nets_meant(args: Seq<Seq<char>>) -> Seq<char> {
    if for_signals(args) && for_clocks(args) {
        "Signal/clock"@
    } else if for_clocks(args) {
        "Clock"@
    } else {
        "Signal"@
    }
}

/// `set_wire_rc` warns once of each of its four values that is 0 before it is narrowed, and of
/// nothing else: of the horizontal and then of the vertical resistance, then of the capacitances.
pub proof fn law_set_wire_rc_warns_of_zeros(
    old: RcView,
    db: Db,
    args: Seq<Seq<char>>,
    amounts: Seq<Option<Amount>>,
    plan: WirePlanView,
    v: WireValues,
)
    requires
        old.scenes.len() <= usize::MAX,
        wire_rc::wire_command(old, db, args, amounts) == Ok::<WirePlanView, Seq<char>>(plan),
    ensures
        ({
            let log = wire_rc::wire_applied(old, plan, v).log;
            let n = old.log.len() as int;
            let a: int = if v.h_res.given.is_zero() { 1 } else { 0 };
            let b: int = if v.v_res.given.is_zero() { 1 } else { 0 };
            let c: int = if v.h_cap.given.is_zero() { 1 } else { 0 };
            let d: int = if v.v_cap.given.is_zero() { 1 } else { 0 };
            &&& log.len() == n + a + b + c + d
            &&& log.take(n) == old.log
            &&& a == 1 ==> log[n] == "[WARNING EST-0010] "@ + nets_meant(args)
                + " horizontal wire resistance is 0."@
            &&& b == 1 ==> log[n + a] == "[WARNING EST-0011] "@ + nets_meant(args)
                + " vertical wire resistance is 0."@
            &&& c == 1 ==> log[n + a + b] == "[WARNING EST-0012] "@ + nets_meant(args)
                + " horizontal wire capacitance is 0."@
            &&& d == 1 ==> log[n + a + b + c] == "[WARNING EST-0013] "@ + nets_meant(args)
                + " vertical wire capacitance is 0."@
        }),
{
    lemma_plan(old, db, args, amounts, plan, 0);
    let log = wire_rc::wire_applied(old, plan, v).log;
    assert(log.take(old.log.len() as int) =~= old.log);
}

/// The name at place `i` is the first of `names` that no layer has.
pub open spec fn first_not_known(db: Db, names: Seq<Seq<char>>, i: int) -> bool {
    &&& 0 <= i < names.len()
    &&& db::first_named(db.layers@, names[i]) is None
    &&& forall|k: int| 0 <= k < i ==> db::first_named(db.layers@, #[trigger] names[k]) is Some
}

proof fn lemma_first_not_known(db: Db, names: Seq<Seq<char>>, i: int)
    requires
        first_not_known(db, names, i),
    ensures
        wire_rc::first_unknown(db, names) == Some(names[i]),
    decreases i,
{
    if i > 0 {
        let rest = names.skip(1);
        assert(db::first_named(db.layers@, names[0]) is Some);
        assert forall|k: int| 0 <= k < i - 1 implies db::first_named(
            db.layers@,
            #[trigger] rest[k],
        ) is Some by {
            assert(db::first_named(db.layers@, names[k + 1]) is Some);
        }
        lemma_first_not_known(db, rest, i - 1);
    }
}

/// What `set_wire_rc` says is wrong, where its arguments are right: the first of these, in this
/// order. The corner is not known; redistribution layers are meant; the technology is not the
/// design's. Then, of `-layers`, that a value of one direction is given too, that `-layer` is, that
/// the directions are not known, that a layer is not, the first such, or that none carries horizontal
/// or none vertical wires; of `-layer`, that it is not known; and of values, the first that is no
/// number: the resistance and the capacitance for both directions, then those for horizontal wires,
/// then those for vertical ones.
pub proof fn law_set_wire_rc_says_what_is_wrong(
    old: RcView,
    db: Db,
    args: Seq<Seq<char>>,
    amounts: Seq<Option<Amount>>,
    unknown: int,
)
    requires
        old.scenes.len() <= usize::MAX,
        args::all_known(args, wire_options(), bare_options()),
        wire_rc::wire_command(old, db, args, amounts) is Err,
        wire_option(args, "-layers"@) matches Some(p) ==> ({
            let names = text::words(args[p]);
            first_not_known(db, names, unknown) || forall|i: int|
                0 <= i < names.len() ==> db::first_named(db.layers@, #[trigger] names[i]) is Some
        }),
    ensures
        ({
            let layers_at = wire_option(args, "-layers"@);
            let layer_at = wire_option(args, "-layer"@);
            let corner_at = wire_option(args, "-corner"@);
            let tech_at = wire_option(args, "-tech"@);
            let r = wire_option(args, "-resistance"@);
            let c = wire_option(args, "-capacitance"@);
            let hr = wire_option(args, "-h_resistance"@);
            let hc = wire_option(args, "-h_capacitance"@);
            let vr = wire_option(args, "-v_resistance"@);
            let vc = wire_option(args, "-v_capacitance"@);
            let names = text::words(args[layers_at->Some_0]);
            let any = |name: Seq<char>| Double { bits: 0 };
            wire_rc::wire_command(old, db, args, amounts)->Err_0 == if corner_at is Some
                && !old.scenes.contains(args[corner_at->Some_0]) {
                "corner "@ + args[corner_at->Some_0] + " not found"@
            } else if wire_flag(args, "-redistribution_layer"@) {
                "set_wire_rc -redistribution_layer: RDL chips are not modelled"@
            } else if tech_at is Some && args[tech_at->Some_0] != db.tech_name@ {
                "[ERROR EST-0030] technology "@ + args[tech_at->Some_0] + " not found."@
            } else if layers_at is Some {
                if hr is Some || hc is Some || vr is Some || vc is Some {
                    "[ERROR EST-0001] Use -layers or -resistance/-capacitance but not both."@
                } else if layer_at is Some {
                    "[ERROR EST-0006] Use -layers or -layer but not both."@
                } else if db.directions is Err {
                    db.directions->Err_0@
                } else if first_not_known(db, names, unknown) {
                    "[ERROR EST-0002] layer "@ + names[unknown] + " not found."@
                } else if of_layers(names, db.directions->Ok_0@, "VERTICAL"@, any).len() == 0 {
                    "[ERROR EST-0016] No horizontal layer specified."@
                } else {
                    "[ERROR EST-0017] No vertical layer specified."@
                }
            } else if layer_at is Some {
                "[ERROR EST-0015] layer "@ + args[layer_at->Some_0] + " not found."@
            } else {
                args[(if command_laws::no_number(amounts, r) {
                    r
                } else if command_laws::no_number(amounts, c) {
                    c
                } else if command_laws::no_number(amounts, hr) {
                    hr
                } else if command_laws::no_number(amounts, hc) {
                    hc
                } else if command_laws::no_number(amounts, vr) {
                    vr
                } else {
                    vc
                })->Some_0] + ": not a number"@
            }
        }),
{
    lemma_wire_options(args);
    lemma_option_names();
    let given = args::key_args(args, wire_rc::wire_keys(), wire_rc::wire_flags())->Ok_0;
    let keys = given.keys;
    assert(keys.contains_key("-corner"@) <==> wire_option(args, "-corner"@) is Some);
    assert(keys.contains_key("-tech"@) <==> wire_option(args, "-tech"@) is Some);
    assert(keys.contains_key("-layers"@) <==> wire_option(args, "-layers"@) is Some);
    assert(keys.contains_key("-layer"@) <==> wire_option(args, "-layer"@) is Some);
    assert(keys.contains_key("-resistance"@) <==> wire_option(args, "-resistance"@) is Some);
    assert(keys.contains_key("-capacitance"@) <==> wire_option(args, "-capacitance"@) is Some);
    assert(keys.contains_key("-h_resistance"@) <==> wire_option(args, "-h_resistance"@) is Some);
    assert(keys.contains_key("-h_capacitance"@) <==> wire_option(args, "-h_capacitance"@) is Some);
    assert(keys.contains_key("-v_resistance"@) <==> wire_option(args, "-v_resistance"@) is Some);
    assert(keys.contains_key("-v_capacitance"@) <==> wire_option(args, "-v_capacitance"@) is Some);
    if keys.contains_key("-corner"@) {
        text_laws::law_place_is_the_first(old.scenes, args[keys["-corner"@]]);
    }
    if keys.contains_key("-layers"@) {
        let names = text::words(args[keys["-layers"@]]);
        lemma_none_unknown(db, names);
        if first_not_known(db, names, unknown) {
            lemma_first_not_known(db, names, unknown);
        }
        if db.directions is Ok && layer_rc::named_corner(old.scenes, args, keys) is Ok {
            let dirs = db.directions->Ok_0@;
            let corner = layer_rc::named_corner(old.scenes, args, keys)->Ok_0;
            let any = |name: Seq<char>| Double { bits: 0 };
            lemma_layers_have(old, db, dirs, corner, names);
            let c = match corner {
                Some(c) => Some(c as int),
                None => None,
            };
            lemma_same_length(names, dirs, "VERTICAL"@, any, layer_res(old, db, c));
            lemma_same_length(names, dirs, "HORIZONTAL"@, any, layer_res(old, db, c));
        }
    }
}

} // verus!
