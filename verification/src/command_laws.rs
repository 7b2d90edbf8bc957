//! What `set_layer_rc` and `set_wire_rc` do, told from their arguments.

use vstd::prelude::*;
use vstd::string::*;

use crate::args;
use crate::db;
use crate::db::Db;
use crate::layer_rc;
use crate::layer_rc::LayerWriteView;
use crate::rc;
use crate::rc::RcView;
use crate::text_laws;
use crate::value::{Amount, Double};

verus! {

/// The options of `set_layer_rc`.
pub open spec fn layer_options() -> Seq<Seq<char>> {
    seq!["-layer"@, "-via"@, "-capacitance"@, "-resistance"@, "-corner"@]
}

/// The place of an option's value among the arguments of `set_layer_rc`.
pub open spec fn layer_option(args: Seq<Seq<char>>, key: Seq<char>) -> Option<int> {
    args::given_at(args, layer_options(), key)
}

proof fn lemma_layer_options(args: Seq<Seq<char>>)
    ensures
        args::key_args(args, layer_rc::layer_keys(), Seq::empty()) is Ok <==> args::all_known(
            args,
            layer_options(),
            Seq::empty(),
        ),
        args::key_args(args, layer_rc::layer_keys(), Seq::empty()) matches Ok(given) ==> forall|
            key: Seq<char>,
        |
            layer_options().contains(key) ==> (#[trigger] given.keys.contains_key(key)
                <==> layer_option(args, key) is Some) && (given.keys.contains_key(key)
                ==> layer_option(args, key) == Some(given.keys[key]) && 0 < given.keys[key]
                < args.len()),
        layer_options().contains("-layer"@),
        layer_options().contains("-via"@),
        layer_options().contains("-capacitance"@),
        layer_options().contains("-resistance"@),
        layer_options().contains("-corner"@),
{
    let s = layer_options();
    assert(layer_rc::layer_keys() =~= s);
    args::law_keys_and_flags_are_those_read(args, s, Seq::empty());
    assert(s[0] == "-layer"@);
    assert(s[1] == "-via"@);
    assert(s[2] == "-capacitance"@);
    assert(s[3] == "-resistance"@);
    assert(s[4] == "-corner"@);
}

/// The corner that `-corner` names is meant; without `-corner`, every corner is.
pub open spec fn means_corner(scenes: Seq<Seq<char>>, args: Seq<Seq<char>>, at: Option<int>, c: int) -> bool {
    match at {
        Some(p) => text_laws::first_at(scenes, args[p], c),
        None => 0 <= c < scenes.len(),
    }
}

proof fn lemma_named_corner(scenes: Seq<Seq<char>>, args: Seq<Seq<char>>, keys: Map<Seq<char>, int>)
    requires
        scenes.len() <= usize::MAX,
        keys.contains_key("-corner"@),
    ensures
        layer_rc::named_corner(scenes, args, keys) is Ok <==> scenes.contains(
            args[keys["-corner"@]],
        ),
        layer_rc::named_corner(scenes, args, keys) matches Ok(found) ==> (found matches Some(c)
            && text_laws::first_at(scenes, args[keys["-corner"@]], c as int)),
{
    text_laws::law_place_is_the_first(scenes, args[keys["-corner"@]]);
}

/// A number that is given: what `part` reads of the argument at that place, 0 where there is none.
pub open spec fn part_or_zero(
    amounts: Seq<Option<Amount>>,
    at: Option<int>,
    part: spec_fn(Amount) -> Double,
) -> Double {
    match at {
        Some(p) => part(amounts[p]->Some_0),
        None => Double { bits: 0 },
    }
}

/// Where `set_layer_rc` succeeds, the layer that `-layer` or `-via` names reads, in the corner that
/// `-corner` names or in every corner without it, the resistance and the capacitance that are given:
/// per metre for `-layer`, 0 for the one that is not given; in ohm for `-via`, without capacitance.
/// Every other layer in that corner, and every layer in every other corner, reads as before.
pub proof fn law_set_layer_rc_reads_as_given(
    old: RcView,
    db: Db,
    args: Seq<Seq<char>>,
    amounts: Seq<Option<Amount>>,
    number: int,
    corner: int,
) -> (l: int)
    requires
        old.scenes.len() <= usize::MAX,
        0 <= corner,
        layer_rc::layer_command(old.scenes, db, args, amounts).1 is Ok,
    ensures
        ({
            let command = layer_rc::layer_command(old.scenes, db, args, amounts);
            let new = layer_rc::layer_command_state(old, command);
            let layer_at = layer_option(args, "-layer"@);
            let via_at = layer_option(args, "-via"@);
            let res_at = layer_option(args, "-resistance"@);
            let cap_at = layer_option(args, "-capacitance"@);
            let corner_at = layer_option(args, "-corner"@);
            let meant = number == db.layers@[l].number && means_corner(
                old.scenes,
                args,
                corner_at,
                corner,
            );
            let res = rc::layer_value(new.layer_res, number, corner);
            let cap = rc::layer_value(new.layer_cap, number, corner);
            &&& layer_at is Some <==> via_at is None
            &&& layer_at matches Some(p) ==> db::stands_first(db.layers@, args[p], l)
            &&& via_at matches Some(p) ==> db::stands_first(db.layers@, args[p], l)
            &&& corner_at matches Some(p) ==> old.scenes.contains(args[p])
            &&& !meant ==> res == rc::layer_value(old.layer_res, number, corner) && cap
                == rc::layer_value(old.layer_cap, number, corner)
            &&& meant && layer_at is Some ==> {
                &&& res_at is Some || cap_at is Some
                &&& res_at matches Some(p) ==> amounts[p] is Some && res
                    == amounts[p]->Some_0.ohm_per_metre.stored
                &&& res_at is None ==> res == Double { bits: 0 }
                &&& cap_at matches Some(p) ==> amounts[p] is Some && cap
                    == amounts[p]->Some_0.farad_per_metre.stored
                &&& cap_at is None ==> cap == Double { bits: 0 }
            }
            &&& meant && via_at is Some ==> {
                &&& res_at matches Some(p) && amounts[p] is Some && res
                    == amounts[p]->Some_0.ohm.stored
                &&& cap == Double { bits: 0 }
            }
            &&& new.scenes == old.scenes
            &&& new.wire_rc == old.wire_rc
        }),
{
    lemma_layer_options(args);
    let command = layer_rc::layer_command(old.scenes, db, args, amounts);
    let plan = command.1->Ok_0;
    let given = args::key_args(args, layer_rc::layer_keys(), Seq::empty())->Ok_0;
    let keys = given.keys;
    assert(keys.contains_key("-layer"@) <==> layer_option(args, "-layer"@) is Some);
    assert(keys.contains_key("-via"@) <==> layer_option(args, "-via"@) is Some);
    assert(keys.contains_key("-resistance"@) <==> layer_option(args, "-resistance"@) is Some);
    assert(keys.contains_key("-capacitance"@) <==> layer_option(args, "-capacitance"@) is Some);
    assert(keys.contains_key("-corner"@) <==> layer_option(args, "-corner"@) is Some);
    if keys.contains_key("-corner"@) {
        lemma_named_corner(old.scenes, args, keys);
        text_laws::law_place_is_the_first(old.scenes, args[keys["-corner"@]]);
    }
    let name = if keys.contains_key("-layer"@) {
        args[keys["-layer"@]]
    } else {
        args[keys["-via"@]]
    };
    db::law_first_named(db.layers@, name);
    let layer = db::first_named(db.layers@, name)->Some_0;
    let l = choose|l: int| #[trigger] db::stands_first(db.layers@, name, l) && db.layers@[l] == layer;
    assert(plan.number == layer.number);
    layer_rc::law_set_layer_rc_reads_back(old, command, number, corner);
    if let Some(p) = layer_option(args, "-corner"@) {
        let c = plan.corner->Some_0;
        assert(text_laws::first_at(old.scenes, args[p], c as int));
        if text_laws::first_at(old.scenes, args[p], corner) {
            assert(corner == c) by {
                if corner < c {
                    assert(old.scenes[corner] != args[p]);
                } else if c < corner {
                    assert(old.scenes[c as int] != args[p]);
                }
            }
        }
    }
    l
}

/// Where `set_layer_rc` succeeds, the technology itself is written exactly where no corner is named:
/// the layer's or the via's own name, with what is given before it is narrowed.
pub proof fn law_set_layer_rc_writes_the_technology(
    old: RcView,
    db: Db,
    args: Seq<Seq<char>>,
    amounts: Seq<Option<Amount>>,
)
    requires
        layer_rc::layer_command(old.scenes, db, args, amounts).1 is Ok,
    ensures
        ({
            let command = layer_rc::layer_command(old.scenes, db, args, amounts);
            let answer = layer_rc::layer_command_answer(command);
            let res_at = layer_option(args, "-resistance"@);
            let cap_at = layer_option(args, "-capacitance"@);
            let corner_at = layer_option(args, "-corner"@);
            &&& corner_at is Some ==> answer == Ok::<Option<LayerWriteView>, Seq<char>>(None)
            &&& corner_at is None ==> {
                &&& layer_option(args, "-layer"@) matches Some(p) ==> answer == Ok::<
                    Option<LayerWriteView>,
                    Seq<char>,
                >(
                    Some(
                        LayerWriteView::Wire {
                            layer: args[p],
                            res: part_or_zero(amounts, res_at, |a: Amount| a.ohm_per_metre.given),
                            cap: part_or_zero(amounts, cap_at, |a: Amount| a.farad_per_metre.given),
                        },
                    ),
                )
                &&& layer_option(args, "-via"@) matches Some(p) ==> answer == Ok::<
                    Option<LayerWriteView>,
                    Seq<char>,
                >(
                    Some(
                        LayerWriteView::Via {
                            layer: args[p],
                            res: part_or_zero(amounts, res_at, |a: Amount| a.ohm.given),
                        },
                    ),
                )
            }
        }),
{
    lemma_layer_options(args);
    let given = args::key_args(args, layer_rc::layer_keys(), Seq::empty())->Ok_0;
    let keys = given.keys;
    assert(keys.contains_key("-layer"@) <==> layer_option(args, "-layer"@) is Some);
    assert(keys.contains_key("-via"@) <==> layer_option(args, "-via"@) is Some);
    assert(keys.contains_key("-resistance"@) <==> layer_option(args, "-resistance"@) is Some);
    assert(keys.contains_key("-capacitance"@) <==> layer_option(args, "-capacitance"@) is Some);
    assert(keys.contains_key("-corner"@) <==> layer_option(args, "-corner"@) is Some);
}

/// The option is not given, or the argument behind it is a number.
pub open spec fn number_or_none(amounts: Seq<Option<Amount>>, at: Option<int>) -> bool {
    at matches Some(p) ==> amounts[p] is Some
}

/// A layer of that name is known, of a routing level where that is asked for.
pub open spec fn layer_known(db: Db, name: Seq<char>, routing: bool) -> bool {
    exists|l: int| #[trigger]
        db::stands_first(db.layers@, name, l) && (routing ==> db.layers@[l].routing_level != 0)
}

/// `set_layer_rc` succeeds exactly where its arguments are right and its corner is known, and it
/// names either a routing layer, with a resistance or a capacitance or both, or a via, with a
/// resistance; and what it gives as a number is one. Where it fails, no layer reads otherwise than
/// before. It warns exactly where it names a known via and a capacitance.
pub proof fn law_set_layer_rc_succeeds(
    old: RcView,
    db: Db,
    args: Seq<Seq<char>>,
    amounts: Seq<Option<Amount>>,
)
    requires
        old.scenes.len() <= usize::MAX,
    ensures
        ({
            let command = layer_rc::layer_command(old.scenes, db, args, amounts);
            let new = layer_rc::layer_command_state(old, command);
            let layer_at = layer_option(args, "-layer"@);
            let via_at = layer_option(args, "-via"@);
            let res_at = layer_option(args, "-resistance"@);
            let cap_at = layer_option(args, "-capacitance"@);
            let corner_at = layer_option(args, "-corner"@);
            let right = args::all_known(args, layer_options(), Seq::empty()) && !(layer_at is Some
                && via_at is Some) && (corner_at matches Some(p) ==> old.scenes.contains(args[p]));
            let wire = layer_at is Some && layer_known(db, args[layer_at->Some_0], true) && (
            res_at is Some || cap_at is Some) && number_or_none(amounts, res_at) && number_or_none(
                amounts,
                cap_at,
            );
            let cut = via_at is Some && layer_known(db, args[via_at->Some_0], false) && res_at is Some
                && number_or_none(amounts, res_at);
            &&& command.1 is Ok <==> right && (wire || cut)
            &&& layer_rc::layer_command_answer(command) is Ok <==> command.1 is Ok
            &&& command.1 is Err ==> new.layer_res == old.layer_res && new.layer_cap == old.layer_cap
                && new.wire_rc == old.wire_rc && new.scenes == old.scenes
            &&& right && cap_at is Some && (via_at matches Some(p) && layer_known(
                db,
                args[p],
                false,
            )) ==> new.log == old.log.push(
                "[WARNING EST-0206] -capacitance not supported for vias."@,
            )
            &&& !(right && cap_at is Some && (via_at matches Some(p) && layer_known(
                db,
                args[p],
                false,
            ))) ==> new.log == old.log
        }),
{
    lemma_layer_options(args);
    if let Ok(given) = args::key_args(args, layer_rc::layer_keys(), Seq::empty()) {
        let keys = given.keys;
        assert(keys.contains_key("-layer"@) <==> layer_option(args, "-layer"@) is Some);
        assert(keys.contains_key("-via"@) <==> layer_option(args, "-via"@) is Some);
        assert(keys.contains_key("-resistance"@) <==> layer_option(args, "-resistance"@) is Some);
        assert(keys.contains_key("-capacitance"@) <==> layer_option(args, "-capacitance"@) is Some);
        assert(keys.contains_key("-corner"@) <==> layer_option(args, "-corner"@) is Some);
        if keys.contains_key("-corner"@) {
            lemma_named_corner(old.scenes, args, keys);
        }
        if keys.contains_key("-layer"@) {
            lemma_layer_known(db, args[keys["-layer"@]]);
        }
        if keys.contains_key("-via"@) {
            lemma_layer_known(db, args[keys["-via"@]]);
        }
    }
}

proof fn lemma_layer_known(db: Db, name: Seq<char>)
    ensures
        layer_known(db, name, false) <==> db::first_named(db.layers@, name) is Some,
        layer_known(db, name, true) <==> (db::first_named(db.layers@, name) matches Some(l)
            && l.routing_level != 0),
{
    db::law_first_named(db.layers@, name);
    if db::first_named(db.layers@, name) is Some {
        let l = choose|l: int| #[trigger]
            db::stands_first(db.layers@, name, l) && Some(db.layers@[l]) == db::first_named(
                db.layers@,
                name,
            );
        assert(db::stands_first(db.layers@, name, l));
    }
}

/// The argument behind an option is no number.
pub open spec fn no_number(amounts: Seq<Option<Amount>>, at: Option<int>) -> bool {
    at matches Some(p) && amounts[p] is None
}

/// What `set_layer_rc` says is wrong, where its arguments are right: the first of these, in this
/// order. Both a layer and a via are named; the corner is not known; then, of a layer, that it is
/// not known, that it is no routing layer, that it is given neither value, or that the capacitance
/// or the resistance is no number; and of a via, that it is not known, that its resistance is no
/// number or that it is given none; and with neither, that one is missing.
pub proof fn law_set_layer_rc_says_what_is_wrong(
    scenes: Seq<Seq<char>>,
    db: Db,
    args: Seq<Seq<char>>,
    amounts: Seq<Option<Amount>>,
)
    requires
        scenes.len() <= usize::MAX,
        args::all_known(args, layer_options(), Seq::empty()),
        layer_rc::layer_command(scenes, db, args, amounts).1 is Err,
    ensures
        ({
            let layer_at = layer_option(args, "-layer"@);
            let via_at = layer_option(args, "-via"@);
            let res_at = layer_option(args, "-resistance"@);
            let cap_at = layer_option(args, "-capacitance"@);
            let corner_at = layer_option(args, "-corner"@);
            let layer = args[layer_at->Some_0];
            let cut = args[via_at->Some_0];
            layer_rc::layer_command(scenes, db, args, amounts).1->Err_0 == if layer_at is Some
                && via_at is Some {
                "[ERROR EST-0201] Use -layer or -via but not both."@
            } else if corner_at is Some && !scenes.contains(args[corner_at->Some_0]) {
                "corner "@ + args[corner_at->Some_0] + " not found"@
            } else if layer_at is Some {
                if !layer_known(db, layer, false) {
                    "[ERROR EST-0202] layer "@ + layer + " not found."@
                } else if !layer_known(db, layer, true) {
                    "[ERROR EST-0203] "@ + layer + " is not a routing layer."@
                } else if res_at is None && cap_at is None {
                    "[ERROR EST-0204] missing -capacitance or -resistance argument."@
                } else if no_number(amounts, cap_at) {
                    args[cap_at->Some_0] + ": not a number"@
                } else {
                    args[res_at->Some_0] + ": not a number"@
                }
            } else if via_at is Some {
                if !layer_known(db, cut, false) {
                    "[ERROR EST-0205] via "@ + cut + " not found."@
                } else if no_number(amounts, res_at) {
                    args[res_at->Some_0] + ": not a number"@
                } else {
                    "[ERROR EST-0208] no -resistance specified for via."@
                }
            } else {
                "[ERROR EST-0209] missing -layer or -via argument."@
            }
        }),
{
    lemma_layer_options(args);
    let given = args::key_args(args, layer_rc::layer_keys(), Seq::empty())->Ok_0;
    let keys = given.keys;
    assert(keys.contains_key("-layer"@) <==> layer_option(args, "-layer"@) is Some);
    assert(keys.contains_key("-via"@) <==> layer_option(args, "-via"@) is Some);
    assert(keys.contains_key("-resistance"@) <==> layer_option(args, "-resistance"@) is Some);
    assert(keys.contains_key("-capacitance"@) <==> layer_option(args, "-capacitance"@) is Some);
    assert(keys.contains_key("-corner"@) <==> layer_option(args, "-corner"@) is Some);
    if keys.contains_key("-corner"@) {
        lemma_named_corner(scenes, args, keys);
    }
    if keys.contains_key("-layer"@) {
        lemma_layer_known(db, args[keys["-layer"@]]);
    }
    if keys.contains_key("-via"@) {
        lemma_layer_known(db, args[keys["-via"@]]);
    }
}

} // verus!
