//! `set_layer_rc`: a layer's or a via's R and C, in one corner or in all.

use vstd::prelude::*;
use vstd::string::*;

use crate::args;
use crate::args::{parse_key_args, KeyArgs};
use crate::db;
use crate::db::{find_named, Db, Layer};
use crate::rc;
use crate::rc::{Rc, RcView};
use crate::text;
use crate::text::{find_in, framed};
use crate::value::{Amount, Double, Quantity};

verus! {

/// What `set_layer_rc` without a corner changes in the technology itself.
#[derive(Debug, PartialEq, Eq)]
pub enum LayerWrite {
    /// A routing layer's wire resistance in ohm per metre and wire capacitance in farad per metre.
    Wire { layer: String, res: Double, cap: Double },
    /// A cut layer's resistance in ohm.
    Via { layer: String, res: Double },
}

/// A [`LayerWrite`] with its layer as a text.
pub enum LayerWriteView {
    Wire { layer: Seq<char>, res: Double, cap: Double },
    Via { layer: Seq<char>, res: Double },
}

impl View for LayerWrite {
    type V = LayerWriteView;

    open spec fn view(&self) -> LayerWriteView {
        match self {
            LayerWrite::Wire { layer, res, cap } => LayerWriteView::Wire { layer: layer@, res: *res, cap: *cap },
            LayerWrite::Via { layer, res } => LayerWriteView::Via { layer: layer@, res: *res },
        }
    }
}

/// What a `set_layer_rc` is to do.
pub struct LayerPlan {
    pub number: i32,
    pub corner: Option<usize>,
    pub res: Quantity,
    pub cap: Quantity,
    pub write: LayerWriteView,
}

/// What is given for a capacitance that a via does not have.
pub open spec fn via_cap_warning() -> Seq<char> {
    "[WARNING EST-0206] -capacitance not supported for vias."@
}

/// The corner that `-corner` names; none where it is not given.
pub open spec fn named_corner(
    scenes: Seq<Seq<char>>,
    args: Seq<Seq<char>>,
    keys: Map<Seq<char>, int>,
) -> Result<Option<usize>, Seq<char>> {
    if !keys.contains_key("-corner"@) {
        Ok(None)
    } else {
        let name = args[keys["-corner"@]];
        match text::place_in(scenes, name) {
            Some(i) => Ok(Some(i as usize)),
            None => Err("corner "@ + name + " not found"@),
        }
    }
}

/// The corner that `-corner` names; none where it is not given.
pub(crate) fn corner_of(rc: &Rc, args: &Vec<String>, keys: &KeyArgs) -> (r: Result<Option<usize>, String>)
    requires
        keys.within(args@.len() as int),
    ensures
        text::outcome(r) == named_corner(rc@.scenes, text::views(args@), keys@.keys),
        r matches Ok(Some(c)) ==> c < rc@.scenes.len(),
{
    match keys.get("-corner") {
        None => Ok(None),
        Some(p) => match find_in(&rc.scenes, args[p].as_str()) {
            Some(i) => Ok(Some(i)),
            None => {
                let mut e = "corner ".to_owned();
                e.append(args[p].as_str());
                e.append(" not found");
                Err(e)
            },
        },
    }
}

/// The number that the value of `key` is; nothing where the key is not given.
pub open spec fn named_amount(
    args: Seq<Seq<char>>,
    amounts: Seq<Option<Amount>>,
    keys: Map<Seq<char>, int>,
    key: Seq<char>,
) -> Result<Option<Amount>, Seq<char>> {
    if !keys.contains_key(key) {
        Ok(None)
    } else {
        match amounts[keys[key]] {
            Some(a) => Ok(Some(a)),
            None => Err(args[keys[key]] + ": not a number"@),
        }
    }
}

/// The number that the value of `key` is; nothing where the key is not given.
pub(crate) fn amount_of(
    args: &Vec<String>,
    amounts: &Vec<Option<Amount>>,
    keys: &KeyArgs,
    key: &str,
) -> (r: Result<Option<Amount>, String>)
    requires
        keys.within(args@.len() as int),
        amounts@.len() == args@.len(),
    ensures
        text::outcome(r) == named_amount(text::views(args@), amounts@, keys@.keys, key@),
{
    match keys.get(key) {
        None => Ok(None),
        Some(p) => match amounts[p] {
            Some(a) => Ok(Some(a)),
            None => {
                let mut e = args[p].clone();
                e.append(": not a number");
                Err(e)
            },
        },
    }
}

/// The keys of `set_layer_rc`.
pub open spec fn layer_keys() -> Seq<Seq<char>> {
    seq!["-layer"@, "-via"@, "-capacitance"@, "-resistance"@, "-corner"@]
}

/// What `set_layer_rc -layer` is to do.
pub open spec fn layer_plan(
    db: Db,
    args: Seq<Seq<char>>,
    amounts: Seq<Option<Amount>>,
    keys: Map<Seq<char>, int>,
    corner: Option<usize>,
) -> Result<LayerPlan, Seq<char>> {
    let name = args[keys["-layer"@]];
    match db::first_named(db.layers@, name) {
        None => Err("[ERROR EST-0202] layer "@ + name + " not found."@),
        Some(layer) => if layer.routing_level == 0 {
            Err("[ERROR EST-0203] "@ + name + " is not a routing layer."@)
        } else if !keys.contains_key("-capacitance"@) && !keys.contains_key("-resistance"@) {
            Err("[ERROR EST-0204] missing -capacitance or -resistance argument."@)
        } else {
            match named_amount(args, amounts, keys, "-capacitance"@) {
                Err(e) => Err(e),
                Ok(c) => match named_amount(args, amounts, keys, "-resistance"@) {
                    Err(e) => Err(e),
                    Ok(r) => {
                        let cap = match c {
                            Some(a) => a.farad_per_metre,
                            None => Quantity::zero(),
                        };
                        let res = match r {
                            Some(a) => a.ohm_per_metre,
                            None => Quantity::zero(),
                        };
                        Ok(
                            LayerPlan {
                                number: layer.number,
                                corner,
                                res,
                                cap,
                                write: LayerWriteView::Wire { layer: name, res: res.given, cap: cap.given },
                            },
                        )
                    },
                },
            }
        },
    }
}

/// What `set_layer_rc -via` is to do, for a via that the technology has.
pub open spec fn via_plan(
    layer: Layer,
    args: Seq<Seq<char>>,
    amounts: Seq<Option<Amount>>,
    keys: Map<Seq<char>, int>,
    corner: Option<usize>,
) -> Result<LayerPlan, Seq<char>> {
    match named_amount(args, amounts, keys, "-resistance"@) {
        Err(e) => Err(e),
        Ok(None) => Err("[ERROR EST-0208] no -resistance specified for via."@),
        Ok(Some(a)) => Ok(
            LayerPlan {
                number: layer.number,
                corner,
                res: a.ohm,
                cap: Quantity::zero(),
                write: LayerWriteView::Via { layer: args[keys["-via"@]], res: a.ohm.given },
            },
        ),
    }
}

/// What `set_layer_rc` is to do, or what is wrong with it; and whether it is to warn of a
/// capacitance for a via.
pub open spec fn layer_command(
    scenes: Seq<Seq<char>>,
    db: Db,
    args: Seq<Seq<char>>,
    amounts: Seq<Option<Amount>>,
) -> (bool, Result<LayerPlan, Seq<char>>) {
    match args::key_args(args, layer_keys(), Seq::empty()) {
        Err(e) => (false, Err(e)),
        Ok(given) => {
            let keys = given.keys;
            if keys.contains_key("-layer"@) && keys.contains_key("-via"@) {
                (false, Err("[ERROR EST-0201] Use -layer or -via but not both."@))
            } else {
                match named_corner(scenes, args, keys) {
                    Err(e) => (false, Err(e)),
                    Ok(corner) => if keys.contains_key("-layer"@) {
                        (false, layer_plan(db, args, amounts, keys, corner))
                    } else if keys.contains_key("-via"@) {
                        match db::first_named(db.layers@, args[keys["-via"@]]) {
                            None => (
                                false,
                                Err("[ERROR EST-0205] via "@ + args[keys["-via"@]] + " not found."@),
                            ),
                            Some(layer) => (
                                keys.contains_key("-capacitance"@),
                                via_plan(layer, args, amounts, keys, corner),
                            ),
                        }
                    } else {
                        (false, Err("[ERROR EST-0209] missing -layer or -via argument."@))
                    },
                }
            }
        },
    }
}

/// The state after `set_layer_rc`.
pub open spec fn layer_command_state(old: RcView, command: (bool, Result<LayerPlan, Seq<char>>)) -> RcView {
    let log = if command.0 {
        old.log.push(via_cap_warning())
    } else {
        old.log
    };
    match command.1 {
        Err(_) => RcView { log, ..old },
        Ok(plan) => RcView {
            log,
            layer_res: rc::layer_set(
                old.layer_res,
                plan.number as int,
                old.scenes.len() as int,
                plan.corner,
                plan.res.stored,
            ),
            layer_cap: rc::layer_set(
                old.layer_cap,
                plan.number as int,
                old.scenes.len() as int,
                plan.corner,
                plan.cap.stored,
            ),
            ..old
        },
    }
}

/// What `set_layer_rc` answers: an error, or the change to the technology that it makes where no
/// corner is named.
pub open spec fn layer_command_answer(
    command: (bool, Result<LayerPlan, Seq<char>>),
) -> Result<Option<LayerWriteView>, Seq<char>> {
    match command.1 {
        Err(e) => Err(e),
        Ok(plan) => Ok(
            if plan.corner is None {
                Some(plan.write)
            } else {
                None
            },
        ),
    }
}

/// The answer of `set_layer_rc` with its texts as sequences.
pub open spec fn layer_answer_view(r: Result<Option<LayerWrite>, String>) -> Result<Option<LayerWriteView>, Seq<char>> {
    match r {
        Err(e) => Err(e@),
        Ok(None) => Ok(None),
        Ok(Some(w)) => Ok(Some(w@)),
    }
}

impl Rc {
    /// `set_layer_rc [-layer l | -via v] [-capacitance c] [-resistance r] [-corner c]`. The
    /// `amounts` are the arguments as numbers, where they are such.
    pub fn set_layer_rc(&mut self, db: &Db, args: &Vec<String>, amounts: &Vec<Option<Amount>>) -> (r: Result<
        Option<LayerWrite>,
        String,
    >)
        requires
            old(self).wf(),
            amounts@.len() == args@.len(),
        ensures
            final(self).wf(),
            final(self)@ == layer_command_state(
                old(self)@,
                layer_command(old(self)@.scenes, *db, text::views(args@), amounts@),
            ),
            layer_answer_view(r) == layer_command_answer(
                layer_command(old(self)@.scenes, *db, text::views(args@), amounts@),
            ),
    {
        let ghost av = text::views(args@);
        let ghost before = self@;
        let ghost command = layer_command(before.scenes, *db, av, amounts@);
        let known: [&str; 5] = ["-layer", "-via", "-capacitance", "-resistance", "-corner"];
        let none: [&str; 0] = [];
        assert(args::str_views(known@) =~= layer_keys());
        assert(args::str_views(none@) =~= Seq::<Seq<char>>::empty());
        let keys = match parse_key_args(args, &known, &none) {
            Err(e) => return Err(e),
            Ok(k) => k,
        };
        if keys.has_key("-layer") && keys.has_key("-via") {
            return Err("[ERROR EST-0201] Use -layer or -via but not both.".to_owned());
        }
        let corner = match corner_of(self, args, &keys) {
            Err(e) => return Err(e),
            Ok(c) => c,
        };
        if let Some(p) = keys.get("-layer") {
            let name = args[p].as_str();
            assert(name@ == av[p as int]);
            let layer = match find_named(&db.layers, name) {
                None => return Err(framed("[ERROR EST-0202] layer ", name, " not found.")),
                Some(layer) => layer,
            };
            if layer.routing_level == 0 {
                return Err(framed("[ERROR EST-0203] ", name, " is not a routing layer."));
            }
            if !keys.has_key("-capacitance") && !keys.has_key("-resistance") {
                return Err("[ERROR EST-0204] missing -capacitance or -resistance argument.".to_owned());
            }
            let cap = match amount_of(args, amounts, &keys, "-capacitance") {
                Err(e) => return Err(e),
                Ok(Some(a)) => a.farad_per_metre,
                Ok(None) => Quantity::zero(),
            };
            let res = match amount_of(args, amounts, &keys, "-resistance") {
                Err(e) => return Err(e),
                Ok(Some(a)) => a.ohm_per_metre,
                Ok(None) => Quantity::zero(),
            };
            self.set_layer_rc_table(layer.number, corner, res.stored, cap.stored);
            if corner.is_none() {
                Ok(Some(LayerWrite::Wire { layer: name.to_owned(), res: res.given, cap: cap.given }))
            } else {
                Ok(None)
            }
        } else if let Some(p) = keys.get("-via") {
            let name = args[p].as_str();
            assert(name@ == av[p as int]);
            let layer = match find_named(&db.layers, name) {
                None => return Err(framed("[ERROR EST-0205] via ", name, " not found.")),
                Some(layer) => layer,
            };
            if keys.has_key("-capacitance") {
                self.log.push("[WARNING EST-0206] -capacitance not supported for vias.".to_owned());
                assert(self@.log =~= before.log.push(via_cap_warning()));
            }
            let res = match amount_of(args, amounts, &keys, "-resistance") {
                Err(e) => return Err(e),
                Ok(Some(a)) => a.ohm,
                Ok(None) => return Err("[ERROR EST-0208] no -resistance specified for via.".to_owned()),
            };
            self.set_layer_rc_table(layer.number, corner, res.stored, Double::zero());
            if corner.is_none() {
                Ok(Some(LayerWrite::Via { layer: name.to_owned(), res: res.given }))
            } else {
                Ok(None)
            }
        } else {
            Err("[ERROR EST-0209] missing -layer or -via argument.".to_owned())
        }
    }
}

/// A layer reads back what `set_layer_rc` set: the narrowed resistance and capacitance, in the
/// corner that was named or in every corner, and nothing else reads otherwise than before.
pub proof fn law_set_layer_rc_reads_back(
    old: RcView,
    command: (bool, Result<LayerPlan, Seq<char>>),
    number: int,
    corner: int,
)
    requires
        0 <= corner,
        command.1 matches Ok(plan) ==> (plan.corner matches Some(c) ==> c < old.scenes.len()),
    ensures
        ({
            let new = layer_command_state(old, command);
            match command.1 {
                Ok(plan) => {
                    let meant = number == plan.number && rc::chosen(plan.corner, old.scenes.len() as int, corner);
                    &&& rc::layer_value(new.layer_res, number, corner) == if meant {
                        plan.res.stored
                    } else {
                        rc::layer_value(old.layer_res, number, corner)
                    }
                    &&& rc::layer_value(new.layer_cap, number, corner) == if meant {
                        plan.cap.stored
                    } else {
                        rc::layer_value(old.layer_cap, number, corner)
                    }
                },
                Err(_) => new.layer_res == old.layer_res && new.layer_cap == old.layer_cap,
            }
        }),
{
    if let Ok(plan) = command.1 {
        let n = old.scenes.len() as int;
        rc::law_layer_set_reads_back(
            old.layer_res,
            plan.number as int,
            n,
            plan.corner,
            plan.res.stored,
            number,
            corner,
        );
        rc::law_layer_set_reads_back(
            old.layer_cap,
            plan.number as int,
            n,
            plan.corner,
            plan.cap.stored,
            number,
            corner,
        );
    }
}

} // verus!
