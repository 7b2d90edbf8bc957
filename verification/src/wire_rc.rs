//! `set_wire_rc`: the wire R and C of signal and clock nets, from layers or given outright.

use vstd::prelude::*;
use vstd::string::*;

use crate::args;
use crate::args::{parse_key_args, KeyArgs};
use crate::db;
use crate::db::{find_named, Db, Layer};
use crate::layer_rc;
use crate::layer_rc::{amount_of, corner_of};
use crate::rc;
use crate::rc::{spread_row, Rc, RcView, WireRc, WireRcView};
use crate::text;
use crate::text::{framed, same, split_words};
use crate::value::{Amount, Double, Quantity, HV};

verus! {

/// The four values of a wire RC.
#[derive(Debug, Clone, Copy, PartialEq, Eq, Structural)]
pub struct WireValues {
    pub h_res: Quantity,
    pub h_cap: Quantity,
    pub v_res: Quantity,
    pub v_cap: Quantity,
}

/// The values that the layers of a wire RC have, for horizontal and for vertical wires.
#[derive(Debug, PartialEq, Eq)]
pub struct LayerValues {
    pub h_res: Vec<Double>,
    pub h_cap: Vec<Double>,
    pub v_res: Vec<Double>,
    pub v_cap: Vec<Double>,
}

/// [`LayerValues`] as sequences.
pub struct LayerValuesView {
    pub h_res: Seq<Double>,
    pub h_cap: Seq<Double>,
    pub v_res: Seq<Double>,
    pub v_cap: Seq<Double>,
}

impl View for LayerValues {
    type V = LayerValuesView;

    open spec fn view(&self) -> LayerValuesView {
        LayerValuesView { h_res: self.h_res@, h_cap: self.h_cap@, v_res: self.v_res@, v_cap: self.v_cap@ }
    }
}

/// Where the values of a wire RC come from.
#[derive(Debug, PartialEq, Eq)]
pub enum WireSource {
    /// Each is the mean of what the layers have.
    Means(LayerValues),
    /// They are these.
    Values(WireValues),
}

/// A [`WireSource`] with its lists as sequences.
pub enum WireSourceView {
    Means(LayerValuesView),
    Values(WireValues),
}

impl View for WireSource {
    type V = WireSourceView;

    open spec fn view(&self) -> WireSourceView {
        match self {
            WireSource::Means(m) => WireSourceView::Means(m@),
            WireSource::Values(v) => WireSourceView::Values(*v),
        }
    }
}

/// What a `set_wire_rc` is to do.
#[derive(Debug, PartialEq, Eq)]
pub struct WirePlan {
    /// The technology; `None` for the shared entry.
    pub tech: Option<String>,
    /// `-clock` and `-signal` were given.
    pub clk: bool,
    pub signal: bool,
    /// The corner; `None` for every corner.
    pub corner: Option<usize>,
    /// The numbers of the layers that were named.
    pub added: Vec<i32>,
    pub source: WireSource,
}

/// A [`WirePlan`] with its texts and lists as sequences.
pub struct WirePlanView {
    pub tech: Option<Seq<char>>,
    pub clk: bool,
    pub signal: bool,
    pub corner: Option<usize>,
    pub added: Seq<i32>,
    pub source: WireSourceView,
}

impl View for WirePlan {
    type V = WirePlanView;

    open spec fn view(&self) -> WirePlanView {
        WirePlanView {
            tech: rc::tech_view(self.tech),
            clk: self.clk,
            signal: self.signal,
            corner: self.corner,
            added: self.added@,
            source: self.source@,
        }
    }
}

/// The keys of `set_wire_rc`.
pub open spec fn wire_keys() -> Seq<Seq<char>> {
    seq![
        "-layer"@,
        "-layers"@,
        "-resistance"@,
        "-capacitance"@,
        "-corner"@,
        "-h_resistance"@,
        "-h_capacitance"@,
        "-v_resistance"@,
        "-v_capacitance"@,
        "-tech"@,
    ]
}

/// The flags of `set_wire_rc`.
pub open spec fn wire_flags() -> Seq<Seq<char>> {
    seq!["-clock"@, "-signal"@, "-data"@, "-redistribution_layer"@]
}

/// The technology that `-tech` names, which has to be the design's own; `None` where it is not
/// given.
pub open spec fn named_tech(
    db: Db,
    args: Seq<Seq<char>>,
    keys: Map<Seq<char>, int>,
) -> Result<Option<Seq<char>>, Seq<char>> {
    if !keys.contains_key("-tech"@) {
        Ok(None)
    } else if args[keys["-tech"@]] == db.tech_name@ {
        Ok(Some(args[keys["-tech"@]]))
    } else {
        Err("[ERROR EST-0030] technology "@ + args[keys["-tech"@]] + " not found."@)
    }
}

/// A layer's resistance and capacitance: the technology's own without a corner, the layer table's
/// in one.
pub open spec fn layer_quantities(state: RcView, layer: Layer, corner: Option<usize>) -> (Quantity, Quantity) {
    match corner {
        None => (layer.wire_res, layer.wire_cap),
        Some(c) => (
            Quantity::exactly(rc::layer_value(state.layer_res, layer.number as int, c as int)),
            Quantity::exactly(rc::layer_value(state.layer_cap, layer.number as int, c as int)),
        ),
    }
}

/// The direction of the layer `name`: the last that is listed for it.
pub open spec fn direction_of(dirs: Seq<(String, String)>, name: Seq<char>) -> Option<Seq<char>>
    decreases dirs.len(),
{
    if dirs.len() == 0 {
        None
    } else if dirs.last().0@ == name {
        Some(dirs.last().1@)
    } else {
        direction_of(dirs.drop_last(), name)
    }
}

/// A layer carries horizontal wires: all layers do but the vertical ones.
pub open spec fn carries_h(dirs: Seq<(String, String)>, name: Seq<char>) -> bool {
    direction_of(dirs, name) != Some("VERTICAL"@)
}

/// A layer carries vertical wires: all layers do but the horizontal ones.
pub open spec fn carries_v(dirs: Seq<(String, String)>, name: Seq<char>) -> bool {
    direction_of(dirs, name) != Some("HORIZONTAL"@)
}

/// What the layers `names` have, each for the wires that it carries.
pub open spec fn layers_have(
    state: RcView,
    db: Db,
    dirs: Seq<(String, String)>,
    corner: Option<usize>,
    names: Seq<Seq<char>>,
) -> LayerValuesView
    decreases names.len(),
{
    if names.len() == 0 {
        LayerValuesView { h_res: Seq::empty(), h_cap: Seq::empty(), v_res: Seq::empty(), v_cap: Seq::empty() }
    } else {
        let before = layers_have(state, db, dirs, corner, names.drop_last());
        let (r, c) = layer_quantities(state, db::first_named(db.layers@, names.last())->0, corner);
        let (h, v) = (carries_h(dirs, names.last()), carries_v(dirs, names.last()));
        LayerValuesView {
            h_res: if h { before.h_res.push(r.given) } else { before.h_res },
            h_cap: if h { before.h_cap.push(c.given) } else { before.h_cap },
            v_res: if v { before.v_res.push(r.given) } else { before.v_res },
            v_cap: if v { before.v_cap.push(c.given) } else { before.v_cap },
        }
    }
}

/// The first of `names` that is no layer.
pub open spec fn first_unknown(db: Db, names: Seq<Seq<char>>) -> Option<Seq<char>>
    decreases names.len(),
{
    if names.len() == 0 {
        None
    } else if db::first_named(db.layers@, names[0]) is None {
        Some(names[0])
    } else {
        first_unknown(db, names.skip(1))
    }
}

/// The numbers of the layers `names`.
pub open spec fn layer_numbers(db: Db, names: Seq<Seq<char>>) -> Seq<i32> {
    Seq::new(names.len(), |i: int| (db::first_named(db.layers@, names[i])->0).number)
}

/// What `set_wire_rc -layers` takes its values from, and the layers' numbers.
pub open spec fn layers_source(
    state: RcView,
    db: Db,
    args: Seq<Seq<char>>,
    keys: Map<Seq<char>, int>,
    corner: Option<usize>,
) -> Result<(WireSourceView, Seq<i32>), Seq<char>> {
    let names = text::words(args[keys["-layers"@]]);
    if keys.contains_key("-h_resistance"@) || keys.contains_key("-h_capacitance"@) || keys.contains_key(
        "-v_resistance"@,
    ) || keys.contains_key("-v_capacitance"@) {
        Err("[ERROR EST-0001] Use -layers or -resistance/-capacitance but not both."@)
    } else if keys.contains_key("-layer"@) {
        Err("[ERROR EST-0006] Use -layers or -layer but not both."@)
    } else {
        match db.directions {
            Err(e) => Err(e@),
            Ok(dirs) => match first_unknown(db, names) {
                Some(name) => Err("[ERROR EST-0002] layer "@ + name + " not found."@),
                None => {
                    let have = layers_have(state, db, dirs@, corner, names);
                    if have.h_res.len() == 0 {
                        Err("[ERROR EST-0016] No horizontal layer specified."@)
                    } else if have.v_res.len() == 0 {
                        Err("[ERROR EST-0017] No vertical layer specified."@)
                    } else {
                        Ok((WireSourceView::Means(have), layer_numbers(db, names)))
                    }
                },
            },
        }
    }
}

/// What `set_wire_rc -layer` takes its values from, and the layer's number.
pub open spec fn layer_source(
    state: RcView,
    db: Db,
    args: Seq<Seq<char>>,
    keys: Map<Seq<char>, int>,
    corner: Option<usize>,
) -> Result<(WireSourceView, Seq<i32>), Seq<char>> {
    match db::first_named(db.layers@, args[keys["-layer"@]]) {
        None => Err("[ERROR EST-0015] layer "@ + args[keys["-layer"@]] + " not found."@),
        Some(layer) => {
            let (r, c) = layer_quantities(state, layer, corner);
            Ok(
                (
                    WireSourceView::Values(WireValues { h_res: r, h_cap: c, v_res: r, v_cap: c }),
                    seq![layer.number],
                ),
            )
        },
    }
}

/// A resistance: `own` where it is given, else `both`, else 0.
pub open spec fn res_or(own: Option<Amount>, both: Option<Amount>) -> Quantity {
    match own {
        Some(a) => a.ohm_per_metre,
        None => match both {
            Some(a) => a.ohm_per_metre,
            None => Quantity::zero(),
        },
    }
}

/// A capacitance: `own` where it is given, else `both`, else 0.
pub open spec fn cap_or(own: Option<Amount>, both: Option<Amount>) -> Quantity {
    match own {
        Some(a) => a.farad_per_metre,
        None => match both {
            Some(a) => a.farad_per_metre,
            None => Quantity::zero(),
        },
    }
}

/// The values that are given outright; the first of them that is no number is an error.
pub open spec fn given_source(
    args: Seq<Seq<char>>,
    amounts: Seq<Option<Amount>>,
    keys: Map<Seq<char>, int>,
) -> Result<(WireSourceView, Seq<i32>), Seq<char>> {
    let r = layer_rc::named_amount(args, amounts, keys, "-resistance"@);
    let c = layer_rc::named_amount(args, amounts, keys, "-capacitance"@);
    let hr = layer_rc::named_amount(args, amounts, keys, "-h_resistance"@);
    let hc = layer_rc::named_amount(args, amounts, keys, "-h_capacitance"@);
    let vr = layer_rc::named_amount(args, amounts, keys, "-v_resistance"@);
    let vc = layer_rc::named_amount(args, amounts, keys, "-v_capacitance"@);
    if r is Err {
        Err(r->Err_0)
    } else if c is Err {
        Err(c->Err_0)
    } else if hr is Err {
        Err(hr->Err_0)
    } else if hc is Err {
        Err(hc->Err_0)
    } else if vr is Err {
        Err(vr->Err_0)
    } else if vc is Err {
        Err(vc->Err_0)
    } else {
        Ok(
            (
                WireSourceView::Values(
                    WireValues {
                        h_res: res_or(hr->Ok_0, r->Ok_0),
                        h_cap: cap_or(hc->Ok_0, c->Ok_0),
                        v_res: res_or(vr->Ok_0, r->Ok_0),
                        v_cap: cap_or(vc->Ok_0, c->Ok_0),
                    },
                ),
                Seq::empty(),
            ),
        )
    }
}

/// What `set_wire_rc` is to do, or what is wrong with it.
pub open spec fn wire_command(
    state: RcView,
    db: Db,
    args: Seq<Seq<char>>,
    amounts: Seq<Option<Amount>>,
) -> Result<WirePlanView, Seq<char>> {
    match args::key_args(args, wire_keys(), wire_flags()) {
        Err(e) => Err(e),
        Ok(given) => {
            let keys = given.keys;
            match layer_rc::named_corner(state.scenes, args, keys) {
                Err(e) => Err(e),
                Ok(corner) => if given.flags.contains("-redistribution_layer"@) {
                    Err("set_wire_rc -redistribution_layer: RDL chips are not modelled"@)
                } else {
                    match named_tech(db, args, keys) {
                        Err(e) => Err(e),
                        Ok(tech) => {
                            let source = if keys.contains_key("-layers"@) {
                                layers_source(state, db, args, keys, corner)
                            } else if keys.contains_key("-layer"@) {
                                layer_source(state, db, args, keys, corner)
                            } else {
                                given_source(args, amounts, keys)
                            };
                            match source {
                                Err(e) => Err(e),
                                Ok((source, added)) => Ok(
                                    WirePlanView {
                                        tech,
                                        clk: given.flags.contains("-clock"@),
                                        signal: given.flags.contains("-signal"@),
                                        corner,
                                        added,
                                        source,
                                    },
                                ),
                            }
                        },
                    }
                },
            }
        },
    }
}

/// A source with its layers' numbers, as sequences.
pub open spec fn source_view(r: Result<(WireSource, Vec<i32>), String>) -> Result<
    (WireSourceView, Seq<i32>),
    Seq<char>,
> {
    match r {
        Ok((s, n)) => Ok((s@, n@)),
        Err(e) => Err(e@),
    }
}

/// A source that takes means has something to take each of them of.
pub open spec fn has_values(source: WireSourceView) -> bool {
    source matches WireSourceView::Means(m) ==> {
        &&& m.h_res.len() > 0
        &&& m.h_cap.len() > 0
        &&& m.v_res.len() > 0
        &&& m.v_cap.len() > 0
    }
}

/// A plan or what is wrong with the command, as sequences.
pub open spec fn plan_view(r: Result<WirePlan, String>) -> Result<WirePlanView, Seq<char>> {
    match r {
        Ok(p) => Ok(p@),
        Err(e) => Err(e@),
    }
}

/// The place in `dirs` of the last direction of the layer `name`.
fn find_direction(dirs: &Vec<(String, String)>, name: &str) -> (r: Option<usize>)
    ensures
        r is Some == direction_of(dirs@, name@) is Some,
        r matches Some(i) ==> i < dirs@.len() && direction_of(dirs@, name@) == Some(dirs@[i as int].1@),
{
    let mut n: usize = dirs.len();
    assert(dirs@.take(n as int) =~= dirs@);
    while n > 0
        invariant
            n <= dirs@.len(),
            direction_of(dirs@, name@) == direction_of(dirs@.take(n as int), name@),
        decreases n,
    {
        assert(dirs@.take(n as int).drop_last() =~= dirs@.take(n - 1));
        if same(dirs[n - 1].0.as_str(), name) {
            return Some(n - 1);
        }
        n = n - 1;
    }
    None
}

proof fn lemma_first_unknown(db: Db, names: Seq<Seq<char>>, i: int)
    requires
        0 <= i < names.len(),
        forall|k: int| 0 <= k < i ==> db::first_named(db.layers@, #[trigger] names[k]) is Some,
        db::first_named(db.layers@, names[i]) is None,
    ensures
        first_unknown(db, names) == Some(names[i]),
    decreases i,
{
    if i > 0 {
        assert(db::first_named(db.layers@, names[0]) is Some);
        lemma_first_unknown(db, names.skip(1), i - 1);
    }
}

proof fn lemma_all_known(db: Db, names: Seq<Seq<char>>)
    requires
        forall|k: int| 0 <= k < names.len() ==> db::first_named(db.layers@, #[trigger] names[k]) is Some,
    ensures
        first_unknown(db, names) is None,
    decreases names.len(),
{
    if names.len() > 0 {
        assert(db::first_named(db.layers@, names[0]) is Some);
        lemma_all_known(db, names.skip(1));
    }
}

impl Rc {
    /// A layer's resistance and capacitance: the technology's own without a corner, the layer
    /// table's in one.
    fn table_or_db(&self, layer: &Layer, corner: Option<usize>) -> (r: (Quantity, Quantity))
        requires
            self.wf(),
        ensures
            r == layer_quantities(self@, *layer, corner),
    {
        match corner {
            None => (layer.wire_res, layer.wire_cap),
            Some(c) => {
                let (r, c) = self.layer_rc(layer.number, c);
                (Quantity::exactly(r), Quantity::exactly(c))
            },
        }
    }

    fn source_of_layers(&self, db: &Db, args: &Vec<String>, keys: &KeyArgs, corner: Option<usize>, p: usize) -> (r:
        Result<(WireSource, Vec<i32>), String>)
        requires
            self.wf(),
            p < args@.len(),
            keys@.keys.contains_key("-layers"@),
            keys@.keys["-layers"@] == p,
        ensures
            source_view(r) == layers_source(self@, *db, text::views(args@), keys@.keys, corner),
            r matches Ok(found) ==> has_values(found.0@),
    {
        if keys.has_key("-h_resistance") || keys.has_key("-h_capacitance") || keys.has_key("-v_resistance")
            || keys.has_key("-v_capacitance") {
            return Err("[ERROR EST-0001] Use -layers or -resistance/-capacitance but not both.".to_owned());
        }
        if keys.has_key("-layer") {
            return Err("[ERROR EST-0006] Use -layers or -layer but not both.".to_owned());
        }
        let dirs = match &db.directions {
            Err(e) => return Err(e.clone()),
            Ok(dirs) => dirs,
        };
        let names = split_words(args[p].as_str());
        let ghost nv = text::views(names@);
        let n: usize = names.len();
        let mut have = LayerValues { h_res: Vec::new(), h_cap: Vec::new(), v_res: Vec::new(), v_cap: Vec::new() };
        let mut numbers: Vec<i32> = Vec::new();
        let mut i: usize = 0;
        #[verifier::loop_isolation(false)]
        while i < n
            invariant
                i <= n,
                have.h_res@.len() == have.h_cap@.len(),
                have.v_res@.len() == have.v_cap@.len(),
                forall|k: int| 0 <= k < i ==> db::first_named(db.layers@, #[trigger] nv[k]) is Some,
                have@ == layers_have(self@, *db, dirs@, corner, nv.take(i as int)),
                numbers@ == layer_numbers(*db, nv.take(i as int)),
            decreases n - i,
        {
            let name = names[i].as_str();
            assert(name@ == nv[i as int]);
            let layer = match find_named(&db.layers, name) {
                None => {
                    proof {
                        lemma_first_unknown(*db, nv, i as int);
                    }
                    return Err(framed("[ERROR EST-0002] layer ", name, " not found."));
                },
                Some(layer) => layer,
            };
            let (r, c) = self.table_or_db(layer, corner);
            let (h, v) = match find_direction(dirs, name) {
                None => (true, true),
                Some(k) => (!same(dirs[k].1.as_str(), "VERTICAL"), !same(dirs[k].1.as_str(), "HORIZONTAL")),
            };
            assert(nv.take(i + 1).drop_last() =~= nv.take(i as int));
            if h {
                have.h_res.push(r.given);
                have.h_cap.push(c.given);
            }
            if v {
                have.v_res.push(r.given);
                have.v_cap.push(c.given);
            }
            numbers.push(layer.number);
            i = i + 1;
            assert(numbers@ =~= layer_numbers(*db, nv.take(i as int)));
        }
        assert(nv.take(n as int) =~= nv);
        proof {
            lemma_all_known(*db, nv);
        }
        if have.h_res.len() == 0 {
            return Err("[ERROR EST-0016] No horizontal layer specified.".to_owned());
        }
        if have.v_res.len() == 0 {
            return Err("[ERROR EST-0017] No vertical layer specified.".to_owned());
        }
        Ok((WireSource::Means(have), numbers))
    }

    /// What `set_wire_rc` is to do, or what is wrong with it. The `amounts` are the arguments as
    /// numbers, where they are such.
    pub fn plan_wire_rc(&self, db: &Db, args: &Vec<String>, amounts: &Vec<Option<Amount>>) -> (r: Result<
        WirePlan,
        String,
    >)
        requires
            self.wf(),
            amounts@.len() == args@.len(),
        ensures
            plan_view(r) == wire_command(self@, *db, text::views(args@), amounts@),
            r matches Ok(p) ==> (p.corner matches Some(c) ==> c < self@.scenes.len()),
            r matches Ok(p) ==> has_values(p@.source),
    {
        let ghost av = text::views(args@);
        let known: [&str; 10] = [
            "-layer",
            "-layers",
            "-resistance",
            "-capacitance",
            "-corner",
            "-h_resistance",
            "-h_capacitance",
            "-v_resistance",
            "-v_capacitance",
            "-tech",
        ];
        let flags: [&str; 4] = ["-clock", "-signal", "-data", "-redistribution_layer"];
        assert(args::str_views(known@) =~= wire_keys());
        assert(args::str_views(flags@) =~= wire_flags());
        let keys = match parse_key_args(args, &known, &flags) {
            Err(e) => return Err(e),
            Ok(k) => k,
        };
        let corner = match corner_of(self, args, &keys) {
            Err(e) => return Err(e),
            Ok(c) => c,
        };
        if keys.has_flag("-redistribution_layer") {
            return Err("set_wire_rc -redistribution_layer: RDL chips are not modelled".to_owned());
        }
        let tech: Option<String> = match keys.get("-tech") {
            None => None,
            Some(p) => {
                let t = args[p].as_str();
                assert(t@ == av[p as int]);
                if !same(t, db.tech_name.as_str()) {
                    return Err(framed("[ERROR EST-0030] technology ", t, " not found."));
                }
                Some(args[p].clone())
            },
        };
        let found: Result<(WireSource, Vec<i32>), String> = if let Some(p) = keys.get("-layers") {
            self.source_of_layers(db, args, &keys, corner, p)
        } else if let Some(p) = keys.get("-layer") {
            let name = args[p].as_str();
            assert(name@ == av[p as int]);
            match find_named(&db.layers, name) {
                None => Err(framed("[ERROR EST-0015] layer ", name, " not found.")),
                Some(layer) => {
                    let (r, c) = self.table_or_db(layer, corner);
                    let mut numbers: Vec<i32> = Vec::new();
                    numbers.push(layer.number);
                    assert(numbers@ =~= seq![layer.number]);
                    Ok((WireSource::Values(WireValues { h_res: r, h_cap: c, v_res: r, v_cap: c }), numbers))
                },
            }
        } else {
            source_given(args, amounts, &keys)
        };
        match found {
            Err(e) => Err(e),
            Ok((source, added)) => Ok(
                WirePlan {
                    tech,
                    clk: keys.has_flag("-clock"),
                    signal: keys.has_flag("-signal"),
                    corner,
                    added,
                    source,
                },
            ),
        }
    }
}

/// A resistance: `own` where it is given, else `both`, else 0.
fn pick_res(own: Option<Amount>, both: Option<Amount>) -> (r: Quantity)
    ensures
        r == res_or(own, both),
{
    match own {
        Some(a) => a.ohm_per_metre,
        None => match both {
            Some(a) => a.ohm_per_metre,
            None => Quantity::zero(),
        },
    }
}

/// A capacitance: `own` where it is given, else `both`, else 0.
fn pick_cap(own: Option<Amount>, both: Option<Amount>) -> (r: Quantity)
    ensures
        r == cap_or(own, both),
{
    match own {
        Some(a) => a.farad_per_metre,
        None => match both {
            Some(a) => a.farad_per_metre,
            None => Quantity::zero(),
        },
    }
}

/// The values that are given outright.
fn source_given(args: &Vec<String>, amounts: &Vec<Option<Amount>>, keys: &KeyArgs) -> (r: Result<
    (WireSource, Vec<i32>),
    String,
>)
    requires
        keys.within(args@.len() as int),
        amounts@.len() == args@.len(),
    ensures
        source_view(r) == given_source(text::views(args@), amounts@, keys@.keys),
        r matches Ok(found) ==> has_values(found.0@),
{
    let r = match amount_of(args, amounts, keys, "-resistance") {
        Err(e) => return Err(e),
        Ok(a) => a,
    };
    let c = match amount_of(args, amounts, keys, "-capacitance") {
        Err(e) => return Err(e),
        Ok(a) => a,
    };
    let hr = match amount_of(args, amounts, keys, "-h_resistance") {
        Err(e) => return Err(e),
        Ok(a) => a,
    };
    let hc = match amount_of(args, amounts, keys, "-h_capacitance") {
        Err(e) => return Err(e),
        Ok(a) => a,
    };
    let vr = match amount_of(args, amounts, keys, "-v_resistance") {
        Err(e) => return Err(e),
        Ok(a) => a,
    };
    let vc = match amount_of(args, amounts, keys, "-v_capacitance") {
        Err(e) => return Err(e),
        Ok(a) => a,
    };
    let none: Vec<i32> = Vec::new();
    assert(none@ =~= Seq::empty());
    Ok(
        (
            WireSource::Values(
                WireValues {
                    h_res: pick_res(hr, r),
                    h_cap: pick_cap(hc, c),
                    v_res: pick_res(vr, r),
                    v_cap: pick_cap(vc, c),
                },
            ),
            none,
        ),
    )
}

/// Signal nets are meant: by `-signal`, or by the lack of `-clock`.
pub open spec fn means_signal(plan: WirePlanView) -> bool {
    plan.signal || !plan.clk
}

/// Clock nets are meant: by `-clock`, or by the lack of `-signal`.
pub open spec fn means_clk(plan: WirePlanView) -> bool {
    plan.clk || !plan.signal
}

/// A wire RC with the layers and the values of a plan.
pub open spec fn wire_after(before: WireRcView, n: int, plan: WirePlanView, v: WireValues) -> WireRcView {
    let res = HV { h: v.h_res.stored, v: v.v_res.stored };
    let cap = HV { h: v.h_cap.stored, v: v.v_cap.stored };
    let (signal, clk) = (means_signal(plan), means_clk(plan));
    let set = !rc::no_corner(plan.corner, n);
    WireRcView {
        signal_res: if signal && set {
            rc::spread(before.signal_res, n, plan.corner, res, HV::zero())
        } else {
            before.signal_res
        },
        signal_cap: if signal && set {
            rc::spread(before.signal_cap, n, plan.corner, cap, HV::zero())
        } else {
            before.signal_cap
        },
        clk_res: if clk && set {
            rc::spread(before.clk_res, n, plan.corner, res, HV::zero())
        } else {
            before.clk_res
        },
        clk_cap: if clk && set {
            rc::spread(before.clk_cap, n, plan.corner, cap, HV::zero())
        } else {
            before.clk_cap
        },
        signal_layers: if signal {
            before.signal_layers + plan.added
        } else {
            before.signal_layers
        },
        clk_layers: if clk {
            before.clk_layers + plan.added
        } else {
            before.clk_layers
        },
    }
}

/// The nets that a plan means, in words.
pub open spec fn meant_nets(plan: WirePlanView) -> Seq<char> {
    if means_signal(plan) && means_clk(plan) {
        "Signal/clock"@
    } else if means_signal(plan) {
        "Signal"@
    } else {
        "Clock"@
    }
}

/// The warning for one value: none but for 0.
pub open spec fn zero_warning(q: Quantity, before: Seq<char>, what: Seq<char>, behind: Seq<char>) -> Seq<Seq<char>> {
    if q.given.is_zero() {
        seq![before + what + behind]
    } else {
        Seq::empty()
    }
}

/// The warnings for the values that are 0.
pub open spec fn zero_warnings(what: Seq<char>, v: WireValues) -> Seq<Seq<char>> {
    zero_warning(v.h_res, "[WARNING EST-0010] "@, what, " horizontal wire resistance is 0."@) + zero_warning(
        v.v_res,
        "[WARNING EST-0011] "@,
        what,
        " vertical wire resistance is 0."@,
    ) + zero_warning(v.h_cap, "[WARNING EST-0012] "@, what, " horizontal wire capacitance is 0."@) + zero_warning(
        v.v_cap,
        "[WARNING EST-0013] "@,
        what,
        " vertical wire capacitance is 0."@,
    )
}

/// The entry of a technology; one of which nothing is set where it has none.
pub open spec fn entry_of(wire: Map<Option<Seq<char>>, WireRcView>, tech: Option<Seq<char>>) -> WireRcView {
    if wire.contains_key(tech) {
        wire[tech]
    } else {
        rc::no_wire_rc()
    }
}

/// The state after a plan of `set_wire_rc` with the values `v`. Where there is neither a layer to
/// list nor a corner to set, no entry is made.
pub open spec fn wire_applied(old: RcView, plan: WirePlanView, v: WireValues) -> RcView {
    let n = old.scenes.len() as int;
    RcView {
        wire_rc: if plan.added.len() == 0 && rc::no_corner(plan.corner, n) {
            old.wire_rc
        } else {
            old.wire_rc.insert(plan.tech, wire_after(entry_of(old.wire_rc, plan.tech), n, plan, v))
        },
        log: old.log + zero_warnings(meant_nets(plan), v),
        ..old
    }
}

/// Adds `more` at the end of `list`.
fn extend_list(list: &mut Vec<i32>, more: &Vec<i32>)
    ensures
        final(list)@ == old(list)@ + more@,
{
    let ghost before = list@;
    let n: usize = more.len();
    let mut i: usize = 0;
    assert(list@ =~= before + more@.take(0));
    while i < n
        invariant
            n == more@.len(),
            i <= n,
            list@ == before + more@.take(i as int),
        decreases n - i,
    {
        list.push(more[i]);
        i = i + 1;
        assert(list@ =~= before + more@.take(i as int));
    }
    assert(more@.take(n as int) =~= more@);
}

/// The values `v` are those that a plan takes from `mean` or holds.
pub open spec fn values_of<F: Fn(&Vec<Double>) -> Quantity>(source: WireSourceView, mean: F, v: WireValues) -> bool {
    match source {
        WireSourceView::Values(w) => v == w,
        WireSourceView::Means(m) => {
            &&& is_mean(mean, m.h_res, v.h_res)
            &&& is_mean(mean, m.h_cap, v.h_cap)
            &&& is_mean(mean, m.v_res, v.v_res)
            &&& is_mean(mean, m.v_cap, v.v_cap)
        },
    }
}

/// `mean` may answer `q` for the values `s`.
pub open spec fn is_mean<F: Fn(&Vec<Double>) -> Quantity>(mean: F, s: Seq<Double>, q: Quantity) -> bool {
    exists|list: Vec<Double>| list@ == s && #[trigger] call_ensures(mean, (&list,), q)
}

impl Rc {
    /// Warns where a value is 0.
    fn warn_of_zero(&mut self, q: Quantity, before: &str, what: &str, behind: &str)
        requires
            old(self).wf(),
        ensures
            final(self).wf(),
            final(self)@ == (RcView {
                log: old(self)@.log + zero_warning(q, before@, what@, behind@),
                ..old(self)@
            }),
    {
        let ghost was = self@;
        if q.given.is_zero() {
            self.log.push(framed(before, what, behind));
        }
        assert(self@.log =~= was.log + zero_warning(q, before@, what@, behind@));
    }

    /// Does what a plan of `set_wire_rc` says, with the values `v`.
    pub fn apply_wire_rc(&mut self, plan: &WirePlan, v: WireValues)
        requires
            old(self).wf(),
        ensures
            final(self).wf(),
            final(self)@ == wire_applied(old(self)@, plan@, v),
    {
        let ghost was = self@;
        let n: usize = self.scenes.len();
        let set = !(plan.corner.is_none() && n == 0);
        let (signal, clk) = (plan.signal || !plan.clk, plan.clk || !plan.signal);
        if plan.added.len() > 0 || set {
            let mut w = match self.wire_rc.get(&plan.tech) {
                Some(w) => w.copy(),
                None => WireRc::new(),
            };
            let ghost entry = w@;
            assert(entry == entry_of(was.wire_rc, plan@.tech));
            if clk {
                extend_list(&mut w.clk_layers, &plan.added);
            }
            if signal {
                extend_list(&mut w.signal_layers, &plan.added);
            }
            if set {
                let res = HV { h: v.h_res.stored, v: v.v_res.stored };
                let cap = HV { h: v.h_cap.stored, v: v.v_cap.stored };
                if signal {
                    w.signal_res = spread_row(&w.signal_res, n, plan.corner, res, HV::zero());
                    w.signal_cap = spread_row(&w.signal_cap, n, plan.corner, cap, HV::zero());
                }
                if clk {
                    w.clk_res = spread_row(&w.clk_res, n, plan.corner, res, HV::zero());
                    w.clk_cap = spread_row(&w.clk_cap, n, plan.corner, cap, HV::zero());
                }
            }
            assert(w@ == wire_after(entry, n as int, plan@, v));
            self.wire_rc.set(&plan.tech, w);
        }
        let what = if signal && clk {
            "Signal/clock"
        } else if signal {
            "Signal"
        } else {
            "Clock"
        };
        self.warn_of_zero(v.h_res, "[WARNING EST-0010] ", what, " horizontal wire resistance is 0.");
        self.warn_of_zero(v.v_res, "[WARNING EST-0011] ", what, " vertical wire resistance is 0.");
        self.warn_of_zero(v.h_cap, "[WARNING EST-0012] ", what, " horizontal wire capacitance is 0.");
        self.warn_of_zero(v.v_cap, "[WARNING EST-0013] ", what, " vertical wire capacitance is 0.");
        assert(self@.log =~= was.log + zero_warnings(what@, v));
    }

    /// `set_wire_rc`. The `amounts` are the arguments as numbers, where they are such, and `mean`
    /// gives the mean of some doubles.
    pub fn set_wire_rc<F: Fn(&Vec<Double>) -> Quantity>(
        &mut self,
        db: &Db,
        args: &Vec<String>,
        amounts: &Vec<Option<Amount>>,
        mean: F,
    ) -> (r: Result<(), String>)
        requires
            old(self).wf(),
            amounts@.len() == args@.len(),
            forall|list: &Vec<Double>| list@.len() > 0 ==> #[trigger] call_requires(mean, (list,)),
        ensures
            final(self).wf(),
            match wire_command(old(self)@, *db, text::views(args@), amounts@) {
                Err(e) => r matches Err(got) && got@ == e && final(self)@ == old(self)@,
                Ok(plan) => r is Ok && exists|v: WireValues|
                    #[trigger] values_of(plan.source, mean, v) && final(self)@ == wire_applied(old(self)@, plan, v),
            },
    {
        let plan = match self.plan_wire_rc(db, args, amounts) {
            Err(e) => return Err(e),
            Ok(plan) => plan,
        };
        let v = match &plan.source {
            WireSource::Values(v) => *v,
            WireSource::Means(m) => WireValues {
                h_res: mean(&m.h_res),
                h_cap: mean(&m.h_cap),
                v_res: mean(&m.v_res),
                v_cap: mean(&m.v_cap),
            },
        };
        assert(values_of(plan@.source, mean, v));
        self.apply_wire_rc(&plan, v);
        Ok(())
    }
}

/// The shared entry or the technology's own is what the technology's list comes from: `tech` is
/// the technology's own, or the shared one and the technology has no such list of its own.
pub open spec fn governs<C: rc::Category>(
    wire: Map<Option<Seq<char>>, WireRcView>,
    tech: Option<Seq<char>>,
    current: Seq<char>,
) -> bool {
    tech == Some(current) || (tech is None && !(wire.contains_key(Some(current)) && C::of(
        wire[Some(current)],
    ).len() > 0))
}

/// What `set_wire_rc` set is what resolves: in every corner that was meant, the technology reads
/// the narrowed values for the nets that were meant, unless it has values of its own before the
/// shared ones that were set.
pub proof fn law_set_wire_rc_reads_back(
    old: RcView,
    plan: WirePlanView,
    v: WireValues,
    current: Seq<char>,
    corner: int,
)
    requires
        plan.corner matches Some(c) ==> c < old.scenes.len(),
        0 <= corner < old.scenes.len(),
        rc::chosen(plan.corner, old.scenes.len() as int, corner),
    ensures
        ({
            let got = rc::resolved_values(wire_applied(old, plan, v).wire_rc, current, corner);
            let w = old.wire_rc;
            &&& means_signal(plan) && governs::<rc::SignalRes>(w, plan.tech, current) ==> got[0] == v.h_res.stored
                && got[1] == v.v_res.stored
            &&& means_signal(plan) && governs::<rc::SignalCap>(w, plan.tech, current) ==> got[2] == v.h_cap.stored
                && got[3] == v.v_cap.stored
            &&& means_clk(plan) && governs::<rc::ClkRes>(w, plan.tech, current) ==> got[4] == v.h_res.stored
                && got[5] == v.v_res.stored
            &&& means_clk(plan) && governs::<rc::ClkCap>(w, plan.tech, current) ==> got[6] == v.h_cap.stored
                && got[7] == v.v_cap.stored
        }),
{
    let n = old.scenes.len() as int;
    let entry = entry_of(old.wire_rc, plan.tech);
    let res = HV { h: v.h_res.stored, v: v.v_res.stored };
    let cap = HV { h: v.h_cap.stored, v: v.v_cap.stored };
    rc::law_spread_reads_back(entry.signal_res, n, plan.corner, res, HV::zero(), corner);
    rc::law_spread_reads_back(entry.signal_cap, n, plan.corner, cap, HV::zero(), corner);
    rc::law_spread_reads_back(entry.clk_res, n, plan.corner, res, HV::zero(), corner);
    rc::law_spread_reads_back(entry.clk_cap, n, plan.corner, cap, HV::zero(), corner);
}

/// `set_wire_rc` for one kind of nets leaves what the other kind reads.
pub proof fn law_set_wire_rc_keeps_other_nets(
    old: RcView,
    plan: WirePlanView,
    v: WireValues,
    current: Seq<char>,
    corner: int,
)
    ensures
        ({
            let after = wire_applied(old, plan, v).wire_rc;
            let got = rc::resolved_values(after, current, corner);
            let was = rc::resolved_values(old.wire_rc, current, corner);
            &&& !means_signal(plan) ==> got[0] == was[0] && got[1] == was[1] && got[2] == was[2] && got[3] == was[3]
                && rc::resolved_list::<rc::SignalLayers>(after, current) == rc::resolved_list::<rc::SignalLayers>(
                old.wire_rc,
                current,
            )
            &&& !means_clk(plan) ==> got[4] == was[4] && got[5] == was[5] && got[6] == was[6] && got[7] == was[7]
                && rc::resolved_list::<rc::ClkLayers>(after, current) == rc::resolved_list::<rc::ClkLayers>(
                old.wire_rc,
                current,
            )
        }),
{
}

} // verus!
