//! The estimator's wire R and C: the layer table that `set_layer_rc` writes, the wire RC of each
//! technology that `set_wire_rc` writes, and what the two resolve to in a corner.

use vstd::prelude::*;
use vstd::string::*;

use crate::order;
use crate::order::sort_keyed;
use crate::table::Table;
use crate::text;
use crate::text::same;
use crate::value::{Double, HV};

verus! {

/// One technology's wire RC, or the shared one.
#[derive(Debug, PartialEq, Eq)]
pub struct WireRc {
    pub signal_res: Vec<HV>,
    pub signal_cap: Vec<HV>,
    pub clk_res: Vec<HV>,
    pub clk_cap: Vec<HV>,
    /// Layer numbers in the order in which they were named, a layer as often as it was named.
    pub signal_layers: Vec<i32>,
    pub clk_layers: Vec<i32>,
}

/// A [`WireRc`] with its lists as sequences, the values by corner.
pub struct WireRcView {
    pub signal_res: Seq<HV>,
    pub signal_cap: Seq<HV>,
    pub clk_res: Seq<HV>,
    pub clk_cap: Seq<HV>,
    pub signal_layers: Seq<i32>,
    pub clk_layers: Seq<i32>,
}

impl View for WireRc {
    type V = WireRcView;

    open spec fn view(&self) -> WireRcView {
        WireRcView {
            signal_res: self.signal_res@,
            signal_cap: self.signal_cap@,
            clk_res: self.clk_res@,
            clk_cap: self.clk_cap@,
            signal_layers: self.signal_layers@,
            clk_layers: self.clk_layers@,
        }
    }
}

/// A wire RC of which nothing is set.
pub open spec fn no_wire_rc() -> WireRcView {
    WireRcView {
        signal_res: Seq::empty(),
        signal_cap: Seq::empty(),
        clk_res: Seq::empty(),
        clk_cap: Seq::empty(),
        signal_layers: Seq::empty(),
        clk_layers: Seq::empty(),
    }
}

/// A copy of a list.
fn copy_list<T: Copy>(v: &Vec<T>) -> (r: Vec<T>)
    ensures
        r@ == v@,
{
    let n: usize = v.len();
    let mut out: Vec<T> = Vec::new();
    let mut i: usize = 0;
    while i < n
        invariant
            n == v@.len(),
            i <= n,
            out@ == v@.take(i as int),
        decreases n - i,
    {
        out.push(v[i]);
        i = i + 1;
        assert(out@ =~= v@.take(i as int));
    }
    assert(out@ =~= v@);
    out
}

impl WireRc {
    /// A wire RC of which nothing is set.
    pub fn new() -> (r: WireRc)
        ensures
            r@ == no_wire_rc(),
    {
        WireRc {
            signal_res: Vec::new(),
            signal_cap: Vec::new(),
            clk_res: Vec::new(),
            clk_cap: Vec::new(),
            signal_layers: Vec::new(),
            clk_layers: Vec::new(),
        }
    }

    pub(crate) fn copy(&self) -> (r: WireRc)
        ensures
            r@ == self@,
    {
        WireRc {
            signal_res: copy_list(&self.signal_res),
            signal_cap: copy_list(&self.signal_cap),
            clk_res: copy_list(&self.clk_res),
            clk_cap: copy_list(&self.clk_cap),
            signal_layers: copy_list(&self.signal_layers),
            clk_layers: copy_list(&self.clk_layers),
        }
    }
}

/// The wire RC by technology name; `None` is the shared entry.
#[derive(Debug, PartialEq, Eq)]
pub struct WireTable {
    techs: Vec<Option<String>>,
    entries: Vec<WireRc>,
}

/// A technology's name as a text.
pub open spec fn tech_view(t: Option<String>) -> Option<Seq<char>> {
    match t {
        Some(s) => Some(s@),
        None => None,
    }
}

/// Whether two technology names are the same.
fn same_tech(a: &Option<String>, b: &Option<String>) -> (r: bool)
    ensures
        r == (tech_view(*a) == tech_view(*b)),
{
    match (a, b) {
        (Some(x), Some(y)) => same(x.as_str(), y.as_str()),
        (None, None) => true,
        _ => false,
    }
}

impl View for WireTable {
    type V = Map<Option<Seq<char>>, WireRcView>;

    closed spec fn view(&self) -> Map<Option<Seq<char>>, WireRcView> {
        Map::new(
            |t: Option<Seq<char>>| self.names().contains(t),
            |t: Option<Seq<char>>| self.entries@[self.names().index_of(t)]@,
        )
    }
}

impl WireTable {
    spec fn names(&self) -> Seq<Option<Seq<char>>> {
        Seq::new(self.techs@.len(), |i: int| tech_view(self.techs@[i]))
    }

    /// Every technology that is named has one entry.
    pub closed spec fn wf(&self) -> bool {
        &&& self.techs@.len() == self.entries@.len()
        &&& forall|i: int, j: int| 0 <= i < j < self.names().len() ==> self.names()[i] != self.names()[j]
    }

    proof fn lemma_at(&self, i: int)
        requires
            self.wf(),
            0 <= i < self.techs@.len(),
        ensures
            self@.contains_key(tech_view(self.techs@[i])),
            self@[tech_view(self.techs@[i])] == self.entries@[i]@,
    {
        let t = tech_view(self.techs@[i]);
        assert(self.names()[i] == t);
        let j = self.names().index_of(t);
        assert(self.names()[j] == t);
        if i < j {
            assert(self.names()[i] != self.names()[j]);
        } else if j < i {
            assert(self.names()[j] != self.names()[i]);
        }
    }

    proof fn lemma_found(&self, t: Option<Seq<char>>) -> (i: int)
        requires
            self.wf(),
            self@.contains_key(t),
        ensures
            0 <= i < self.techs@.len(),
            tech_view(self.techs@[i]) == t,
    {
        let i = self.names().index_of(t);
        assert(self.names()[i] == t);
        i
    }

    pub fn new() -> (r: WireTable)
        ensures
            r.wf(),
            r@ == Map::<Option<Seq<char>>, WireRcView>::empty(),
    {
        let r = WireTable { techs: Vec::new(), entries: Vec::new() };
        assert(r@ =~= Map::<Option<Seq<char>>, WireRcView>::empty());
        r
    }

    /// Where the entry of `t` stands.
    fn seek(&self, t: &Option<String>) -> (r: Option<usize>)
        requires
            self.wf(),
        ensures
            r is Some == self@.contains_key(tech_view(*t)),
            r matches Some(i) ==> i < self.techs@.len() && tech_view(self.techs@[i as int]) == tech_view(*t),
    {
        let n: usize = self.techs.len();
        let mut i: usize = 0;
        while i < n
            invariant
                n == self.techs@.len(),
                i <= n,
                self.wf(),
                forall|k: int| 0 <= k < i ==> tech_view(#[trigger] self.techs@[k]) != tech_view(*t),
            decreases n - i,
        {
            if same_tech(&self.techs[i], t) {
                proof {
                    self.lemma_at(i as int);
                }
                return Some(i);
            }
            i = i + 1;
        }
        proof {
            if self@.contains_key(tech_view(*t)) {
                let k = self.lemma_found(tech_view(*t));
                assert(tech_view(self.techs@[k]) != tech_view(*t));
            }
        }
        None
    }

    /// The entry of `t`.
    pub fn get(&self, t: &Option<String>) -> (r: Option<&WireRc>)
        requires
            self.wf(),
        ensures
            r is Some == self@.contains_key(tech_view(*t)),
            r matches Some(w) ==> w@ == self@[tech_view(*t)],
    {
        match self.seek(t) {
            Some(i) => {
                proof {
                    self.lemma_at(i as int);
                }
                Some(&self.entries[i])
            },
            None => None,
        }
    }

    /// Gives `t` the entry `w`.
    pub fn set(&mut self, t: &Option<String>, w: WireRc)
        requires
            old(self).wf(),
        ensures
            final(self).wf(),
            final(self)@ == old(self)@.insert(tech_view(*t), w@),
    {
        let ghost before = *self;
        let ghost key = tech_view(*t);
        match self.seek(t) {
            Some(i) => {
                self.entries.set(i, w);
                proof {
                    assert(self.names() =~= before.names());
                    self.lemma_at(i as int);
                    assert forall|q: Option<Seq<char>>| q != key && #[trigger] before@.contains_key(q) implies self@[q]
                        == before@[q] by {
                        let k = before.lemma_found(q);
                        before.lemma_at(k);
                        self.lemma_at(k);
                    }
                }
            },
            None => {
                let copy: Option<String> = match t {
                    Some(s) => Some(s.clone()),
                    None => None,
                };
                self.techs.push(copy);
                self.entries.push(w);
                proof {
                    let n = before.techs@.len() as int;
                    assert(self.names() =~= before.names().push(key));
                    assert forall|i: int, j: int| 0 <= i < j < self.names().len() implies self.names()[i]
                        != self.names()[j] by {
                        if j == n {
                            before.lemma_at(i);
                        }
                    }
                    self.lemma_at(n);
                    assert forall|q: Option<Seq<char>>| q != key && #[trigger] before@.contains_key(q) implies self@.contains_key(
                    q) && self@[q] == before@[q] by {
                        let k = before.lemma_found(q);
                        before.lemma_at(k);
                        self.lemma_at(k);
                    }
                    assert forall|q: Option<Seq<char>>| q != key && #[trigger] self@.contains_key(q) implies before@.contains_key(
                    q) by {
                        let k = self.lemma_found(q);
                        before.lemma_at(k);
                    }
                }
            },
        }
        assert(self@ =~= before@.insert(key, w@));
    }
}

/// The estimator's RC state.
pub struct Rc {
    /// The corners, by index.
    pub scenes: Vec<String>,
    pub wire_rc: WireTable,
    /// A layer's resistance and capacitance, by layer number and by corner.
    pub layer_res: Table<Vec<Double>>,
    pub layer_cap: Table<Vec<Double>>,
    pub log: Vec<String>,
}

/// The RC state as maps and sequences.
pub struct RcView {
    pub scenes: Seq<Seq<char>>,
    pub wire_rc: Map<Option<Seq<char>>, WireRcView>,
    pub layer_res: Map<int, Seq<Double>>,
    pub layer_cap: Map<int, Seq<Double>>,
    pub log: Seq<Seq<char>>,
}

impl View for Rc {
    type V = RcView;

    open spec fn view(&self) -> RcView {
        RcView {
            scenes: text::views(self.scenes@),
            wire_rc: self.wire_rc@,
            layer_res: self.layer_res@,
            layer_cap: self.layer_cap@,
            log: text::views(self.log@),
        }
    }
}

/// Corner `i` of `n` is meant: every corner where none is named.
pub open spec fn chosen(corner: Option<usize>, n: int, i: int) -> bool {
    match corner {
        Some(c) => i == c,
        None => i < n,
    }
}

/// A row of values by corner, made long enough for `n` corners with `zero`s, in which every corner
/// that is meant has `value`.
pub open spec fn spread<T>(row: Seq<T>, n: int, corner: Option<usize>, value: T, zero: T) -> Seq<T> {
    Seq::new(
        if row.len() < n {
            n as nat
        } else {
            row.len()
        },
        |i: int|
            if chosen(corner, n, i) {
                value
            } else if i < row.len() {
                row[i]
            } else {
                zero
            },
    )
}

/// No corner is meant: every one of none.
pub open spec fn no_corner(corner: Option<usize>, n: int) -> bool {
    corner is None && n == 0
}

/// A layer's row; empty where the layer has none.
pub open spec fn row_at(m: Map<int, Seq<Double>>, number: int) -> Seq<Double> {
    if m.contains_key(number) {
        m[number]
    } else {
        Seq::empty()
    }
}

/// A layer's value in a corner; 0 where the layer or the corner was never set.
pub open spec fn layer_value(m: Map<int, Seq<Double>>, number: int, corner: int) -> Double {
    if 0 <= corner < row_at(m, number).len() {
        row_at(m, number)[corner]
    } else {
        Double::zero()
    }
}

/// The layer table with `value` for a layer in every corner that is meant.
pub open spec fn layer_set(
    m: Map<int, Seq<Double>>,
    number: int,
    n: int,
    corner: Option<usize>,
    value: Double,
) -> Map<int, Seq<Double>> {
    if no_corner(corner, n) {
        m
    } else {
        m.insert(number, spread(row_at(m, number), n, corner, value, Double::zero()))
    }
}

/// A row made long enough for `n` corners, in which every corner that is meant has `value`.
pub(crate) fn spread_row<T: Copy>(row: &Vec<T>, n: usize, corner: Option<usize>, value: T, zero: T) -> (r: Vec<T>)
    ensures
        r@ == spread(row@, n as int, corner, value, zero),
{
    let m: usize = row.len();
    let top: usize = if m < n {
        n
    } else {
        m
    };
    let mut out: Vec<T> = Vec::new();
    let mut i: usize = 0;
    while i < top
        invariant
            m == row@.len(),
            top == spread(row@, n as int, corner, value, zero).len(),
            m <= top,
            i <= top,
            out@ == spread(row@, n as int, corner, value, zero).take(i as int),
        decreases top - i,
    {
        let meant = match corner {
            Some(c) => i == c,
            None => i < n,
        };
        if meant {
            out.push(value);
        } else if i < m {
            out.push(row[i]);
        } else {
            out.push(zero);
        }
        i = i + 1;
        assert(out@ =~= spread(row@, n as int, corner, value, zero).take(i as int));
    }
    assert(out@ =~= spread(row@, n as int, corner, value, zero));
    out
}

/// Gives a layer `value` in every corner that is meant.
fn set_in_table(table: &mut Table<Vec<Double>>, number: i32, n: usize, corner: Option<usize>, value: Double)
    requires
        old(table).wf(),
    ensures
        final(table).wf(),
        final(table)@ == layer_set(old(table)@, number as int, n as int, corner, value),
{
    if corner.is_none() && n == 0 {
        return;
    }
    let row = match table.get(number as i128) {
        Some(row) => spread_row(row, n, corner, value, Double::zero()),
        None => {
            let none: Vec<Double> = Vec::new();
            spread_row(&none, n, corner, value, Double::zero())
        },
    };
    assert(row@ == spread(row_at(table@, number as int), n as int, corner, value, Double::zero()));
    table.set(number as i128, row);
}

/// One list of a wire RC, which a technology takes from its own entry or from the shared one.
pub trait Category {
    type Item: Copy;

    spec fn of(w: WireRcView) -> Seq<Self::Item>;

    fn pick(w: &WireRc) -> (r: &Vec<Self::Item>)
        ensures
            r@ == Self::of(w@),
    ;
}

/// The wire resistance of signal nets.
pub struct SignalRes;

/// The wire capacitance of signal nets.
pub struct SignalCap;

/// The wire resistance of clock nets.
pub struct ClkRes;

/// The wire capacitance of clock nets.
pub struct ClkCap;

/// The layers of signal nets.
pub struct SignalLayers;

/// The layers of clock nets.
pub struct ClkLayers;

impl Category for SignalRes {
    type Item = HV;

    open spec fn of(w: WireRcView) -> Seq<HV> {
        w.signal_res
    }

    fn pick(w: &WireRc) -> (r: &Vec<HV>) {
        &w.signal_res
    }
}

impl Category for SignalCap {
    type Item = HV;

    open spec fn of(w: WireRcView) -> Seq<HV> {
        w.signal_cap
    }

    fn pick(w: &WireRc) -> (r: &Vec<HV>) {
        &w.signal_cap
    }
}

impl Category for ClkRes {
    type Item = HV;

    open spec fn of(w: WireRcView) -> Seq<HV> {
        w.clk_res
    }

    fn pick(w: &WireRc) -> (r: &Vec<HV>) {
        &w.clk_res
    }
}

impl Category for ClkCap {
    type Item = HV;

    open spec fn of(w: WireRcView) -> Seq<HV> {
        w.clk_cap
    }

    fn pick(w: &WireRc) -> (r: &Vec<HV>) {
        &w.clk_cap
    }
}

impl Category for SignalLayers {
    type Item = i32;

    open spec fn of(w: WireRcView) -> Seq<i32> {
        w.signal_layers
    }

    fn pick(w: &WireRc) -> (r: &Vec<i32>) {
        &w.signal_layers
    }
}

impl Category for ClkLayers {
    type Item = i32;

    open spec fn of(w: WireRcView) -> Seq<i32> {
        w.clk_layers
    }

    fn pick(w: &WireRc) -> (r: &Vec<i32>) {
        &w.clk_layers
    }
}

/// A list of the current technology: its own entry's where that is set, else the shared entry's.
pub open spec fn resolved_list<C: Category>(
    wire: Map<Option<Seq<char>>, WireRcView>,
    tech: Seq<char>,
) -> Seq<C::Item> {
    if wire.contains_key(Some(tech)) && C::of(wire[Some(tech)]).len() > 0 {
        C::of(wire[Some(tech)])
    } else if wire.contains_key(None) {
        C::of(wire[None])
    } else {
        Seq::empty()
    }
}

/// A corner's values in a list; 0 where the list does not reach it.
pub open spec fn hv_at(s: Seq<HV>, corner: int) -> HV {
    if 0 <= corner < s.len() {
        s[corner]
    } else {
        HV::zero()
    }
}

/// The values of a corner: for signal nets and then for clock nets, resistance and then
/// capacitance, horizontal and then vertical.
pub open spec fn resolved_values(
    wire: Map<Option<Seq<char>>, WireRcView>,
    tech: Seq<char>,
    corner: int,
) -> Seq<Double> {
    let sr = hv_at(resolved_list::<SignalRes>(wire, tech), corner);
    let sc = hv_at(resolved_list::<SignalCap>(wire, tech), corner);
    let cr = hv_at(resolved_list::<ClkRes>(wire, tech), corner);
    let cc = hv_at(resolved_list::<ClkCap>(wire, tech), corner);
    seq![sr.h, sr.v, sc.h, sc.v, cr.h, cr.v, cc.h, cc.v]
}

/// A wire RC with its layer lists in ascending order.
pub open spec fn layers_sorted(w: WireRcView) -> WireRcView {
    WireRcView {
        signal_layers: order::sorted(w.signal_layers),
        clk_layers: order::sorted(w.clk_layers),
        ..w
    }
}

fn at_corner(v: &Vec<HV>, corner: usize) -> (r: HV)
    ensures
        r == hv_at(v@, corner as int),
{
    if corner < v.len() {
        v[corner]
    } else {
        HV::zero()
    }
}

impl WireTable {
    /// Puts every entry's layer lists in ascending order.
    fn sort_layers(&mut self)
        requires
            old(self).wf(),
        ensures
            final(self).wf(),
            final(self)@ == old(self)@.map_values(|w: WireRcView| layers_sorted(w)),
    {
        let ghost before = *self;
        let n: usize = self.entries.len();
        let mut i: usize = 0;
        while i < n
            invariant
                before.wf(),
                n == before.entries@.len(),
                i <= n,
                self.techs@ == before.techs@,
                self.entries@.len() == n,
                forall|k: int| 0 <= k < i ==> (#[trigger] self.entries@[k])@ == layers_sorted(before.entries@[k]@),
                forall|k: int| i <= k < n ==> #[trigger] self.entries@[k] == before.entries@[k],
            decreases n - i,
        {
            let mut w = self.entries[i].copy();
            w.clk_layers = sort_keyed(&w.clk_layers);
            w.signal_layers = sort_keyed(&w.signal_layers);
            self.entries.set(i, w);
            i = i + 1;
        }
        proof {
            assert(self.names() =~= before.names());
            assert forall|t: Option<Seq<char>>| #[trigger] before@.contains_key(t) implies self@[t]
                == layers_sorted(before@[t]) by {
                let k = before.lemma_found(t);
                before.lemma_at(k);
                self.lemma_at(k);
            }
            assert(self@ =~= before@.map_values(|w: WireRcView| layers_sorted(w)));
        }
    }
}

impl Rc {
    /// The tables of the state are in order.
    pub open spec fn wf(&self) -> bool {
        self.wire_rc.wf() && self.layer_res.wf() && self.layer_cap.wf()
    }

    /// A state with one corner, `default`, in which nothing is set.
    pub fn new() -> (r: Rc)
        ensures
            r.wf(),
            r@ == (RcView {
                scenes: seq!["default"@],
                wire_rc: Map::empty(),
                layer_res: Map::empty(),
                layer_cap: Map::empty(),
                log: Seq::empty(),
            }),
    {
        let mut scenes: Vec<String> = Vec::new();
        scenes.push("default".to_owned());
        let r = Rc {
            scenes,
            wire_rc: WireTable::new(),
            layer_res: Table::new(),
            layer_cap: Table::new(),
            log: Vec::new(),
        };
        assert(r@.scenes =~= seq!["default"@]);
        assert(r@.log =~= Seq::empty());
        r
    }

    /// `define_corners`: replaces the corners.
    pub fn define_corners(&mut self, names: &Vec<String>)
        requires
            old(self).wf(),
        ensures
            final(self).wf(),
            final(self)@ == (RcView { scenes: text::views(names@), ..old(self)@ }),
    {
        self.scenes = text::copy_texts(names);
    }

    /// Gives a layer its resistance and capacitance in every corner that is meant.
    pub fn set_layer_rc_table(&mut self, number: i32, corner: Option<usize>, res: Double, cap: Double)
        requires
            old(self).wf(),
            corner matches Some(c) ==> c < old(self)@.scenes.len(),
        ensures
            final(self).wf(),
            final(self)@ == (RcView {
                layer_res: layer_set(
                    old(self)@.layer_res,
                    number as int,
                    old(self)@.scenes.len() as int,
                    corner,
                    res,
                ),
                layer_cap: layer_set(
                    old(self)@.layer_cap,
                    number as int,
                    old(self)@.scenes.len() as int,
                    corner,
                    cap,
                ),
                ..old(self)@
            }),
    {
        let n: usize = self.scenes.len();
        set_in_table(&mut self.layer_res, number, n, corner, res);
        set_in_table(&mut self.layer_cap, number, n, corner, cap);
    }

    /// A layer's resistance and capacitance in a corner: 0 where the layer or the corner was never
    /// set.
    pub fn layer_rc(&self, number: i32, corner: usize) -> (r: (Double, Double))
        requires
            self.wf(),
        ensures
            r.0 == layer_value(self@.layer_res, number as int, corner as int),
            r.1 == layer_value(self@.layer_cap, number as int, corner as int),
    {
        self.layer_rc_at(number as i128, corner)
    }

    /// A layer's resistance and capacitance in a corner.
    pub(crate) fn layer_rc_at(&self, number: i128, corner: usize) -> (r: (Double, Double))
        requires
            self.wf(),
        ensures
            r.0 == layer_value(self@.layer_res, number as int, corner as int),
            r.1 == layer_value(self@.layer_cap, number as int, corner as int),
    {
        let res = match self.layer_res.get(number) {
            Some(row) => if corner < row.len() {
                row[corner]
            } else {
                Double::zero()
            },
            None => Double::zero(),
        };
        let cap = match self.layer_cap.get(number) {
            Some(row) => if corner < row.len() {
                row[corner]
            } else {
                Double::zero()
            },
            None => Double::zero(),
        };
        (res, cap)
    }

    /// Puts the layer lists of every technology in ascending order.
    pub fn sort_clk_and_signal_layers(&mut self)
        requires
            old(self).wf(),
        ensures
            final(self).wf(),
            final(self)@ == (RcView {
                wire_rc: old(self)@.wire_rc.map_values(|w: WireRcView| layers_sorted(w)),
                ..old(self)@
            }),
    {
        self.wire_rc.sort_layers();
    }

    /// A list of the current technology: its own entry's where that is set, else the shared
    /// entry's.
    pub fn resolve<C: Category>(&self, tech: &str, category: C) -> (r: Vec<C::Item>)
        requires
            self.wf(),
        ensures
            r@ == resolved_list::<C>(self@.wire_rc, tech@),
    {
        let own: Option<String> = Some(tech.to_owned());
        if let Some(w) = self.wire_rc.get(&own) {
            let list = C::pick(w);
            if list.len() > 0 {
                return copy_list(list);
            }
        }
        let shared: Option<String> = None;
        match self.wire_rc.get(&shared) {
            Some(w) => copy_list(C::pick(w)),
            None => Vec::new(),
        }
    }

    /// The values of a corner: for signal nets and then for clock nets, resistance and then
    /// capacitance, horizontal and then vertical.
    pub fn resolved(&self, tech: &str, corner: usize) -> (r: [Double; 8])
        requires
            self.wf(),
        ensures
            r@ == resolved_values(self@.wire_rc, tech@, corner as int),
    {
        let sr = at_corner(&self.resolve(tech, SignalRes), corner);
        let sc = at_corner(&self.resolve(tech, SignalCap), corner);
        let cr = at_corner(&self.resolve(tech, ClkRes), corner);
        let cc = at_corner(&self.resolve(tech, ClkCap), corner);
        let r = [sr.h, sr.v, sc.h, sc.v, cr.h, cr.v, cc.h, cc.v];
        assert(r@ =~= resolved_values(self@.wire_rc, tech@, corner as int));
        r
    }
}

/// A row reads back what was spread over it: the value in every corner that is meant, in every
/// other corner what it read before. It then reaches every corner.
pub proof fn law_spread_reads_back<T>(row: Seq<T>, n: int, corner: Option<usize>, value: T, zero: T, i: int)
    requires
        corner matches Some(c) ==> c < n,
        0 <= i,
    ensures
        spread(row, n, corner, value, zero).len() >= n,
        chosen(corner, n, i) ==> i < spread(row, n, corner, value, zero).len() && spread(
            row,
            n,
            corner,
            value,
            zero,
        )[i] == value,
        !chosen(corner, n, i) && i < row.len() ==> spread(row, n, corner, value, zero)[i] == row[i],
        !chosen(corner, n, i) && row.len() <= i < n ==> spread(row, n, corner, value, zero)[i] == zero,
{
}

/// The layer table reads back what was set: the value for that layer in every corner that is
/// meant, and whatever it read before for every other layer and corner.
pub proof fn law_layer_set_reads_back(
    m: Map<int, Seq<Double>>,
    number: int,
    n: int,
    corner: Option<usize>,
    value: Double,
    other: int,
    i: int,
)
    requires
        corner matches Some(c) ==> c < n,
        0 <= n,
        0 <= i,
    ensures
        layer_value(layer_set(m, number, n, corner, value), other, i) == if other == number && chosen(
            corner,
            n,
            i,
        ) {
            value
        } else {
            layer_value(m, other, i)
        },
{
    law_spread_reads_back(row_at(m, number), n, corner, value, Double::zero(), i);
}

/// Putting the layer lists in order changes no value that resolves, and doing it twice is doing it
/// once.
pub proof fn law_sorting_layers_keeps_values(
    wire: Map<Option<Seq<char>>, WireRcView>,
    tech: Seq<char>,
    corner: int,
)
    ensures
        ({
            let once = wire.map_values(|w: WireRcView| layers_sorted(w));
            &&& resolved_values(once, tech, corner) == resolved_values(wire, tech, corner)
            &&& once.map_values(|w: WireRcView| layers_sorted(w)) == once
        }),
{
    let once = wire.map_values(|w: WireRcView| layers_sorted(w));
    let twice = once.map_values(|w: WireRcView| layers_sorted(w));
    assert forall|t: Option<Seq<char>>| #[trigger] once.contains_key(t) implies twice[t] == once[t] by {
        let w = wire[t];
        order::law_sorted_ascends(w.signal_layers);
        order::law_sorted_ascends(w.clk_layers);
        order::law_sorted_keeps_order(order::sorted(w.signal_layers));
        order::law_sorted_keeps_order(order::sorted(w.clk_layers));
    }
    assert(twice =~= once);
}

} // verus!
