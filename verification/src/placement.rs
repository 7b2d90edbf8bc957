//! Which nets get an RC network, and the Steiner tree of each one that does.
//!
//! A net without a driver gets none, nor does a special net or an ideal clock; a port straight to
//! a pad gets a link; every other net gets the tree of its pins where all of them are placed.

use vstd::prelude::*;
use vstd::string::*;

use crate::db;
use crate::db::{find_named, BTerm, Db, ITerm, ITermClockFacts, Named, Net};
use crate::order;
use crate::order::{sort_keyed, Keyed};
use crate::text;
use crate::text::{begins_with, framed, holds, same, split_last};

verus! {

/// One point of a Steiner tree: a location and the index of the point it connects to, itself for
/// the root.
#[derive(Debug, Clone, Copy, PartialEq, Eq, Structural)]
pub struct Branch {
    pub x: i32,
    pub y: i32,
    pub n: usize,
}

/// A Steiner tree: the first `deg` branches are the points it was built for, the rest Steiner
/// points.
#[derive(Debug, PartialEq, Eq)]
pub struct SttTree {
    pub deg: usize,
    pub branch: Vec<Branch>,
}

/// A [`SttTree`] with its branches as a sequence.
pub struct SttTreeView {
    pub deg: usize,
    pub branch: Seq<Branch>,
}

impl View for SttTree {
    type V = SttTreeView;

    open spec fn view(&self) -> SttTreeView {
        SttTreeView { deg: self.deg, branch: self.branch@ }
    }
}

/// A cell of a timing library, with its outputs that are constant.
#[derive(Debug, PartialEq, Eq)]
pub struct LibertyCell {
    pub name: String,
    pub constant_outputs: Vec<String>,
}

impl Named for LibertyCell {
    open spec fn name_of(&self) -> Seq<char> {
        self.name@
    }

    fn is_named(&self, name: &str) -> (r: bool) {
        same(self.name.as_str(), name)
    }
}

/// What the timing libraries say that estimation reads.
#[derive(Debug, PartialEq, Eq)]
pub struct LibertyClocks {
    pub cells: Vec<LibertyCell>,
}

/// What the timer knows that estimation reads.
#[derive(Debug, PartialEq, Eq)]
pub struct Timing<'a> {
    /// The libraries, when any were read.
    pub liberty: Option<&'a LibertyClocks>,
    /// The source ports of every clock.
    pub clock_sources: Vec<String>,
    /// The clocks are propagated: a clock pin is then not ideal.
    pub propagated: bool,
}

/// One connected pin.
#[derive(Debug, PartialEq, Eq)]
pub struct PinLoc {
    /// `inst/term` or the port's name.
    pub name: String,
    pub is_port: bool,
    pub x: i32,
    pub y: i32,
    pub placed: bool,
}

impl PinLoc {
    pub fn copy(&self) -> (r: PinLoc)
        ensures
            r == *self,
    {
        PinLoc { name: self.name.clone(), is_port: self.is_port, x: self.x, y: self.y, placed: self.placed }
    }
}

/// Pins are ordered by location, x before y.
impl Keyed for PinLoc {
    open spec fn key(&self) -> int {
        self.x * 0x1_0000_0000 + self.y
    }

    fn sort_key(&self) -> (r: i128) {
        self.x as i128 * 0x1_0000_0000 + self.y as i128
    }

    fn duplicate(&self) -> (r: PinLoc) {
        self.copy()
    }
}

/// A copy of a list of pins.
pub fn copy_pins(v: &Vec<PinLoc>) -> (r: Vec<PinLoc>)
    ensures
        r@ == v@,
{
    let n: usize = v.len();
    let mut out: Vec<PinLoc> = Vec::new();
    let mut i: usize = 0;
    while i < n
        invariant
            n == v@.len(),
            i <= n,
            out@ == v@.take(i as int),
        decreases n - i,
    {
        out.push(v[i].copy());
        i = i + 1;
        assert(out@ =~= v@.take(i as int));
    }
    assert(out@ =~= v@);
    out
}

/// A net's Steiner tree.
#[derive(Debug, PartialEq, Eq)]
pub struct SteinerTree {
    /// The net's pins by location, the order in which the tree was built for them.
    pub pinlocs: Vec<PinLoc>,
    pub tree: SttTree,
    /// The first branch at the driver's location.
    pub drvr_pt: Option<usize>,
}

/// A [`SteinerTree`] with its lists as sequences.
pub struct SteinerTreeView {
    pub pinlocs: Seq<PinLoc>,
    pub tree: SttTreeView,
    pub drvr_pt: Option<usize>,
}

impl View for SteinerTree {
    type V = SteinerTreeView;

    open spec fn view(&self) -> SteinerTreeView {
        SteinerTreeView { pinlocs: self.pinlocs@, tree: self.tree@, drvr_pt: self.drvr_pt }
    }
}

/// What became of one net.
#[derive(Debug, PartialEq, Eq)]
pub enum Decision {
    NoDriver,
    Power,
    Ground,
    Special,
    /// A port straight to a pad: a link between the net's first two connected pins.
    Pad { pins: Vec<PinLoc> },
    /// An ideal clock.
    Skip,
    /// Fewer than two pins, or one not placed. The pins by location.
    NoTree { pinlocs: Vec<PinLoc>, drvr_idx: Option<usize> },
    Tree { tree: SteinerTree, drvr_idx: Option<usize>, non_leaf_clock: bool },
}

/// A [`Decision`] with its lists as sequences.
pub enum DecisionView {
    NoDriver,
    Power,
    Ground,
    Special,
    Pad { pins: Seq<PinLoc> },
    Skip,
    NoTree { pinlocs: Seq<PinLoc>, drvr_idx: Option<usize> },
    Tree { tree: SteinerTreeView, drvr_idx: Option<usize>, non_leaf_clock: bool },
}

impl View for Decision {
    type V = DecisionView;

    open spec fn view(&self) -> DecisionView {
        match self {
            Decision::NoDriver => DecisionView::NoDriver,
            Decision::Power => DecisionView::Power,
            Decision::Ground => DecisionView::Ground,
            Decision::Special => DecisionView::Special,
            Decision::Pad { pins } => DecisionView::Pad { pins: pins@ },
            Decision::Skip => DecisionView::Skip,
            Decision::NoTree { pinlocs, drvr_idx } => DecisionView::NoTree {
                pinlocs: pinlocs@,
                drvr_idx: *drvr_idx,
            },
            Decision::Tree { tree, drvr_idx, non_leaf_clock } => DecisionView::Tree {
                tree: tree@,
                drvr_idx: *drvr_idx,
                non_leaf_clock: *non_leaf_clock,
            },
        }
    }
}

/// A net, its driver and what became of it.
#[derive(Debug, PartialEq, Eq)]
pub struct NetEstimate {
    pub net: String,
    pub drivers: usize,
    pub drvr: Option<String>,
    pub decision: Decision,
}

/// A [`NetEstimate`] with its texts and lists as sequences.
pub struct NetEstimateView {
    pub net: Seq<char>,
    pub drivers: usize,
    pub drvr: Option<Seq<char>>,
    pub decision: DecisionView,
}

impl View for NetEstimate {
    type V = NetEstimateView;

    open spec fn view(&self) -> NetEstimateView {
        NetEstimateView {
            net: self.net@,
            drivers: self.drivers,
            drvr: match self.drvr {
                Some(s) => Some(s@),
                None => None,
            },
            decision: self.decision@,
        }
    }
}

/// What is said of a pin that the net does not have.
pub open spec fn no_such_pin(name: Seq<char>) -> Seq<char> {
    "pin "@ + name + " is not of the net"@
}

/// The number by which a net's pins are ordered: twice an instance terminal's id, one more than
/// twice a block terminal's.
pub open spec fn key_of(net: Net, pin: PinLoc) -> Result<u64, Seq<char>> {
    if pin.is_port {
        match db::first_named(net.bterms@, pin.name@) {
            Some(t) => match t.id {
                Ok(id) => Ok((id * 2 + 1) as u64),
                Err(e) => Err(e@),
            },
            None => Err(no_such_pin(pin.name@)),
        }
    } else {
        match db::first_named(net.iterms@, pin.name@) {
            Some(t) => match t.id {
                Ok(id) => Ok((id * 2) as u64),
                Err(e) => Err(e@),
            },
            None => Err(no_such_pin(pin.name@)),
        }
    }
}

/// The number by which a net's pins are ordered: twice an instance terminal's id, one more than
/// twice a block terminal's.
pub fn pin_key(net: &Net, pin: &PinLoc) -> (r: Result<u64, String>)
    ensures
        text::outcome(r) == key_of(*net, *pin),
{
    if pin.is_port {
        match find_named(&net.bterms, pin.name.as_str()) {
            Some(t) => match &t.id {
                Ok(id) => Ok(*id as u64 * 2 + 1),
                Err(e) => Err(e.clone()),
            },
            None => Err(framed("pin ", pin.name.as_str(), " is not of the net")),
        }
    } else {
        match find_named(&net.iterms, pin.name.as_str()) {
            Some(t) => match &t.id {
                Ok(id) => Ok(*id as u64 * 2),
                Err(e) => Err(e.clone()),
            },
            None => Err(framed("pin ", pin.name.as_str(), " is not of the net")),
        }
    }
}

/// An instance terminal as a pin: at the average of its geometry, else at its instance's origin.
pub open spec fn iterm_pin(t: ITerm) -> PinLoc {
    PinLoc {
        name: t.name,
        is_port: false,
        x: match t.avg_xy {
            Some(p) => p.0,
            None => t.origin_x,
        },
        y: match t.avg_xy {
            Some(p) => p.1,
            None => t.origin_y,
        },
        placed: t.placed,
    }
}

/// A placement status that says the pin is placed.
pub open spec fn placed_status(s: Seq<char>) -> bool {
    s == "PLACED"@ || s == "FIRM"@ || s == "LOCKED"@ || s == "COVER"@
}

/// A block terminal as a pin: at its first placed pin, else at the zero point.
pub open spec fn bterm_pin(t: BTerm) -> PinLoc {
    PinLoc {
        name: t.name,
        is_port: true,
        x: match t.first_pin {
            Some(p) => p.0,
            None => 0,
        },
        y: match t.first_pin {
            Some(p) => p.1,
            None => 0,
        },
        placed: placed_status(t.status@),
    }
}

/// The pins of a net in the database's order: its instance terminals, then its block terminals.
pub open spec fn connected(net: Net) -> Seq<PinLoc> {
    Seq::new(net.iterms@.len(), |i: int| iterm_pin(net.iterms@[i])) + Seq::new(
        net.bterms@.len(),
        |i: int| bterm_pin(net.bterms@[i]),
    )
}

fn make_iterm_pin(t: &ITerm) -> (r: PinLoc)
    ensures
        r == iterm_pin(*t),
{
    let (x, y): (i32, i32) = match t.avg_xy {
        Some(p) => p,
        None => (t.origin_x, t.origin_y),
    };
    PinLoc { name: t.name.clone(), is_port: false, x, y, placed: t.placed }
}

fn make_bterm_pin(t: &BTerm) -> (r: PinLoc)
    ensures
        r == bterm_pin(*t),
{
    let (x, y): (i32, i32) = match t.first_pin {
        Some(p) => p,
        None => (0, 0),
    };
    let s = t.status.as_str();
    let placed = same(s, "PLACED") || same(s, "FIRM") || same(s, "LOCKED") || same(s, "COVER");
    PinLoc { name: t.name.clone(), is_port: true, x, y, placed }
}

/// The pins of a net in the database's order.
pub fn connected_pins(net: &Net) -> (r: Vec<PinLoc>)
    ensures
        r@ == connected(*net),
{
    let (n, m): (usize, usize) = (net.iterms.len(), net.bterms.len());
    let mut out: Vec<PinLoc> = Vec::new();
    let mut i: usize = 0;
    while i < n
        invariant
            n == net.iterms@.len(),
            i <= n,
            out@ == connected(*net).take(i as int),
        decreases n - i,
    {
        out.push(make_iterm_pin(&net.iterms[i]));
        i = i + 1;
        assert(out@ =~= connected(*net).take(i as int));
    }
    let mut j: usize = 0;
    while j < m
        invariant
            n == net.iterms@.len(),
            m == net.bterms@.len(),
            j <= m,
            out@ == connected(*net).take(n + j),
        decreases m - j,
    {
        out.push(make_bterm_pin(&net.bterms[j]));
        j = j + 1;
        assert(out@ =~= connected(*net).take(n + j));
    }
    assert(out@ =~= connected(*net));
    out
}

/// A pin with the number by which it is ordered.
pub struct KeyedPin {
    pub id: u64,
    pub pin: PinLoc,
}

impl Keyed for KeyedPin {
    open spec fn key(&self) -> int {
        self.id as int
    }

    fn sort_key(&self) -> (r: i128) {
        self.id as i128
    }

    fn duplicate(&self) -> (r: KeyedPin) {
        KeyedPin { id: self.id, pin: self.pin.copy() }
    }
}

/// Pins with their numbers; the first that has none is an error.
pub open spec fn with_keys(net: Net, pins: Seq<PinLoc>) -> Result<Seq<KeyedPin>, Seq<char>>
    decreases pins.len(),
{
    if pins.len() == 0 {
        Ok(Seq::empty())
    } else {
        match with_keys(net, pins.drop_last()) {
            Err(e) => Err(e),
            Ok(before) => match key_of(net, pins.last()) {
                Err(e) => Err(e),
                Ok(id) => Ok(before.push(KeyedPin { id, pin: pins.last() })),
            },
        }
    }
}

/// The pins alone.
pub open spec fn pins_of(s: Seq<KeyedPin>) -> Seq<PinLoc> {
    Seq::new(s.len(), |i: int| s[i].pin)
}

/// The pins of a net by number.
pub open spec fn connected_by_id(net: Net) -> Result<Seq<PinLoc>, Seq<char>> {
    match with_keys(net, connected(net)) {
        Err(e) => Err(e),
        Ok(keyed) => Ok(pins_of(order::sorted(keyed))),
    }
}

/// Pins or what is wrong, as sequences.
pub open spec fn pins_view(r: Result<Vec<PinLoc>, String>) -> Result<Seq<PinLoc>, Seq<char>> {
    match r {
        Ok(v) => Ok(v@),
        Err(e) => Err(e@),
    }
}

proof fn lemma_error_stays(net: Net, pins: Seq<PinLoc>, i: int)
    requires
        0 <= i <= pins.len(),
        with_keys(net, pins.take(i)) is Err,
    ensures
        with_keys(net, pins) == with_keys(net, pins.take(i)),
    decreases pins.len(),
{
    if i == pins.len() {
        assert(pins.take(i) =~= pins);
    } else {
        assert(pins.drop_last().take(i) =~= pins.take(i));
        lemma_error_stays(net, pins.drop_last(), i);
    }
}

/// The pins of a net by number.
pub fn connected_pins_by_id(net: &Net) -> (r: Result<Vec<PinLoc>, String>)
    ensures
        pins_view(r) == connected_by_id(*net),
{
    let pins = connected_pins(net);
    let n: usize = pins.len();
    let mut keyed: Vec<KeyedPin> = Vec::new();
    let mut i: usize = 0;
    while i < n
        invariant
            pins@ == connected(*net),
            n == pins@.len(),
            i <= n,
            with_keys(*net, pins@.take(i as int)) == Ok::<Seq<KeyedPin>, Seq<char>>(keyed@),
        decreases n - i,
    {
        assert(pins@.take(i + 1).drop_last() =~= pins@.take(i as int));
        match pin_key(net, &pins[i]) {
            Err(e) => {
                proof {
                    lemma_error_stays(*net, pins@, i + 1);
                }
                return Err(e);
            },
            Ok(id) => keyed.push(KeyedPin { id, pin: pins[i].copy() }),
        }
        i = i + 1;
    }
    assert(pins@.take(n as int) =~= pins@);
    let sorted = sort_keyed(&keyed);
    let m: usize = sorted.len();
    let mut out: Vec<PinLoc> = Vec::new();
    let mut k: usize = 0;
    while k < m
        invariant
            m == sorted@.len(),
            k <= m,
            out@ == pins_of(sorted@).take(k as int),
        decreases m - k,
    {
        out.push(sorted[k].pin.copy());
        k = k + 1;
        assert(out@ =~= pins_of(sorted@).take(k as int));
    }
    assert(out@ =~= pins_of(sorted@));
    Ok(out)
}

/// A signal type that carries power.
pub open spec fn supply(s: Seq<char>) -> bool {
    s == "POWER"@ || s == "GROUND"@
}

fn is_supply(s: &str) -> (r: bool)
    ensures
        r == supply(s@),
{
    same(s, "POWER") || same(s, "GROUND")
}

/// An instance terminal that drives its net: neither supply nor clocked, an output or both ways.
pub open spec fn iterm_drives(t: ITerm) -> bool {
    !supply(t.sig_type@) && !t.clocked && (t.io_type@ == "OUTPUT"@ || t.io_type@ == "INOUT"@)
}

/// A block terminal that drives its net: not supply, an input or both ways.
pub open spec fn bterm_drives(t: BTerm) -> bool {
    !supply(t.sig_type@) && (t.io_type@ == "INPUT"@ || t.io_type@ == "INOUT"@)
}

/// The first instance terminal that drives.
pub open spec fn first_iterm_driver(s: Seq<ITerm>) -> Option<PinLoc>
    decreases s.len(),
{
    if s.len() == 0 {
        None
    } else if iterm_drives(s[0]) {
        Some(iterm_pin(s[0]))
    } else {
        first_iterm_driver(s.skip(1))
    }
}

/// The first block terminal that drives.
pub open spec fn first_bterm_driver(s: Seq<BTerm>) -> Option<PinLoc>
    decreases s.len(),
{
    if s.len() == 0 {
        None
    } else if bterm_drives(s[0]) {
        Some(bterm_pin(s[0]))
    } else {
        first_bterm_driver(s.skip(1))
    }
}

/// The driver of a net: none on a supply net; else the first instance terminal that drives, else
/// the first block terminal that does.
pub open spec fn first_driver(net: Net) -> Option<PinLoc> {
    if supply(net.sig_type@) {
        None
    } else {
        match first_iterm_driver(net.iterms@) {
            Some(p) => Some(p),
            None => first_bterm_driver(net.bterms@),
        }
    }
}

/// The driver of a net.
pub fn first_driver_term(net: &Net) -> (r: Option<PinLoc>)
    ensures
        r == first_driver(*net),
{
    if is_supply(net.sig_type.as_str()) {
        return None;
    }
    let (n, m): (usize, usize) = (net.iterms.len(), net.bterms.len());
    let mut i: usize = 0;
    assert(net.iterms@.skip(0) =~= net.iterms@);
    while i < n
        invariant
            !supply(net.sig_type@),
            n == net.iterms@.len(),
            i <= n,
            first_iterm_driver(net.iterms@) == first_iterm_driver(net.iterms@.skip(i as int)),
        decreases n - i,
    {
        let t = &net.iterms[i];
        assert(net.iterms@.skip(i as int).skip(1) =~= net.iterms@.skip(i + 1));
        if !is_supply(t.sig_type.as_str()) && !t.clocked && (same(t.io_type.as_str(), "OUTPUT") || same(
            t.io_type.as_str(),
            "INOUT",
        )) {
            return Some(make_iterm_pin(t));
        }
        i = i + 1;
    }
    let mut j: usize = 0;
    assert(net.bterms@.skip(0) =~= net.bterms@);
    while j < m
        invariant
            !supply(net.sig_type@),
            first_iterm_driver(net.iterms@) is None,
            m == net.bterms@.len(),
            j <= m,
            first_bterm_driver(net.bterms@) == first_bterm_driver(net.bterms@.skip(j as int)),
        decreases m - j,
    {
        let t = &net.bterms[j];
        assert(net.bterms@.skip(j as int).skip(1) =~= net.bterms@.skip(j + 1));
        if !is_supply(t.sig_type.as_str()) && (same(t.io_type.as_str(), "INPUT") || same(
            t.io_type.as_str(),
            "INOUT",
        )) {
            return Some(make_bterm_pin(t));
        }
        j = j + 1;
    }
    None
}

/// A master type of a pad.
pub open spec fn pad_type(s: Seq<char>) -> bool {
    text::begins(s, "PAD"@) || s == "COVER_BUMP"@ || s == "COVER BUMP"@
}

/// Whether a pin is on a pad.
pub open spec fn pad_pin(net: Net, pin: PinLoc) -> Result<bool, Seq<char>> {
    if pin.is_port {
        Ok(false)
    } else {
        match db::first_named(net.iterms@, pin.name@) {
            Some(t) => match t.master_type {
                Ok(s) => Ok(pad_type(s@)),
                Err(e) => Err(e@),
            },
            None => Err(no_such_pin(pin.name@)),
        }
    }
}

/// Whether the first two of a net's pins are a port and a pad pin, in either order. Only those two
/// are read, whatever else the net connects.
pub open spec fn pad_net(net: Net, pins: Seq<PinLoc>) -> Result<bool, Seq<char>> {
    if pins.len() < 2 || pins[0].is_port == pins[1].is_port {
        Ok(false)
    } else if pins[0].is_port {
        pad_pin(net, pins[1])
    } else {
        pad_pin(net, pins[0])
    }
}

fn is_pad_pin(net: &Net, pin: &PinLoc) -> (r: Result<bool, String>)
    ensures
        text::outcome(r) == pad_pin(*net, *pin),
{
    if pin.is_port {
        return Ok(false);
    }
    match find_named(&net.iterms, pin.name.as_str()) {
        Some(t) => match &t.master_type {
            Ok(s) => Ok(
                begins_with(s.as_str(), "PAD") || same(s.as_str(), "COVER_BUMP") || same(
                    s.as_str(),
                    "COVER BUMP",
                ),
            ),
            Err(e) => Err(e.clone()),
        },
        None => Err(framed("pin ", pin.name.as_str(), " is not of the net")),
    }
}

/// Whether the first two of a net's pins are a port and a pad pin, in either order.
pub fn is_pad_net(net: &Net, pins: &Vec<PinLoc>) -> (r: Result<bool, String>)
    ensures
        text::outcome(r) == pad_net(*net, pins@),
{
    if pins.len() < 2 || pins[0].is_port == pins[1].is_port {
        Ok(false)
    } else if pins[0].is_port {
        is_pad_pin(net, &pins[1])
    } else {
        is_pad_pin(net, &pins[0])
    }
}

/// What is said of a net that a constant output drives.
pub open spec fn constant_driver(net: Seq<char>) -> Seq<char> {
    "net "@ + net + ": driven by a constant (tie) output — isConstant is not modelled"@
}

/// A pin that the timing libraries say is constant.
pub open spec fn constant_pin(net: Net, timing: Timing<'_>, pin: PinLoc) -> bool {
    !pin.is_port && match (timing.liberty, db::first_named(net.iterms@, pin.name@)) {
        (Some(lib), Some(t)) => match db::first_named(lib.cells@, t.master@) {
            Some(c) => text::views(c.constant_outputs@).contains(text::after_last(pin.name@, '/')),
            None => false,
        },
        _ => false,
    }
}

fn is_constant_pin(net: &Net, timing: &Timing<'_>, pin: &PinLoc) -> (r: bool)
    ensures
        r == constant_pin(*net, *timing, *pin),
{
    if pin.is_port {
        return false;
    }
    match (timing.liberty, find_named(&net.iterms, pin.name.as_str())) {
        (Some(lib), Some(t)) => match find_named(&lib.cells, t.master.as_str()) {
            Some(c) => {
                let (_, term) = split_last(pin.name.as_str(), '/');
                holds(&c.constant_outputs, term.as_str())
            },
            None => false,
        },
        _ => false,
    }
}

/// The place of the first pin of that name.
pub open spec fn pin_place(pins: Seq<PinLoc>, name: Seq<char>) -> Option<usize>
    decreases pins.len(),
{
    if pins.len() == 0 {
        None
    } else {
        match pin_place(pins.drop_last(), name) {
            Some(i) => Some(i),
            None => if pins.last().name@ == name {
                Some((pins.len() - 1) as usize)
            } else {
                None
            },
        }
    }
}

/// The place of the first branch at that location.
pub open spec fn branch_place(s: Seq<Branch>, x: i32, y: i32) -> Option<usize>
    decreases s.len(),
{
    if s.len() == 0 {
        None
    } else {
        match branch_place(s.drop_last(), x, y) {
            Some(i) => Some(i),
            None => if s.last().x == x && s.last().y == y {
                Some((s.len() - 1) as usize)
            } else {
                None
            },
        }
    }
}

fn find_pin(pins: &Vec<PinLoc>, name: &str) -> (r: Option<usize>)
    ensures
        r == pin_place(pins@, name@),
        r matches Some(i) ==> i < pins@.len(),
{
    let n: usize = pins.len();
    let mut found: Option<usize> = None;
    let mut i: usize = 0;
    while i < n
        invariant
            n == pins@.len(),
            i <= n,
            found == pin_place(pins@.take(i as int), name@),
            found matches Some(k) ==> k < n,
        decreases n - i,
    {
        assert(pins@.take(i + 1).drop_last() =~= pins@.take(i as int));
        if found.is_none() && same(pins[i].name.as_str(), name) {
            found = Some(i);
        }
        i = i + 1;
    }
    assert(pins@.take(n as int) =~= pins@);
    found
}

fn find_branch(v: &Vec<Branch>, x: i32, y: i32) -> (r: Option<usize>)
    ensures
        r == branch_place(v@, x, y),
{
    let n: usize = v.len();
    let mut found: Option<usize> = None;
    let mut i: usize = 0;
    while i < n
        invariant
            n == v@.len(),
            i <= n,
            found == branch_place(v@.take(i as int), x, y),
        decreases n - i,
    {
        assert(v@.take(i + 1).drop_last() =~= v@.take(i as int));
        if found.is_none() && v[i].x == x && v[i].y == y {
            found = Some(i);
        }
        i = i + 1;
    }
    assert(v@.take(n as int) =~= v@);
    found
}

/// A tree can be built: there are two pins or more, and all are placed.
pub open spec fn treeable(pins: Seq<PinLoc>) -> bool {
    2 <= pins.len() && forall|i: int| 0 <= i < pins.len() ==> (#[trigger] pins[i]).placed
}

/// The places of pins along x.
pub open spec fn places_x(pins: Seq<PinLoc>) -> Seq<i32> {
    Seq::new(pins.len(), |i: int| pins[i].x)
}

/// The places of pins along y.
pub open spec fn places_y(pins: Seq<PinLoc>) -> Seq<i32> {
    Seq::new(pins.len(), |i: int| pins[i].y)
}

/// A builder of Steiner trees: it takes the points' places along x and along y and the driver's
/// index. It accepts two points or more with an index among them.
pub open spec fn builds<F: Fn(&Vec<i32>, &Vec<i32>, usize) -> SttTree>(stt: F) -> bool {
    forall|xs: Vec<i32>, ys: Vec<i32>, i: usize|
        2 <= xs@.len() == ys@.len() && i < xs@.len() ==> #[trigger] call_requires(stt, (&xs, &ys, i))
}

/// The index a tree is built from: the driver's, 0 where it is not among the pins.
pub open spec fn start_of(drvr_idx: Option<usize>) -> usize {
    match drvr_idx {
        Some(i) => i,
        None => 0,
    }
}

/// `tree` is what the builder gives for these pins from that index.
pub open spec fn built<F: Fn(&Vec<i32>, &Vec<i32>, usize) -> SttTree>(
    stt: F,
    pins: Seq<PinLoc>,
    start: usize,
    tree: SttTree,
) -> bool {
    exists|xs: Vec<i32>, ys: Vec<i32>|
        xs@ == places_x(pins) && ys@ == places_y(pins) && #[trigger] call_ensures(
            stt,
            (&xs, &ys, start),
            tree,
        )
}

/// The tree of these pins, with the driver's point.
pub open spec fn steiner_tree(drvr: PinLoc, pins: Seq<PinLoc>, tree: SttTree) -> SteinerTreeView {
    SteinerTreeView {
        pinlocs: pins,
        tree: tree@,
        drvr_pt: branch_place(tree.branch@, drvr.x, drvr.y),
    }
}

fn is_treeable(pins: &Vec<PinLoc>) -> (r: bool)
    ensures
        r == treeable(pins@),
{
    let n: usize = pins.len();
    if n < 2 {
        return false;
    }
    let mut i: usize = 0;
    while i < n
        invariant
            n == pins@.len(),
            i <= n,
            forall|k: int| 0 <= k < i ==> (#[trigger] pins@[k]).placed,
        decreases n - i,
    {
        if !pins[i].placed {
            return false;
        }
        i = i + 1;
    }
    true
}

/// The pins by location, those at one location in the order they came in; the driver's index among
/// them; and the tree, where there are two pins or more and all are placed.
pub fn make_steiner_tree<F: Fn(&Vec<i32>, &Vec<i32>, usize) -> SttTree>(
    drvr: &PinLoc,
    pins: &Vec<PinLoc>,
    stt: &F,
) -> (r: (Vec<PinLoc>, Option<usize>, Option<SteinerTree>))
    requires
        builds(*stt),
    ensures
        r.0@ == order::sorted(pins@),
        r.1 == pin_place(order::sorted(pins@), drvr.name@),
        r.2 is Some <==> treeable(order::sorted(pins@)),
        r.2 matches Some(t) ==> built(*stt, order::sorted(pins@), start_of(r.1), t.tree) && t@
            == steiner_tree(*drvr, order::sorted(pins@), t.tree),
{
    let pinlocs = sort_keyed(pins);
    let drvr_idx: Option<usize> = find_pin(&pinlocs, drvr.name.as_str());
    if !is_treeable(&pinlocs) {
        return (pinlocs, drvr_idx, None);
    }
    let n: usize = pinlocs.len();
    let mut xs: Vec<i32> = Vec::new();
    let mut ys: Vec<i32> = Vec::new();
    let mut i: usize = 0;
    while i < n
        invariant
            n == pinlocs@.len(),
            i <= n,
            xs@ == places_x(pinlocs@).take(i as int),
            ys@ == places_y(pinlocs@).take(i as int),
        decreases n - i,
    {
        xs.push(pinlocs[i].x);
        ys.push(pinlocs[i].y);
        i = i + 1;
        assert(xs@ =~= places_x(pinlocs@).take(i as int));
        assert(ys@ =~= places_y(pinlocs@).take(i as int));
    }
    assert(xs@ =~= places_x(pinlocs@));
    assert(ys@ =~= places_y(pinlocs@));
    let start: usize = match drvr_idx {
        Some(i) => i,
        None => 0,
    };
    let tree = stt(&xs, &ys, start);
    assert(built(*stt, pinlocs@, start, tree));
    let drvr_pt: Option<usize> = find_branch(&tree.branch, drvr.x, drvr.y);
    let t = SteinerTree { pinlocs: copy_pins(&pinlocs), tree, drvr_pt };
    (pinlocs, drvr_idx, Some(t))
}

/// What the clock test reads of a net's instance terminals: nothing without libraries.
pub open spec fn clock_facts(net: Net, timing: Timing<'_>) -> Seq<ITermClockFacts> {
    Seq::new(
        net.iterms@.len(),
        |i: int|
            match timing.liberty {
                Some(_) => net.iterms@[i].clock,
                None => ITermClockFacts {
                    has_liberty_port: false,
                    is_reg_clk: false,
                    cell_is_pad: false,
                },
            },
    )
}

fn make_clock_facts(net: &Net, timing: &Timing<'_>) -> (r: Vec<ITermClockFacts>)
    ensures
        r@ == clock_facts(*net, *timing),
{
    let n: usize = net.iterms.len();
    let mut out: Vec<ITermClockFacts> = Vec::new();
    let mut i: usize = 0;
    while i < n
        invariant
            n == net.iterms@.len(),
            i <= n,
            out@ == clock_facts(*net, *timing).take(i as int),
        decreases n - i,
    {
        let facts = match timing.liberty {
            Some(_) => net.iterms[i].clock,
            None => ITermClockFacts { has_liberty_port: false, is_reg_clk: false, cell_is_pad: false },
        };
        out.push(facts);
        i = i + 1;
        assert(out@ =~= clock_facts(*net, *timing).take(i as int));
    }
    assert(out@ =~= clock_facts(*net, *timing));
    out
}

/// A net of clock type.
pub open spec fn of_clock_type(net: Net) -> bool {
    net.sig_type@ == "CLOCK"@
}

/// `r` is what the clock test says of a net: it takes whether the net is of clock type, and the
/// facts of its instance terminals.
pub open spec fn judged<G: Fn(bool, &Vec<ITermClockFacts>) -> bool>(
    non_leaf: G,
    clock_type: bool,
    facts: Seq<ITermClockFacts>,
    r: bool,
) -> bool {
    exists|v: Vec<ITermClockFacts>|
        v@ == facts && #[trigger] call_ensures(non_leaf, (clock_type, &v), r)
}

/// A clock test accepts every net.
pub open spec fn judges<G: Fn(bool, &Vec<ITermClockFacts>) -> bool>(non_leaf: G) -> bool {
    forall|b: bool, v: Vec<ITermClockFacts>| #[trigger] call_requires(non_leaf, (b, &v))
}

/// A decision or what is wrong, as sequences.
pub open spec fn decision_view(r: Result<Decision, String>) -> Result<DecisionView, Seq<char>> {
    match r {
        Ok(d) => Ok(d@),
        Err(e) => Err(e@),
    }
}

/// What the Steiner estimate of a net comes to: nothing for an ideal clock; a refusal where a
/// constant output drives it; else its tree, or its pins where there is none.
pub open spec fn steiner_decided<
    F: Fn(&Vec<i32>, &Vec<i32>, usize) -> SttTree,
    G: Fn(bool, &Vec<ITermClockFacts>) -> bool,
>(
    net: Net,
    timing: Timing<'_>,
    clock_nets: Seq<Seq<char>>,
    drvr: PinLoc,
    pins: Seq<PinLoc>,
    stt: F,
    non_leaf: G,
    r: Result<DecisionView, Seq<char>>,
) -> bool {
    let sorted = order::sorted(pins);
    let drvr_idx = pin_place(sorted, drvr.name@);
    if clock_nets.contains(net.name@) && !timing.propagated {
        r == Ok::<DecisionView, Seq<char>>(DecisionView::Skip)
    } else if constant_pin(net, timing, drvr) {
        r == Err::<DecisionView, Seq<char>>(constant_driver(net.name@))
    } else if !treeable(sorted) {
        r == Ok::<DecisionView, Seq<char>>(DecisionView::NoTree { pinlocs: sorted, drvr_idx })
    } else {
        exists|tree: SttTree, non_leaf_clock: bool|
            #![trigger built(stt, sorted, start_of(drvr_idx), tree), judged(non_leaf, of_clock_type(net), clock_facts(net, timing), non_leaf_clock)]
            built(stt, sorted, start_of(drvr_idx), tree) && judged(
                non_leaf,
                of_clock_type(net),
                clock_facts(net, timing),
                non_leaf_clock,
            ) && r == Ok::<DecisionView, Seq<char>>(
                DecisionView::Tree {
                    tree: steiner_tree(drvr, sorted, tree),
                    drvr_idx,
                    non_leaf_clock,
                },
            )
    }
}

/// The Steiner estimate of a net, up to the tree.
pub fn estimate_wire_parasitic_steiner<
    F: Fn(&Vec<i32>, &Vec<i32>, usize) -> SttTree,
    G: Fn(bool, &Vec<ITermClockFacts>) -> bool,
>(
    net: &Net,
    timing: &Timing<'_>,
    clock_nets: &Vec<String>,
    drvr: &PinLoc,
    pins: &Vec<PinLoc>,
    stt: &F,
    non_leaf: &G,
) -> (r: Result<Decision, String>)
    requires
        builds(*stt),
        judges(*non_leaf),
    ensures
        steiner_decided(
            *net,
            *timing,
            text::views(clock_nets@),
            *drvr,
            pins@,
            *stt,
            *non_leaf,
            decision_view(r),
        ),
{
    if holds(clock_nets, net.name.as_str()) && !timing.propagated {
        return Ok(Decision::Skip);
    }
    if is_constant_pin(net, timing, drvr) {
        return Err(
            framed(
                "net ",
                net.name.as_str(),
                ": driven by a constant (tie) output — isConstant is not modelled",
            ),
        );
    }
    let (pinlocs, drvr_idx, tree) = make_steiner_tree(drvr, pins, stt);
    match tree {
        Some(tree) => {
            let facts = make_clock_facts(net, timing);
            let clock_type = same(net.sig_type.as_str(), "CLOCK");
            let non_leaf_clock = non_leaf(clock_type, &facts);
            assert(judged(*non_leaf, of_clock_type(*net), clock_facts(*net, *timing), non_leaf_clock));
            assert(built(*stt, order::sorted(pins@), start_of(drvr_idx), tree.tree));
            Ok(Decision::Tree { tree, drvr_idx, non_leaf_clock })
        },
        None => Ok(Decision::NoTree { pinlocs, drvr_idx }),
    }
}

/// What becomes of a net with that driver: nothing on a supply or special net; a link on a pad net;
/// else its Steiner estimate.
pub open spec fn driver_decided<
    F: Fn(&Vec<i32>, &Vec<i32>, usize) -> SttTree,
    G: Fn(bool, &Vec<ITermClockFacts>) -> bool,
>(
    net: Net,
    timing: Timing<'_>,
    clock_nets: Seq<Seq<char>>,
    drvr: PinLoc,
    pins: Seq<PinLoc>,
    stt: F,
    non_leaf: G,
    r: Result<DecisionView, Seq<char>>,
) -> bool {
    if net.sig_type@ == "POWER"@ {
        r == Ok::<DecisionView, Seq<char>>(DecisionView::Power)
    } else if net.sig_type@ == "GROUND"@ {
        r == Ok::<DecisionView, Seq<char>>(DecisionView::Ground)
    } else if net.special {
        r == Ok::<DecisionView, Seq<char>>(DecisionView::Special)
    } else {
        match pad_net(net, pins) {
            Err(e) => r == Err::<DecisionView, Seq<char>>(e),
            Ok(true) => r == Ok::<DecisionView, Seq<char>>(DecisionView::Pad { pins }),
            Ok(false) => steiner_decided(net, timing, clock_nets, drvr, pins, stt, non_leaf, r),
        }
    }
}

/// What becomes of a net with that driver.
pub fn estimate_wire_parasitic_drvr<
    F: Fn(&Vec<i32>, &Vec<i32>, usize) -> SttTree,
    G: Fn(bool, &Vec<ITermClockFacts>) -> bool,
>(
    net: &Net,
    timing: &Timing<'_>,
    clock_nets: &Vec<String>,
    drvr: &PinLoc,
    pins: &Vec<PinLoc>,
    stt: &F,
    non_leaf: &G,
) -> (r: Result<Decision, String>)
    requires
        builds(*stt),
        judges(*non_leaf),
    ensures
        driver_decided(
            *net,
            *timing,
            text::views(clock_nets@),
            *drvr,
            pins@,
            *stt,
            *non_leaf,
            decision_view(r),
        ),
{
    if same(net.sig_type.as_str(), "POWER") {
        return Ok(Decision::Power);
    }
    if same(net.sig_type.as_str(), "GROUND") {
        return Ok(Decision::Ground);
    }
    if net.special {
        return Ok(Decision::Special);
    }
    match is_pad_net(net, pins) {
        Err(e) => Err(e),
        Ok(true) => Ok(Decision::Pad { pins: copy_pins(pins) }),
        Ok(false) => estimate_wire_parasitic_steiner(
            net,
            timing,
            clock_nets,
            drvr,
            pins,
            stt,
            non_leaf,
        ),
    }
}

/// A net's estimate or what is wrong, as sequences.
pub open spec fn estimate_view(r: Result<NetEstimate, String>) -> Result<
    NetEstimateView,
    Seq<char>,
> {
    match r {
        Ok(n) => Ok(n@),
        Err(e) => Err(e@),
    }
}

/// `r` is the estimate of a net: none without a driver, else what becomes of it with its first.
pub open spec fn net_estimated<
    F: Fn(&Vec<i32>, &Vec<i32>, usize) -> SttTree,
    G: Fn(bool, &Vec<ITermClockFacts>) -> bool,
>(
    net: Net,
    timing: Timing<'_>,
    clock_nets: Seq<Seq<char>>,
    stt: F,
    non_leaf: G,
    r: Result<NetEstimateView, Seq<char>>,
) -> bool {
    match first_driver(net) {
        None => r == Ok::<NetEstimateView, Seq<char>>(
            NetEstimateView {
                net: net.name@,
                drivers: 0,
                drvr: None,
                decision: DecisionView::NoDriver,
            },
        ),
        Some(drvr) => match connected_by_id(net) {
            Err(e) => r == Err::<NetEstimateView, Seq<char>>(e),
            Ok(pins) => match r {
                Err(e) => driver_decided(
                    net,
                    timing,
                    clock_nets,
                    drvr,
                    pins,
                    stt,
                    non_leaf,
                    Err(e),
                ),
                Ok(n) => n.net == net.name@ && n.drivers == 1 && n.drvr == Some(drvr.name@)
                    && driver_decided(
                    net,
                    timing,
                    clock_nets,
                    drvr,
                    pins,
                    stt,
                    non_leaf,
                    Ok(n.decision),
                ),
            },
        },
    }
}

/// The estimate of a net.
pub fn estimate_wire_parasitic<
    F: Fn(&Vec<i32>, &Vec<i32>, usize) -> SttTree,
    G: Fn(bool, &Vec<ITermClockFacts>) -> bool,
>(net: &Net, timing: &Timing<'_>, clock_nets: &Vec<String>, stt: &F, non_leaf: &G) -> (r: Result<
    NetEstimate,
    String,
>)
    requires
        builds(*stt),
        judges(*non_leaf),
    ensures
        net_estimated(
            *net,
            *timing,
            text::views(clock_nets@),
            *stt,
            *non_leaf,
            estimate_view(r),
        ),
{
    match first_driver_term(net) {
        None => Ok(
            NetEstimate {
                net: net.name.clone(),
                drivers: 0,
                drvr: None,
                decision: Decision::NoDriver,
            },
        ),
        Some(drvr) => match connected_pins_by_id(net) {
            Err(e) => Err(e),
            Ok(pins) => match estimate_wire_parasitic_drvr(
                net,
                timing,
                clock_nets,
                &drvr,
                &pins,
                stt,
                non_leaf,
            ) {
                Err(e) => Err(e),
                Ok(decision) => Ok(
                    NetEstimate {
                        net: net.name.clone(),
                        drivers: 1,
                        drvr: Some(drvr.name.clone()),
                        decision,
                    },
                ),
            },
        },
    }
}

/// The clock network is searched: there are libraries and clock sources.
pub open spec fn searches(timing: Timing<'_>) -> bool {
    timing.liberty is Some && timing.clock_sources@.len() > 0
}

/// Whether the clock network is searched.
pub fn needs_search(timing: &Timing<'_>) -> (r: bool)
    ensures
        r == searches(*timing),
{
    timing.liberty.is_some() && timing.clock_sources.len() > 0
}

/// The clock nets that count: those the search found, where there are libraries and clock sources;
/// else none, and the search is not read.
pub open spec fn clock_nets_of(
    timing: Timing<'_>,
    search: Result<Seq<Seq<char>>, Seq<char>>,
) -> Result<Seq<Seq<char>>, Seq<char>> {
    if searches(timing) {
        search
    } else {
        Ok(Seq::empty())
    }
}

/// Texts or what is wrong, as sequences.
pub open spec fn texts_view(r: Result<Vec<String>, String>) -> Result<Seq<Seq<char>>, Seq<char>> {
    match r {
        Ok(v) => Ok(text::views(v@)),
        Err(e) => Err(e@),
    }
}

/// The net has an estimate.
pub open spec fn net_accepted<
    F: Fn(&Vec<i32>, &Vec<i32>, usize) -> SttTree,
    G: Fn(bool, &Vec<ITermClockFacts>) -> bool,
>(net: Net, timing: Timing<'_>, clock_nets: Seq<Seq<char>>, stt: F, non_leaf: G) -> bool {
    exists|v: NetEstimateView| #[trigger]
        net_estimated(net, timing, clock_nets, stt, non_leaf, Ok(v))
}

/// The net at that place fails with that error, and all before it have an estimate.
pub open spec fn fails_at<
    F: Fn(&Vec<i32>, &Vec<i32>, usize) -> SttTree,
    G: Fn(bool, &Vec<ITermClockFacts>) -> bool,
>(
    nets: Seq<Net>,
    timing: Timing<'_>,
    clock_nets: Seq<Seq<char>>,
    stt: F,
    non_leaf: G,
    n: int,
    e: Seq<char>,
) -> bool {
    &&& 0 <= n < nets.len()
    &&& net_estimated(nets[n], timing, clock_nets, stt, non_leaf, Err(e))
    &&& forall|i: int|
        0 <= i < n ==> #[trigger] net_accepted(nets[i], timing, clock_nets, stt, non_leaf)
}

/// That error is the first net's that fails.
pub open spec fn first_fails<
    F: Fn(&Vec<i32>, &Vec<i32>, usize) -> SttTree,
    G: Fn(bool, &Vec<ITermClockFacts>) -> bool,
>(
    nets: Seq<Net>,
    timing: Timing<'_>,
    clock_nets: Seq<Seq<char>>,
    stt: F,
    non_leaf: G,
    e: Seq<char>,
) -> bool {
    exists|n: int| #[trigger] fails_at(nets, timing, clock_nets, stt, non_leaf, n, e)
}

/// Every net has the estimate at its place.
pub open spec fn all_estimated<
    F: Fn(&Vec<i32>, &Vec<i32>, usize) -> SttTree,
    G: Fn(bool, &Vec<ITermClockFacts>) -> bool,
>(
    nets: Seq<Net>,
    timing: Timing<'_>,
    clock_nets: Seq<Seq<char>>,
    stt: F,
    non_leaf: G,
    v: Seq<NetEstimateView>,
) -> bool {
    &&& v.len() == nets.len()
    &&& forall|i: int|
        0 <= i < nets.len() ==> #[trigger] net_estimated(
            nets[i],
            timing,
            clock_nets,
            stt,
            non_leaf,
            Ok(v[i]),
        )
}

/// `r` is the list of the nets' estimates, or the first net's error.
pub open spec fn nets_estimated<
    F: Fn(&Vec<i32>, &Vec<i32>, usize) -> SttTree,
    G: Fn(bool, &Vec<ITermClockFacts>) -> bool,
>(
    nets: Seq<Net>,
    timing: Timing<'_>,
    clock_nets: Seq<Seq<char>>,
    stt: F,
    non_leaf: G,
    r: Result<Seq<NetEstimateView>, Seq<char>>,
) -> bool {
    match r {
        Ok(v) => all_estimated(nets, timing, clock_nets, stt, non_leaf, v),
        Err(e) => first_fails(nets, timing, clock_nets, stt, non_leaf, e),
    }
}

/// Estimates with their texts and lists as sequences.
pub open spec fn estimates(s: Seq<NetEstimate>) -> Seq<NetEstimateView> {
    Seq::new(s.len(), |i: int| s[i]@)
}

/// Estimates or what is wrong, as sequences.
pub open spec fn estimates_view(r: Result<Vec<NetEstimate>, String>) -> Result<
    Seq<NetEstimateView>,
    Seq<char>,
> {
    match r {
        Ok(v) => Ok(estimates(v@)),
        Err(e) => Err(e@),
    }
}

/// The estimate of every net in the block's order. `search` is what a search of the clock network
/// from the clock sources found; a search that failed is the answer where it is read.
pub fn estimate_wire_parasitics<
    F: Fn(&Vec<i32>, &Vec<i32>, usize) -> SttTree,
    G: Fn(bool, &Vec<ITermClockFacts>) -> bool,
>(
    db: &Db,
    timing: &Timing<'_>,
    search: &Result<Vec<String>, String>,
    stt: &F,
    non_leaf: &G,
) -> (r: Result<Vec<NetEstimate>, String>)
    requires
        builds(*stt),
        judges(*non_leaf),
    ensures
        match clock_nets_of(*timing, texts_view(*search)) {
            Err(e) => estimates_view(r) == Err::<Seq<NetEstimateView>, Seq<char>>(e),
            Ok(clock_nets) => nets_estimated(
                db.nets@,
                *timing,
                clock_nets,
                *stt,
                *non_leaf,
                estimates_view(r),
            ),
        },
{
    let clock_nets: Vec<String> = if needs_search(timing) {
        match search {
            Ok(v) => text::copy_texts(v),
            Err(e) => {
                return Err(e.clone());
            },
        }
    } else {
        Vec::new()
    };
    let ghost found = text::views(clock_nets@);
    assert(clock_nets_of(*timing, texts_view(*search)) == Ok::<Seq<Seq<char>>, Seq<char>>(found)) by {
        assert(text::views(Seq::<String>::empty()) =~= Seq::<Seq<char>>::empty());
    }
    let n: usize = db.nets.len();
    let mut out: Vec<NetEstimate> = Vec::new();
    let mut i: usize = 0;
    while i < n
        invariant
            n == db.nets@.len(),
            i <= n,
            out@.len() == i,
            builds(*stt),
            judges(*non_leaf),
            found == text::views(clock_nets@),
            clock_nets_of(*timing, texts_view(*search)) == Ok::<Seq<Seq<char>>, Seq<char>>(found),
            forall|k: int|
                0 <= k < i ==> #[trigger] net_estimated(
                    db.nets@[k],
                    *timing,
                    found,
                    *stt,
                    *non_leaf,
                    Ok(out@[k]@),
                ),
        decreases n - i,
    {
        match estimate_wire_parasitic(&db.nets[i], timing, &clock_nets, stt, non_leaf) {
            Err(e) => {
                assert forall|k: int| 0 <= k < i implies #[trigger] net_accepted(
                    db.nets@[k],
                    *timing,
                    found,
                    *stt,
                    *non_leaf,
                ) by {
                    assert(net_estimated(
                        db.nets@[k],
                        *timing,
                        found,
                        *stt,
                        *non_leaf,
                        Ok(out@[k]@),
                    ));
                }
                assert(fails_at(db.nets@, *timing, found, *stt, *non_leaf, i as int, e@));
                return Err(e);
            },
            Ok(v) => {
                out.push(v);
            },
        }
        i = i + 1;
    }
    Ok(out)
}

/// The net was estimated: it got a tree or a pad link.
pub open spec fn is_estimated(n: NetEstimateView) -> bool {
    n.decision is Tree || n.decision is Pad
}

/// How many nets were estimated.
pub open spec fn estimated_count(s: Seq<NetEstimateView>) -> nat
    decreases s.len(),
{
    if s.len() == 0 {
        0
    } else if is_estimated(s.last()) {
        estimated_count(s.drop_last()) + 1
    } else {
        estimated_count(s.drop_last())
    }
}

/// How many nets were estimated: those that got a tree or a pad link.
pub fn count_estimated(nets: &Vec<NetEstimate>) -> (r: usize)
    ensures
        r == estimated_count(estimates(nets@)),
        r <= nets@.len(),
{
    let n: usize = nets.len();
    let ghost all = estimates(nets@);
    let mut count: usize = 0;
    let mut i: usize = 0;
    while i < n
        invariant
            n == nets@.len(),
            i <= n,
            count <= i,
            all == estimates(nets@),
            count == estimated_count(all.take(i as int)),
        decreases n - i,
    {
        assert(all.take(i + 1).drop_last() =~= all.take(i as int));
        match &nets[i].decision {
            Decision::Tree { .. } => {
                count = count + 1;
            },
            Decision::Pad { .. } => {
                count = count + 1;
            },
            _ => {},
        }
        i = i + 1;
    }
    assert(all.take(n as int) =~= all);
    count
}

/// A place as a signed number, -1 for none.
pub open spec fn signed_place(i: Option<usize>) -> int {
    match i {
        None => -1,
        Some(i) => if i < 0x8000_0000_0000_0000 {
            i as int
        } else {
            i - 0x1_0000_0000_0000_0000
        },
    }
}

fn make_signed_place(i: Option<usize>) -> (r: i128)
    ensures
        r == signed_place(i),
{
    match i {
        None => -1,
        Some(i) => {
            let n: i128 = i as i128;
            if n < 0x8000_0000_0000_0000 {
                n
            } else {
                n - 0x1_0000_0000_0000_0000
            }
        },
    }
}

/// A pin as the trace shows it.
pub open spec fn pin_text(p: PinLoc) -> Seq<char> {
    p.name@ + "@"@ + text::integer(p.x as int) + ","@ + text::integer(p.y as int) + ";"@
}

/// Pins as the trace shows them.
pub open spec fn pins_text(pins: Seq<PinLoc>) -> Seq<char>
    decreases pins.len(),
{
    if pins.len() == 0 {
        Seq::empty()
    } else {
        pins_text(pins.drop_last()) + pin_text(pins.last())
    }
}

/// A branch as the trace shows it.
pub open spec fn branch_text(b: Branch) -> Seq<char> {
    text::integer(b.x as int) + ","@ + text::integer(b.y as int) + ","@ + text::integer(b.n as int) + ";"@
}

/// Branches as the trace shows them.
pub open spec fn branches_text(s: Seq<Branch>) -> Seq<char>
    decreases s.len(),
{
    if s.len() == 0 {
        Seq::empty()
    } else {
        branches_text(s.drop_last()) + branch_text(s.last())
    }
}

/// The trace's line of a net's pins.
pub open spec fn pins_line(net: Seq<char>, pins: Seq<PinLoc>, drvr_idx: Option<usize>) -> Seq<char> {
    "VYGE|pins|"@ + net + "|drvr_idx="@ + text::integer(signed_place(drvr_idx)) + "|"@ + pins_text(pins)
        + "\n"@
}

/// The trace's line of a net's tree.
pub open spec fn tree_line(net: Seq<char>, tree: SteinerTreeView) -> Seq<char> {
    "VYGE|tree|"@ + net + "|pins="@ + text::integer(tree.pinlocs.len() as int) + "|drvr_pt="@
        + text::integer(signed_place(tree.drvr_pt)) + "|"@ + branches_text(tree.tree.branch) + "\n"@
}

/// The trace's line of a net and its driver.
pub open spec fn net_line(n: NetEstimateView) -> Seq<char> {
    "VYGE|net|"@ + n.net + "|drivers="@ + text::integer(n.drivers as int) + "|drvr="@ + (match n.drvr {
        Some(s) => s,
        None => Seq::empty(),
    }) + "\n"@
}

/// The trace's line of what kind a net is.
pub open spec fn kind_line(net: Seq<char>, d: DecisionView) -> Seq<char> {
    "VYGE|kind|"@ + net + "|"@ + (match d {
        DecisionView::Power => "power"@,
        DecisionView::Ground => "ground"@,
        DecisionView::Special => "special"@,
        DecisionView::Pad { .. } => "pad"@,
        _ => "steiner"@,
    }) + "\n"@
}

/// The trace's lines of what became of a net.
pub open spec fn decision_lines(net: Seq<char>, d: DecisionView) -> Seq<char> {
    match d {
        DecisionView::Skip => "VYGE|skip|"@ + net + "\n"@,
        DecisionView::NoTree { pinlocs, drvr_idx } => if pinlocs.len() >= 2 {
            pins_line(net, pinlocs, drvr_idx) + ("VYGE|noplace|"@ + net + "\n"@)
        } else {
            pins_line(net, pinlocs, drvr_idx)
        },
        DecisionView::Tree { tree, drvr_idx, non_leaf_clock } => pins_line(
            net,
            tree.pinlocs,
            drvr_idx,
        ) + tree_line(net, tree) + ("VYGE|clk|"@ + net + (if non_leaf_clock {
            "|1\n"@
        } else {
            "|0\n"@
        })),
        _ => Seq::empty(),
    }
}

/// The trace of one net.
pub open spec fn net_trace(n: NetEstimateView) -> Seq<char> {
    if n.decision is NoDriver {
        net_line(n)
    } else {
        net_line(n) + kind_line(n.net, n.decision) + decision_lines(n.net, n.decision)
    }
}

/// The trace of nets.
pub open spec fn nets_trace(s: Seq<NetEstimateView>) -> Seq<char>
    decreases s.len(),
{
    if s.len() == 0 {
        Seq::empty()
    } else {
        nets_trace(s.drop_last()) + net_trace(s.last())
    }
}

fn make_pins_line(net: &str, pins: &Vec<PinLoc>, drvr_idx: Option<usize>) -> (r: String)
    ensures
        r@ == pins_line(net@, pins@, drvr_idx),
{
    let n: usize = pins.len();
    let mut all = String::new();
    let mut i: usize = 0;
    while i < n
        invariant
            n == pins@.len(),
            i <= n,
            all@ == pins_text(pins@.take(i as int)),
        decreases n - i,
    {
        let p = &pins[i];
        let mut one = p.name.clone();
        one.append("@");
        text::push_int(&mut one, p.x as i128);
        one.append(",");
        text::push_int(&mut one, p.y as i128);
        one.append(";");
        all.append(one.as_str());
        assert(pins@.take(i + 1).drop_last() =~= pins@.take(i as int));
        i = i + 1;
    }
    assert(pins@.take(n as int) =~= pins@);
    let mut line = framed("VYGE|pins|", net, "|drvr_idx=");
    text::push_int(&mut line, make_signed_place(drvr_idx));
    line.append("|");
    line.append(all.as_str());
    line.append("\n");
    line
}

fn make_tree_line(net: &str, tree: &SteinerTree) -> (r: String)
    ensures
        r@ == tree_line(net@, tree@),
{
    let v = &tree.tree.branch;
    let n: usize = v.len();
    let mut all = String::new();
    let mut i: usize = 0;
    while i < n
        invariant
            n == v@.len(),
            i <= n,
            all@ == branches_text(v@.take(i as int)),
        decreases n - i,
    {
        let b = v[i];
        let mut one = text::int_text(b.x as i128);
        one.append(",");
        text::push_int(&mut one, b.y as i128);
        one.append(",");
        text::push_int(&mut one, b.n as i128);
        one.append(";");
        all.append(one.as_str());
        assert(v@.take(i + 1).drop_last() =~= v@.take(i as int));
        i = i + 1;
    }
    assert(v@.take(n as int) =~= v@);
    let mut line = framed("VYGE|tree|", net, "|pins=");
    text::push_int(&mut line, tree.pinlocs.len() as i128);
    line.append("|drvr_pt=");
    text::push_int(&mut line, make_signed_place(tree.drvr_pt));
    line.append("|");
    line.append(all.as_str());
    line.append("\n");
    line
}

fn make_kind_line(net: &str, d: &Decision) -> (r: String)
    ensures
        r@ == kind_line(net@, d@),
{
    let kind = match d {
        Decision::Power => "power",
        Decision::Ground => "ground",
        Decision::Special => "special",
        Decision::Pad { .. } => "pad",
        _ => "steiner",
    };
    let mut line = framed("VYGE|kind|", net, "|");
    line.append(kind);
    line.append("\n");
    line
}

fn make_decision_lines(net: &str, d: &Decision) -> (r: String)
    ensures
        r@ == decision_lines(net@, d@),
{
    match d {
        Decision::Skip => framed("VYGE|skip|", net, "\n"),
        Decision::NoTree { pinlocs, drvr_idx } => {
            let mut t = make_pins_line(net, pinlocs, *drvr_idx);
            if pinlocs.len() >= 2 {
                t.append(framed("VYGE|noplace|", net, "\n").as_str());
            }
            t
        },
        Decision::Tree { tree, drvr_idx, non_leaf_clock } => {
            let mut t = make_pins_line(net, &tree.pinlocs, *drvr_idx);
            t.append(make_tree_line(net, tree).as_str());
            t.append(framed("VYGE|clk|", net, if *non_leaf_clock { "|1\n" } else { "|0\n" }).as_str());
            t
        },
        _ => String::new(),
    }
}

/// The decisions, a line or more for each net.
pub fn trace(nets: &Vec<NetEstimate>) -> (r: String)
    ensures
        r@ == nets_trace(estimates(nets@)),
{
    let n: usize = nets.len();
    let mut t = String::new();
    let mut i: usize = 0;
    while i < n
        invariant
            n == nets@.len(),
            i <= n,
            t@ == nets_trace(estimates(nets@).take(i as int)),
        decreases n - i,
    {
        let e = &nets[i];
        let mut one = framed("VYGE|net|", e.net.as_str(), "|drivers=");
        text::push_int(&mut one, e.drivers as i128);
        one.append("|drvr=");
        match &e.drvr {
            Some(s) => {
                one.append(s.as_str());
            },
            None => {
                one.append("");
                proof {
                    reveal_strlit("");
                }
                assert(""@ =~= Seq::<char>::empty());
            },
        }
        one.append("\n");
        assert(one@ == net_line(e@));
        match &e.decision {
            Decision::NoDriver => {},
            d => {
                one.append(make_kind_line(e.net.as_str(), d).as_str());
                one.append(make_decision_lines(e.net.as_str(), d).as_str());
            },
        }
        assert(one@ == net_trace(e@));
        t.append(one.as_str());
        assert(estimates(nets@).take(i + 1).drop_last() =~= estimates(nets@).take(i as int));
        i = i + 1;
    }
    assert(estimates(nets@).take(n as int) =~= estimates(nets@));
    t
}

/// A supply net is never estimated: it has no driver, whatever it connects, so it gets no network.
pub proof fn law_supply_net_has_no_network<
    F: Fn(&Vec<i32>, &Vec<i32>, usize) -> SttTree,
    G: Fn(bool, &Vec<ITermClockFacts>) -> bool,
>(
    net: Net,
    timing: Timing<'_>,
    clock_nets: Seq<Seq<char>>,
    stt: F,
    non_leaf: G,
    r: Result<NetEstimateView, Seq<char>>,
)
    requires
        net_estimated(net, timing, clock_nets, stt, non_leaf, r),
        supply(net.sig_type@),
    ensures
        r matches Ok(n) && n.decision is NoDriver && n.drivers == 0,
{
}

/// A net has at most one driver, and it has one exactly where something was decided of it.
pub proof fn law_one_driver_at_most<
    F: Fn(&Vec<i32>, &Vec<i32>, usize) -> SttTree,
    G: Fn(bool, &Vec<ITermClockFacts>) -> bool,
>(
    net: Net,
    timing: Timing<'_>,
    clock_nets: Seq<Seq<char>>,
    stt: F,
    non_leaf: G,
    r: Result<NetEstimateView, Seq<char>>,
)
    requires
        net_estimated(net, timing, clock_nets, stt, non_leaf, r),
    ensures
        r matches Ok(n) ==> n.net == net.name@ && n.drivers <= 1 && (n.drivers == 1 <==> n.drvr is Some)
            && (n.drvr is None <==> n.decision is NoDriver),
{
}

/// A special net gets no network.
pub proof fn law_special_net_has_no_network<
    F: Fn(&Vec<i32>, &Vec<i32>, usize) -> SttTree,
    G: Fn(bool, &Vec<ITermClockFacts>) -> bool,
>(
    net: Net,
    timing: Timing<'_>,
    clock_nets: Seq<Seq<char>>,
    stt: F,
    non_leaf: G,
    r: Result<NetEstimateView, Seq<char>>,
)
    requires
        net_estimated(net, timing, clock_nets, stt, non_leaf, r),
        net.special,
    ensures
        r matches Ok(n) ==> n.decision is NoDriver || n.decision is Special,
{
}

/// An ideal clock gets no tree and no list of pins: it is skipped unless it is a pad net, special
/// or without a driver.
pub proof fn law_ideal_clock_has_no_tree<
    F: Fn(&Vec<i32>, &Vec<i32>, usize) -> SttTree,
    G: Fn(bool, &Vec<ITermClockFacts>) -> bool,
>(
    net: Net,
    timing: Timing<'_>,
    clock_nets: Seq<Seq<char>>,
    stt: F,
    non_leaf: G,
    r: Result<NetEstimateView, Seq<char>>,
)
    requires
        net_estimated(net, timing, clock_nets, stt, non_leaf, r),
        clock_nets.contains(net.name@),
        !timing.propagated,
    ensures
        r matches Ok(n) ==> n.decision is NoDriver || n.decision is Special || n.decision is Pad
            || n.decision is Skip,
{
}

/// A tree is built only of two pins or more, all of them placed, in ascending order of location;
/// and a net of such pins is never left without one.
pub proof fn law_tree_pins_are_placed_and_ordered<
    F: Fn(&Vec<i32>, &Vec<i32>, usize) -> SttTree,
    G: Fn(bool, &Vec<ITermClockFacts>) -> bool,
>(
    net: Net,
    timing: Timing<'_>,
    clock_nets: Seq<Seq<char>>,
    stt: F,
    non_leaf: G,
    r: Result<NetEstimateView, Seq<char>>,
)
    requires
        net_estimated(net, timing, clock_nets, stt, non_leaf, r),
    ensures
        r matches Ok(n) ==> (n.decision matches DecisionView::Tree { tree, .. } ==> treeable(
            tree.pinlocs,
        ) && order::ascending(tree.pinlocs)),
        r matches Ok(n) ==> (n.decision matches DecisionView::NoTree { pinlocs, .. } ==> !treeable(
            pinlocs,
        ) && order::ascending(pinlocs)),
{
    if connected_by_id(net) is Ok {
        order::law_sorted_ascends(connected_by_id(net)->Ok_0);
    }
}

/// Pins in ascending order of location are ordered by x, and by y where x is the same.
pub proof fn law_location_order(pins: Seq<PinLoc>, i: int, j: int)
    requires
        order::ascending(pins),
        0 <= i < j < pins.len(),
    ensures
        pins[i].x < pins[j].x || pins[i].x == pins[j].x && pins[i].y <= pins[j].y,
{
    assert(pins[i].key() <= pins[j].key());
}

/// A port's number is odd and an instance terminal's even, so the two never meet; and two pins of
/// one kind with one number have one id.
pub proof fn law_pin_numbers_part_ports_from_terminals(net: Net, a: PinLoc, b: PinLoc)
    requires
        key_of(net, a) is Ok,
        key_of(net, b) is Ok,
    ensures
        a.is_port <==> key_of(net, a)->Ok_0 % 2 == 1,
        key_of(net, a) == key_of(net, b) ==> a.is_port == b.is_port,
        key_of(net, a) == key_of(net, b) && a.is_port ==> db::first_named(
            net.bterms@,
            a.name@,
        )->Some_0.id->Ok_0 == db::first_named(net.bterms@, b.name@)->Some_0.id->Ok_0,
        key_of(net, a) == key_of(net, b) && !a.is_port ==> db::first_named(
            net.iterms@,
            a.name@,
        )->Some_0.id->Ok_0 == db::first_named(net.iterms@, b.name@)->Some_0.id->Ok_0,
{
}

proof fn lemma_keyed_pins(net: Net, pins: Seq<PinLoc>)
    requires
        with_keys(net, pins) is Ok,
    ensures
        with_keys(net, pins)->Ok_0.len() == pins.len(),
        forall|i: int|
            0 <= i < pins.len() ==> (#[trigger] with_keys(net, pins)->Ok_0[i]).pin == pins[i] && key_of(
                net,
                pins[i],
            ) == Ok::<u64, Seq<char>>(with_keys(net, pins)->Ok_0[i].id),
    decreases pins.len(),
{
    if pins.len() > 0 {
        lemma_keyed_pins(net, pins.drop_last());
        let before = with_keys(net, pins.drop_last())->Ok_0;
        assert forall|i: int| 0 <= i < pins.len() implies (#[trigger] with_keys(net, pins)->Ok_0[i]).pin
            == pins[i] && key_of(net, pins[i]) == Ok::<u64, Seq<char>>(
            with_keys(net, pins)->Ok_0[i].id,
        ) by {
            if i < pins.len() - 1 {
                assert(with_keys(net, pins)->Ok_0[i] == before[i]);
                assert(pins.drop_last()[i] == pins[i]);
            }
        }
    }
}

/// The pins by number are the net's pins, none lost and none twice, and no number stands before a
/// lower one.
pub proof fn law_pins_by_number(net: Net)
    requires
        connected_by_id(net) is Ok,
    ensures
        connected_by_id(net)->Ok_0.to_multiset() == connected(net).to_multiset(),
        forall|i: int, j: int|
            0 <= i <= j < connected_by_id(net)->Ok_0.len() ==> key_of(
                net,
                #[trigger] connected_by_id(net)->Ok_0[i],
            )->Ok_0 <= key_of(net, #[trigger] connected_by_id(net)->Ok_0[j])->Ok_0,
{
    let pins = connected(net);
    let keyed = with_keys(net, pins)->Ok_0;
    let sorted = order::sorted(keyed);
    let by_id = connected_by_id(net)->Ok_0;
    lemma_keyed_pins(net, pins);
    order::law_sorted_ascends(keyed);
    order::law_sorted_keeps_values(keyed);
    assert(pins_of(keyed) =~= pins);
    lemma_pins_multiset(keyed, sorted);
    assert forall|i: int| 0 <= i < sorted.len() implies key_of(net, #[trigger] by_id[i]) == Ok::<
        u64,
        Seq<char>,
    >(sorted[i].id) by {
        sorted.to_multiset_ensures();
        keyed.to_multiset_ensures();
        assert(sorted.contains(sorted[i]));
        assert(sorted.to_multiset().count(sorted[i]) > 0);
        assert(keyed.contains(sorted[i]));
        let k = choose|k: int| 0 <= k < keyed.len() && keyed[k] == sorted[i];
        assert(with_keys(net, pins)->Ok_0[k].pin == pins[k]);
    }
    assert forall|i: int, j: int| 0 <= i <= j < by_id.len() implies key_of(
        net,
        #[trigger] by_id[i],
    )->Ok_0 <= key_of(net, #[trigger] by_id[j])->Ok_0 by {
        assert(sorted[i].key() <= sorted[j].key());
    }
}

proof fn lemma_pins_multiset(a: Seq<KeyedPin>, b: Seq<KeyedPin>)
    requires
        a.to_multiset() == b.to_multiset(),
    ensures
        pins_of(a).to_multiset() == pins_of(b).to_multiset(),
    decreases a.len(),
{
    a.to_multiset_ensures();
    b.to_multiset_ensures();
    assert(a.len() == b.len());
    if a.len() == 0 {
        assert(pins_of(a) =~= pins_of(b));
    } else {
        let x = a.last();
        assert(a.contains(x));
        assert(b.to_multiset().count(x) > 0);
        assert(b.contains(x));
        let k = choose|k: int| 0 <= k < b.len() && b[k] == x;
        let rest = b.remove(k);
        assert(a =~= a.drop_last().push(x));
        a.drop_last().to_multiset_ensures();
        assert(a.drop_last().to_multiset() =~= rest.to_multiset());
        lemma_pins_multiset(a.drop_last(), rest);
        pins_of(a.drop_last()).to_multiset_ensures();
        pins_of(b).to_multiset_ensures();
        assert(pins_of(a) =~= pins_of(a.drop_last()).push(x.pin));
        assert(pins_of(b).remove(k) =~= pins_of(rest));
        assert(pins_of(b)[k] == x.pin);
        assert(pins_of(b).to_multiset().count(x.pin) > 0);
        assert(pins_of(a).to_multiset() =~= pins_of(b).to_multiset());
    }
}

/// The driver's place among pins is the first of its name, and there is none only where no pin has
/// that name.
pub proof fn law_pin_place_is_first(pins: Seq<PinLoc>, name: Seq<char>)
    requires
        pins.len() <= usize::MAX,
    ensures
        pin_place(pins, name) matches Some(i) ==> i < pins.len() && pins[i as int].name@ == name
            && forall|k: int| 0 <= k < i ==> (#[trigger] pins[k]).name@ != name,
        pin_place(pins, name) is None ==> forall|k: int|
            0 <= k < pins.len() ==> (#[trigger] pins[k]).name@ != name,
    decreases pins.len(),
{
    if pins.len() > 0 {
        law_pin_place_is_first(pins.drop_last(), name);
        assert forall|k: int| 0 <= k < pins.len() - 1 implies #[trigger] pins[k]
            == pins.drop_last()[k] by {}
    }
}

/// The driver's point is the first branch at its location, and there is none only where no branch
/// is there.
pub proof fn law_branch_place_is_first(s: Seq<Branch>, x: i32, y: i32)
    requires
        s.len() <= usize::MAX,
    ensures
        branch_place(s, x, y) matches Some(i) ==> i < s.len() && s[i as int].x == x && s[i as int].y == y
            && forall|k: int| 0 <= k < i ==> (#[trigger] s[k]).x != x || s[k].y != y,
        branch_place(s, x, y) is None ==> forall|k: int|
            0 <= k < s.len() ==> (#[trigger] s[k]).x != x || s[k].y != y,
    decreases s.len(),
{
    if s.len() > 0 {
        law_branch_place_is_first(s.drop_last(), x, y);
        assert forall|k: int| 0 <= k < s.len() - 1 implies #[trigger] s[k] == s.drop_last()[k] by {}
    }
}

/// The trace of two lists of nets, one after the other, is the trace of the one and then that of the
/// other.
pub proof fn law_traces_follow_each_other(a: Seq<NetEstimateView>, b: Seq<NetEstimateView>)
    ensures
        nets_trace(a + b) == nets_trace(a) + nets_trace(b),
    decreases b.len(),
{
    if b.len() == 0 {
        assert(a + b =~= a);
        assert(nets_trace(a) + nets_trace(b) =~= nets_trace(a));
    } else {
        law_traces_follow_each_other(a, b.drop_last());
        assert((a + b).drop_last() =~= a + b.drop_last());
        assert((a + b).last() == b.last());
        assert(nets_trace(a + b) =~= nets_trace(a) + nets_trace(b));
    }
}

} // verus!
