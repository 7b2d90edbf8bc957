//! What estimation reads of the design database, as plain values.

use vstd::prelude::*;

use crate::text::same;
use crate::value::Quantity;

verus! {

/// A thing of the database that goes by a name.
pub trait Named {
    spec fn name_of(&self) -> Seq<char>;

    fn is_named(&self, name: &str) -> (r: bool)
        ensures
            r == (self.name_of() == name@),
    ;
}

/// The first thing in `s` that goes by `name`.
pub open spec fn first_named<T: Named>(s: Seq<T>, name: Seq<char>) -> Option<T>
    decreases s.len(),
{
    if s.len() == 0 {
        None
    } else if s[0].name_of() == name {
        Some(s[0])
    } else {
        first_named(s.skip(1), name)
    }
}

/// The first thing in `v` that goes by `name`.
pub fn find_named<'a, T: Named>(v: &'a Vec<T>, name: &str) -> (r: Option<&'a T>)
    ensures
        r is Some == first_named(v@, name@) is Some,
        r matches Some(t) ==> first_named(v@, name@) == Some(*t),
{
    let n: usize = v.len();
    let mut i: usize = 0;
    assert(v@.skip(0) =~= v@);
    while i < n
        invariant
            n == v@.len(),
            i <= n,
            first_named(v@, name@) == first_named(v@.skip(i as int), name@),
        decreases n - i,
    {
        assert(v@.skip(i as int).skip(1) =~= v@.skip(i + 1));
        if v[i].is_named(name) {
            return Some(&v[i]);
        }
        i = i + 1;
    }
    None
}

/// What the timing libraries say of an instance terminal's place in the clock network.
#[derive(Debug, Clone, Copy, PartialEq, Eq, Structural)]
pub struct ITermClockFacts {
    pub has_liberty_port: bool,
    pub is_reg_clk: bool,
    pub cell_is_pad: bool,
}

/// An instance terminal, with what the database knows of it and of its instance.
#[derive(Debug, PartialEq, Eq)]
pub struct ITerm {
    /// `inst/term`.
    pub name: String,
    /// The terminal's database id.
    pub id: Result<u32, String>,
    /// The average of the terminal's geometry, where it has any.
    pub avg_xy: Option<(i32, i32)>,
    /// The instance's origin.
    pub origin_x: i32,
    pub origin_y: i32,
    /// The instance is placed.
    pub placed: bool,
    /// The instance's master, and that master's type.
    pub master: String,
    pub master_type: Result<String, String>,
    pub sig_type: String,
    /// The terminal's LEF IO type.
    pub io_type: String,
    pub clocked: bool,
    /// The layer number of each box of the terminal's routing geometry.
    pub layers: Vec<i32>,
    /// What the libraries say of the terminal, where any were read.
    pub clock: ITermClockFacts,
}

/// A block terminal.
#[derive(Debug, PartialEq, Eq)]
pub struct BTerm {
    pub name: String,
    /// The terminal's database id.
    pub id: Result<u32, String>,
    /// Where its first placed pin is.
    pub first_pin: Option<(i32, i32)>,
    /// The placement status of its first pin.
    pub status: String,
    pub sig_type: String,
    /// The terminal's LEF IO type.
    pub io_type: String,
    /// The layer number of each shape of its first pin.
    pub layers: Result<Vec<i32>, String>,
}

/// A net with its terminals, instance terminals and block terminals in the database's order.
#[derive(Debug, PartialEq, Eq)]
pub struct Net {
    pub name: String,
    pub sig_type: String,
    pub special: bool,
    /// The net's non-default rule; empty where it has none.
    pub rule: String,
    pub iterms: Vec<ITerm>,
    pub bterms: Vec<BTerm>,
}

/// One layer of a non-default rule.
#[derive(Debug, PartialEq, Eq)]
pub struct LayerRule {
    pub layer: String,
    pub width: i32,
}

/// A non-default rule.
#[derive(Debug, PartialEq, Eq)]
pub struct NonDefaultRule {
    pub name: String,
    pub layers: Result<Vec<LayerRule>, String>,
}

/// A technology layer.
#[derive(Debug, PartialEq, Eq)]
pub struct Layer {
    pub name: String,
    pub number: i32,
    /// The routing level; 0 where the layer is not a routing layer.
    pub routing_level: i32,
    pub kind: Result<String, String>,
    pub width: i32,
    /// The wire resistance that the layer's own data give, in ohm per metre.
    pub wire_res: Quantity,
    /// The wire capacitance that the layer's own data give, in farad per metre.
    pub wire_cap: Quantity,
}

/// A port of the block.
#[derive(Debug, PartialEq, Eq)]
pub struct Port {
    pub name: String,
    pub io_type: String,
}

/// The design as estimation reads it.
#[derive(Debug, PartialEq, Eq)]
pub struct Db {
    pub block_name: String,
    pub tech_name: String,
    /// The block's terminals, in order.
    pub ports: Vec<Port>,
    /// The nets, in block order.
    pub nets: Vec<Net>,
    /// The technology's layers, in order.
    pub layers: Vec<Layer>,
    /// What is said of the type of a layer without a name.
    pub unnamed_kind: Result<String, String>,
    /// Each layer's preferred direction.
    pub directions: Result<Vec<(String, String)>, String>,
    pub rules: Vec<NonDefaultRule>,
    pub min_routing_layer: i32,
    /// Negative where nothing set it.
    pub max_routing_layer: i32,
    pub routing_layer_count: i32,
    /// The first routing layer that is not a backside layer; empty where there is none.
    pub first_frontside_layer: String,
}

impl Named for ITerm {
    open spec fn name_of(&self) -> Seq<char> {
        self.name@
    }

    fn is_named(&self, name: &str) -> (r: bool) {
        same(self.name.as_str(), name)
    }
}

impl Named for BTerm {
    open spec fn name_of(&self) -> Seq<char> {
        self.name@
    }

    fn is_named(&self, name: &str) -> (r: bool) {
        same(self.name.as_str(), name)
    }
}

impl Named for Net {
    open spec fn name_of(&self) -> Seq<char> {
        self.name@
    }

    fn is_named(&self, name: &str) -> (r: bool) {
        same(self.name.as_str(), name)
    }
}

impl Named for NonDefaultRule {
    open spec fn name_of(&self) -> Seq<char> {
        self.name@
    }

    fn is_named(&self, name: &str) -> (r: bool) {
        same(self.name.as_str(), name)
    }
}

impl Named for Layer {
    open spec fn name_of(&self) -> Seq<char> {
        self.name@
    }

    fn is_named(&self, name: &str) -> (r: bool) {
        same(self.name.as_str(), name)
    }
}

/// The thing at place `i` goes by `name`, and nothing before it does.
pub open spec fn stands_first<T: Named>(s: Seq<T>, name: Seq<char>, i: int) -> bool {
    &&& 0 <= i < s.len()
    &&& s[i].name_of() == name
    &&& forall|k: int| 0 <= k < i ==> (#[trigger] s[k]).name_of() != name
}

/// What is found by a name is the first that goes by it, and nothing is found only where nothing
/// does.
pub proof fn law_first_named<T: Named>(s: Seq<T>, name: Seq<char>)
    ensures
        first_named(s, name) matches Some(t) ==> exists|i: int| #[trigger]
            stands_first(s, name, i) && s[i] == t,
        first_named(s, name) is None ==> forall|k: int|
            0 <= k < s.len() ==> (#[trigger] s[k]).name_of() != name,
        forall|i: int| #[trigger] stands_first(s, name, i) ==> first_named(s, name) == Some(s[i]),
    decreases s.len(),
{
    if s.len() > 0 {
        let rest = s.skip(1);
        law_first_named(rest, name);
        if s[0].name_of() == name {
            assert(stands_first(s, name, 0));
        } else {
            assert forall|k: int| 1 <= k < s.len() implies #[trigger] s[k] == rest[k - 1] by {}
            if first_named(s, name) is Some {
                let j = choose|j: int| #[trigger]
                    stands_first(rest, name, j) && Some(rest[j]) == first_named(s, name);
                assert forall|k: int| 0 <= k < j + 1 implies (#[trigger] s[k]).name_of()
                    != name by {
                    if k > 0 {
                        assert(rest[k - 1].name_of() != name);
                    }
                }
                assert(stands_first(s, name, j + 1));
            }
            assert forall|i: int| #[trigger] stands_first(s, name, i) implies first_named(s, name)
                == Some(s[i]) by {
                assert forall|k: int| 0 <= k < i - 1 implies (#[trigger] rest[k]).name_of()
                    != name by {
                    assert(s[k + 1].name_of() != name);
                }
                assert(stands_first(rest, name, i - 1));
            }
        }
    }
}

} // verus!
