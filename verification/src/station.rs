use vstd::prelude::*;
use vstd::string::{StrSliceExecFns, StringExecFns};

use crate::error::{Error, ErrorType};

verus! {

/// Position of a span of characters in the source text. `line` counts text
/// lines from zero; `col` and `len` are measured in decoded characters, never
/// in raw bytes, so multi-byte characters count as one column each.
#[derive(Clone, Copy, PartialEq, Eq, Structural, Debug)]
pub struct SourceLocation {
    /// line number
    pub line: usize,
    /// column number, in characters
    pub col: usize,
    /// length of the span, in characters
    pub len: usize,
}

impl SourceLocation {
    /// The sentinel value marking "no source position applies".
    pub fn none() -> (r: Self)
        ensures
            r == (SourceLocation { line: 0, col: 0, len: 0 }),
    {
        SourceLocation { line: 0, col: 0, len: 0 }
    }
}

/// The four cardinal directions of the source grid.
#[allow(non_camel_case_types)]
#[derive(Clone, Copy, PartialEq, Eq, Structural, Debug)]
pub enum Direction {
    NORTH,
    SOUTH,
    EAST,
    WEST,
}

impl Direction {
    /// The opposite cardinal direction: north and south swap, east and west swap.
    pub open spec fn opposite(self) -> Direction {
        match self {
            Direction::NORTH => Direction::SOUTH,
            Direction::SOUTH => Direction::NORTH,
            Direction::EAST => Direction::WEST,
            Direction::WEST => Direction::EAST,
        }
    }

    /// The next direction clockwise, in the fixed cycle north, east, south, west.
    pub open spec fn clockwise(self) -> Direction {
        match self {
            Direction::NORTH => Direction::EAST,
            Direction::EAST => Direction::SOUTH,
            Direction::SOUTH => Direction::WEST,
            Direction::WEST => Direction::NORTH,
        }
    }

    /// The next direction counter-clockwise, in the cycle north, west, south, east.
    pub open spec fn counter_clockwise(self) -> Direction {
        match self {
            Direction::NORTH => Direction::WEST,
            Direction::WEST => Direction::SOUTH,
            Direction::SOUTH => Direction::EAST,
            Direction::EAST => Direction::NORTH,
        }
    }
}

impl vstd::std_specs::ops::NotSpecImpl for Direction {
    open spec fn obeys_not_spec() -> bool {
        true
    }

    open spec fn not_req(self) -> bool {
        true
    }

    open spec fn not_spec(self) -> Direction {
        self.opposite()
    }
}

impl core::ops::Not for Direction {
    type Output = Direction;

    /// `!d` yields the opposite direction, used to pick which in-bay on a
    /// neighbor an outward connection plugs into.
    fn not(self) -> (r: Direction)
        ensures
            r == self.opposite(),
    {
        match self {
            Direction::NORTH => Direction::SOUTH,
            Direction::SOUTH => Direction::NORTH,
            Direction::EAST => Direction::WEST,
            Direction::WEST => Direction::EAST,
        }
    }
}

/// Taking the opposite direction twice returns to the starting direction, and
/// no direction is its own opposite.
pub proof fn lemma_direction_opposite_involution()
    ensures
        forall|d: Direction| #[trigger] d.opposite().opposite() == d,
        forall|d: Direction| #[trigger] d.opposite() != d,
{
}

/// Per-station configuration of the order in which neighboring cells are
/// visited when the station's connections are wired.
#[derive(Clone, Copy, PartialEq, Eq, Structural, Debug)]
pub struct StationModifiers {
    /// Reverse the rotation (false = clockwise, true = counter-clockwise).
    pub reverse: bool,
    /// The direction the rotation starts with.
    pub priority: Direction,
}

impl StationModifiers {
    /// Default modifiers: clockwise rotation starting north.
    pub fn default() -> (r: Self)
        ensures
            r == (StationModifiers { reverse: false, priority: Direction::NORTH }),
    {
        StationModifiers { reverse: false, priority: Direction::NORTH }
    }

    /// Toggles the rotation between clockwise and counter-clockwise.
    pub fn reverse(self) -> (r: Self)
        ensures
            r.reverse == !self.reverse,
            r.priority == self.priority,
    {
        StationModifiers { reverse: !self.reverse, ..self }
    }

    /// Replaces the direction the rotation starts with.
    pub fn with_priority(self, new_priority: Direction) -> (r: Self)
        ensures
            r.reverse == self.reverse,
            r.priority == new_priority,
    {
        StationModifiers { priority: new_priority, ..self }
    }
}

/// A unit of value flowing between stations.
#[derive(Clone, Copy, PartialEq, Eq, Structural, Debug)]
pub enum Pallet {
    Empty,
    Int(i64),
    Char(char),
}

/// The closed set of station behaviors the engine knows how to fire.
#[derive(Clone, Copy, PartialEq, Eq, Structural, Debug)]
pub enum StationKind {
    /// The unique station a run begins at; emits an empty pallet.
    Start,
    /// Firing this station ends the run successfully.
    Exit,
    /// Passes its input pallet on unchanged.
    Joint,
    /// Adds two integer pallets.
    Add,
}

/// One entry of the station-type registry: an identifier, the number of
/// input bays the behavior consumes, the behavior itself, and whether the
/// station is the run's entry or a terminal.
#[derive(Debug)]
pub struct StationType {
    /// The identifier written between the marker brackets.
    pub id: String,
    /// Input arity: how many filled in-bays a firing consumes.
    pub inputs: usize,
    /// The transformation applied when the station fires.
    pub kind: StationKind,
    /// Whether a run begins at this station.
    pub is_entry: bool,
    /// Whether firing this station ends the run successfully.
    pub is_terminal: bool,
}

impl StationType {
    /// Structural equality of registry entries, comparing the identifier by
    /// its character content.
    pub open spec fn same_type(self, other: StationType) -> bool {
        &&& self.id@ == other.id@
        &&& self.inputs == other.inputs
        &&& self.kind == other.kind
        &&& self.is_entry == other.is_entry
        &&& self.is_terminal == other.is_terminal
    }

    /// An owned copy of this registry entry.
    pub fn duplicate(&self) -> (r: Self)
        ensures
            r.same_type(*self),
    {
        StationType {
            id: self.id.clone(),
            inputs: self.inputs,
            kind: self.kind,
            is_entry: self.is_entry,
            is_terminal: self.is_terminal,
        }
    }
}

/// The station-type registry: a read-only list of named station behaviors,
/// consulted by identifier during discovery.
pub type Namespace = Vec<StationType>;

/// The first registry entry whose identifier equals `id`, if any.
pub open spec fn lookup_spec(ns: Seq<StationType>, id: Seq<char>) -> Option<int>
    decreases ns.len(),
{
    if ns.len() == 0 {
        None
    } else if ns[0].id@ == id {
        Some(0int)
    } else {
        match lookup_spec(ns.drop_first(), id) {
            Some(i) => Some(i + 1),
            None => None,
        }
    }
}

/// A found index is in range and is the first match.
pub proof fn lemma_lookup_spec_bounds(ns: Seq<StationType>, id: Seq<char>)
    ensures
        match lookup_spec(ns, id) {
            Some(i) => 0 <= i < ns.len() && ns[i].id@ == id,
            None => forall|i: int| 0 <= i < ns.len() ==> ns[i].id@ != id,
        },
    decreases ns.len(),
{
    if ns.len() > 0 {
        lemma_lookup_spec_bounds(ns.drop_first(), id);
        if ns[0].id@ != id {
            assert(forall|i: int| 1 <= i < ns.len() ==> ns[i] == ns.drop_first()[i - 1]);
        }
    }
}

/// One placed station instance: where it stands in the source, which registry
/// entry gives its behavior, its rotation modifiers, its single-slot input
/// bays, and the wiring of its outputs as `(target station index, target
/// in-bay index)` pairs into the surrounding graph.
#[derive(Debug)]
pub struct Station {
    /// Location of the station in the source text.
    pub loc: SourceLocation,
    /// Station behavior and type information.
    pub logic: StationType,
    /// Rotation modifiers fixed at placement time.
    pub modifiers: StationModifiers,
    /// Single-slot queues for each input bay.
    pub in_bays: Vec<Option<Pallet>>,
    /// Each output-bay connection, as (station index, in-bay index).
    pub out_bays: Vec<(usize, usize)>,
}

impl Station {
    /// Builds a station by resolving `identifier` against the registry.
    /// Succeeds exactly when some registry entry carries that identifier, and
    /// then takes the first such entry; otherwise reports an
    /// identifier-resolution error carrying `loc`.
    pub fn new(identifier: &str, loc: SourceLocation, modifiers: StationModifiers, ns: &Namespace) -> (r: Result<
        Self,
        Error,
    >)
        ensures
            match r {
                Ok(s) => {
                    &&& lookup_spec(ns@, identifier@) matches Some(i)
                    &&& s.logic.same_type(ns@[lookup_spec(ns@, identifier@)->Some_0])
                    &&& s.loc == loc
                    &&& s.modifiers == modifiers
                    &&& s.in_bays@.len() == 0
                    &&& s.out_bays@.len() == 0
                },
                Err(e) => {
                    &&& lookup_spec(ns@, identifier@) is None
                    &&& e.t == ErrorType::IdentifierError
                    &&& e.loc == loc
                    &&& e.msg@ == "failed to find a station type with identifier "@ + identifier@
                },
            },
    {
        proof {
            lemma_lookup_spec_bounds(ns@, identifier@);
        }
        let n = ns.len();
        let mut k: usize = 0;
        while k < n
            invariant
                n == ns@.len(),
                k <= n,
                forall|i: int| 0 <= i < k ==> ns@[i].id@ != identifier@,
                lookup_spec(ns@, identifier@) matches Some(i) ==> 0 <= i < n && ns@[i].id@
                    == identifier@,
                lookup_spec(ns@, identifier@) is None ==> forall|i: int|
                    0 <= i < n ==> ns@[i].id@ != identifier@,
            decreases n - k,
        {
            if str_eq(ns[k].id.as_str(), identifier) {
                proof {
                    lemma_lookup_first_match(ns@, identifier@, k as int);
                }
                return Ok(
                    Station {
                        loc,
                        logic: ns[k].duplicate(),
                        modifiers,
                        in_bays: Vec::new(),
                        out_bays: Vec::new(),
                    },
                );
            }
            k += 1;
        }
        let mut msg = String::from_str("failed to find a station type with identifier ");
        msg.append(identifier);
        Err(Error { t: ErrorType::IdentifierError, loc, msg })
    }

    /// Adds one more empty input bay.
    pub fn new_in_bay(&mut self)
        ensures
            final(self).in_bays@ == old(self).in_bays@.push(None),
            final(self).loc == old(self).loc,
            final(self).logic == old(self).logic,
            final(self).modifiers == old(self).modifiers,
            final(self).out_bays == old(self).out_bays,
    {
        self.in_bays.push(None);
    }

    /// Empties every input bay, keeping the number of bays.
    pub fn clear_in_bays(&mut self)
        ensures
            final(self).in_bays@.len() == old(self).in_bays@.len(),
            forall|i: int| 0 <= i < final(self).in_bays@.len() ==> final(self).in_bays@[i] is None,
            final(self).loc == old(self).loc,
            final(self).logic == old(self).logic,
            final(self).modifiers == old(self).modifiers,
            final(self).out_bays == old(self).out_bays,
    {
        let n = self.in_bays.len();
        let mut k: usize = 0;
        while k < n
            invariant
                n == self.in_bays@.len(),
                k <= n,
                forall|i: int| 0 <= i < k ==> self.in_bays@[i] is None,
                self.loc == old(self).loc,
                self.logic == old(self).logic,
                self.modifiers == old(self).modifiers,
                self.out_bays == old(self).out_bays,
            decreases n - k,
        {
            self.in_bays.set(k, None);
            k += 1;
        }
    }
}

/// If index `k` matches and nothing before it does, the lookup returns `k`.
proof fn lemma_lookup_first_match(ns: Seq<StationType>, id: Seq<char>, k: int)
    requires
        0 <= k < ns.len(),
        ns[k].id@ == id,
        forall|i: int| 0 <= i < k ==> ns[i].id@ != id,
    ensures
        lookup_spec(ns, id) == Some(k),
    decreases ns.len(),
{
    if k > 0 {
        lemma_lookup_first_match(ns.drop_first(), id, k - 1);
    }
}

/// Character-wise equality of two string slices.
fn str_eq(a: &str, b: &str) -> (r: bool)
    ensures
        r == (a@ == b@),
{
    let na = a.unicode_len();
    let nb = b.unicode_len();
    if na != nb {
        return false;
    }
    let mut k: usize = 0;
    while k < na
        invariant
            na == a@.len(),
            nb == b@.len(),
            na == nb,
            k <= na,
            forall|i: int| 0 <= i < k ==> a@[i] == b@[i],
        decreases na - k,
    {
        if a.get_char(k) != b.get_char(k) {
            return false;
        }
        k += 1;
    }
    proof {
        assert(a@ =~= b@);
    }
    true
}

} // verus!
