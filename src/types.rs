use vstd::prelude::*;

verus! {

/// A point in the planar coordinate system (centimetres on a local projection).
#[derive(Clone, Copy, Debug, PartialEq, Eq, Structural)]
pub struct Pt {
    pub x: i32,
    pub y: i32,
}

/// The closed set of filter kinds.
#[derive(Clone, Copy, Debug, PartialEq, Eq, Structural)]
pub enum FilterKind {
    WalkCycleOnly,
    NoEntry,
    BusGate,
    SchoolStreet,
}

/// The travel mode for which connectivity is analysed.
#[derive(Clone, Copy, Debug, PartialEq, Eq, Structural)]
pub enum Mode {
    General,
    Cycling,
}

/// Every kind blocks general traffic; only a full closure also blocks cycling.
pub open spec fn blocks_spec(kind: FilterKind, mode: Mode) -> bool {
    match mode {
        Mode::General => true,
        Mode::Cycling => kind == FilterKind::NoEntry,
    }
}

/// The stable name of each kind in a savefile.
pub open spec fn kind_name(kind: FilterKind) -> Seq<char> {
    match kind {
        FilterKind::WalkCycleOnly => "walk_cycle_only"@,
        FilterKind::NoEntry => "no_entry"@,
        FilterKind::BusGate => "bus_gate"@,
        FilterKind::SchoolStreet => "school_street"@,
    }
}

/// The kind that a savefile name stands for, if any.
pub open spec fn kind_of_name(s: Seq<char>) -> Option<FilterKind> {
    if s == "walk_cycle_only"@ {
        Some(FilterKind::WalkCycleOnly)
    } else if s == "no_entry"@ {
        Some(FilterKind::NoEntry)
    } else if s == "bus_gate"@ {
        Some(FilterKind::BusGate)
    } else if s == "school_street"@ {
        Some(FilterKind::SchoolStreet)
    } else {
        None
    }
}

/// A kind's name reads back as that kind.
pub proof fn lemma_kind_name_round_trip(k: FilterKind)
    ensures
        kind_of_name(kind_name(k)) == Some(k),
{
    reveal_strlit("walk_cycle_only");
    reveal_strlit("no_entry");
    reveal_strlit("bus_gate");
    reveal_strlit("school_street");
    match k {
        FilterKind::WalkCycleOnly => {},
        FilterKind::NoEntry => {
            assert("no_entry"@[0] != "walk_cycle_only"@[0]);
        },
        FilterKind::BusGate => {
            assert("bus_gate"@[0] != "walk_cycle_only"@[0]);
            assert("bus_gate"@[0] != "no_entry"@[0]);
        },
        FilterKind::SchoolStreet => {
            assert("school_street"@[0] != "walk_cycle_only"@[0]);
            assert("school_street"@.len() != "no_entry"@.len());
            assert("school_street"@.len() != "bus_gate"@.len());
        },
    }
}

impl FilterKind {
    pub fn blocks(&self, mode: Mode) -> (r: bool)
        ensures
            r == blocks_spec(*self, mode),
    {
        match mode {
            Mode::General => true,
            Mode::Cycling => match self {
                FilterKind::NoEntry => true,
                _ => false,
            },
        }
    }

    pub fn to_name(&self) -> (r: String)
        ensures
            r@ == kind_name(*self),
    {
        match self {
            FilterKind::WalkCycleOnly => "walk_cycle_only".to_owned(),
            FilterKind::NoEntry => "no_entry".to_owned(),
            FilterKind::BusGate => "bus_gate".to_owned(),
            FilterKind::SchoolStreet => "school_street".to_owned(),
        }
    }

    pub fn from_name(s: &String) -> (r: Option<FilterKind>)
        ensures
            r == kind_of_name(s@),
    {
        let kinds = [
            FilterKind::WalkCycleOnly,
            FilterKind::NoEntry,
            FilterKind::BusGate,
            FilterKind::SchoolStreet,
        ];
        let mut i: usize = 0;
        while i < 4
            invariant
                0 <= i <= 4,
                kinds@ == seq![
                    FilterKind::WalkCycleOnly,
                    FilterKind::NoEntry,
                    FilterKind::BusGate,
                    FilterKind::SchoolStreet,
                ],
                forall|j: int| 0 <= j < i ==> kind_name(#[trigger] kinds@[j]) != s@,
            decreases 4 - i,
        {
            let name = kinds[i].to_name();
            if name == *s {
                proof {
                    lemma_kind_name_round_trip(kinds@[i as int]);
                }
                return Some(kinds[i]);
            }
            i = i + 1;
        }
        assert forall|k: FilterKind| kind_name(k) != s@ by {
            match k {
                FilterKind::WalkCycleOnly => assert(kind_name(kinds@[0]) != s@),
                FilterKind::NoEntry => assert(kind_name(kinds@[1]) != s@),
                FilterKind::BusGate => assert(kind_name(kinds@[2]) != s@),
                FilterKind::SchoolStreet => assert(kind_name(kinds@[3]) != s@),
            }
        }
        proof {
            reveal_strlit("walk_cycle_only");
            reveal_strlit("no_entry");
            reveal_strlit("bus_gate");
            reveal_strlit("school_street");
            assert(kind_name(FilterKind::WalkCycleOnly) != s@);
            assert(kind_name(FilterKind::NoEntry) != s@);
            assert(kind_name(FilterKind::BusGate) != s@);
            assert(kind_name(FilterKind::SchoolStreet) != s@);
        }
        None
    }
}

/// A filter on a road: its kind and, optionally, where along the road it
/// stands, in thousandths of the road's length.
#[derive(Clone, Copy, Debug, PartialEq, Eq, Structural)]
pub struct ModalFilter {
    pub kind: FilterKind,
    pub position: Option<u16>,
}

/// Errors reported by the library.
#[derive(Clone, Copy, Debug, PartialEq, Eq, Structural)]
pub enum LtnError {
    /// A road id that the network does not hold.
    InvalidRoad(usize),
    /// A road outside the neighbourhood's interior, where no filter may stand.
    NotInterior(usize),
    /// An intersection id that the network does not hold.
    InvalidIntersection(usize),
    /// A point that cannot be snapped to the network.
    InvalidPoint,
    /// A boundary polygon with zero area or crossing edges.
    InvalidBoundary,
    /// No neighbourhood is active.
    NoNeighbourhood,
    /// The endpoints are valid but not connected.
    NoRoute,
    /// A savefile record that matches no road, or a malformed boundary.
    MalformedSavefile,
    /// Input data that breaks the network's own invariants.
    InvariantViolation,
}

} // verus!
