use vstd::prelude::*;
use vstd::string::StringExecFns;

use crate::station::{Namespace, Pallet, StationKind, StationType};

verus! {

/// What a station behavior produces from the pallets it consumed: the one
/// result pallet handed to every out-bay, or `None` when an input pallet is of
/// a variant the behavior cannot handle (an operand error).
pub open spec fn apply_spec(kind: StationKind, inputs: Seq<Pallet>) -> Option<Pallet> {
    match kind {
        StationKind::Start => Some(Pallet::Empty),
        StationKind::Exit => Some(Pallet::Empty),
        StationKind::Joint => if inputs.len() >= 1 {
            Some(inputs[0])
        } else {
            None
        },
        StationKind::Add => if inputs.len() == 2 {
            match inputs[0] {
                Pallet::Int(a) => match inputs[1] {
                    Pallet::Int(b) => if i64::MIN <= a + b <= i64::MAX {
                        Some(Pallet::Int((a + b) as i64))
                    } else {
                        None
                    },
                    _ => None,
                },
                _ => None,
            }
        } else {
            None
        },
    }
}

/// Fires a station behavior on the pallets taken from its input bays.
pub fn apply(kind: StationKind, inputs: &Vec<Pallet>) -> (r: Option<Pallet>)
    ensures
        r == apply_spec(kind, inputs@),
{
    match kind {
        StationKind::Start => Some(Pallet::Empty),
        StationKind::Exit => Some(Pallet::Empty),
        StationKind::Joint => if inputs.len() >= 1 {
            Some(inputs[0])
        } else {
            None
        },
        StationKind::Add => {
            if inputs.len() == 2 {
                match (inputs[0], inputs[1]) {
                    (Pallet::Int(a), Pallet::Int(b)) => {
                        if (b > 0 && a > i64::MAX - b) || (b < 0 && a < i64::MIN - b) {
                            None
                        } else {
                            Some(Pallet::Int(a + b))
                        }
                    },
                    _ => None,
                }
            } else {
                None
            }
        },
    }
}

/// The registry holds these four entries, in this order: the entry station
/// "start", the terminal station "exit", the pass-through "joint", and the
/// integer adder "add".
pub open spec fn is_builtin_namespace(ns: Seq<StationType>) -> bool {
    &&& ns.len() == 4
    &&& ns[0].id@ == "start"@ && ns[0].inputs == 0 && ns[0].kind == StationKind::Start
        && ns[0].is_entry && !ns[0].is_terminal
    &&& ns[1].id@ == "exit"@ && ns[1].inputs == 1 && ns[1].kind == StationKind::Exit
        && !ns[1].is_entry && ns[1].is_terminal
    &&& ns[2].id@ == "joint"@ && ns[2].inputs == 1 && ns[2].kind == StationKind::Joint
        && !ns[2].is_entry && !ns[2].is_terminal
    &&& ns[3].id@ == "add"@ && ns[3].inputs == 2 && ns[3].kind == StationKind::Add
        && !ns[3].is_entry && !ns[3].is_terminal
}

/// Builds the registry of built-in station types.
pub fn builtins() -> (ns: Namespace)
    ensures
        is_builtin_namespace(ns@),
{
    let mut ns: Namespace = Vec::new();
    ns.push(
        StationType {
            id: String::from_str("start"),
            inputs: 0,
            kind: StationKind::Start,
            is_entry: true,
            is_terminal: false,
        },
    );
    ns.push(
        StationType {
            id: String::from_str("exit"),
            inputs: 1,
            kind: StationKind::Exit,
            is_entry: false,
            is_terminal: true,
        },
    );
    ns.push(
        StationType {
            id: String::from_str("joint"),
            inputs: 1,
            kind: StationKind::Joint,
            is_entry: false,
            is_terminal: false,
        },
    );
    ns.push(
        StationType {
            id: String::from_str("add"),
            inputs: 2,
            kind: StationKind::Add,
            is_entry: false,
            is_terminal: false,
        },
    );
    ns
}

} // verus!
