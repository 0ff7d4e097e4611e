use fabricate::builtins::apply;
use fabricate::error::ErrorType;
use fabricate::run;
use fabricate::runtime::execute;
use fabricate::station::{
    Pallet, SourceLocation, Station, StationKind, StationModifiers, StationType,
};

fn station_of(
    kind: StationKind,
    inputs: usize,
    is_entry: bool,
    is_terminal: bool,
    line: usize,
    in_bays: usize,
    out_bays: Vec<(usize, usize)>,
) -> Station {
    Station {
        loc: SourceLocation {
            line,
            col: 0,
            len: 7,
        },
        logic: StationType {
            id: String::new(),
            inputs,
            kind,
            is_entry,
            is_terminal,
        },
        modifiers: StationModifiers::default(),
        in_bays: vec![None; in_bays],
        out_bays,
    }
}

#[test]
fn test_execute_start_to_terminal() {
    let mut stations = vec![
        station_of(StationKind::Start, 0, true, false, 0, 0, vec![(1, 0)]),
        station_of(StationKind::Exit, 1, false, true, 1, 1, vec![]),
    ];
    assert!(execute(&mut stations, 0).is_ok());
}

#[test]
fn test_execute_deadlock_unfed_bay() {
    // The joint's single required input bay is wired to nothing, so it never
    // becomes ready and the run must report a deadlock instead of looping.
    let mut stations = vec![
        station_of(StationKind::Start, 0, true, false, 0, 0, vec![]),
        station_of(StationKind::Joint, 1, false, false, 1, 1, vec![(2, 0)]),
        station_of(StationKind::Exit, 1, false, true, 2, 1, vec![]),
    ];
    let e = execute(&mut stations, 0).err().unwrap();
    assert_eq!(e.t, ErrorType::DeadlockError);
}

#[test]
fn test_execute_operand_error() {
    // The adder receives two empty pallets, which it cannot add.
    let mut stations = vec![
        station_of(StationKind::Start, 0, true, false, 0, 0, vec![(1, 0), (1, 1)]),
        station_of(StationKind::Add, 2, false, false, 1, 2, vec![]),
    ];
    let e = execute(&mut stations, 0).err().unwrap();
    assert_eq!(e.t, ErrorType::OperandError);
    assert_eq!(
        e.loc,
        SourceLocation {
            line: 1,
            col: 0,
            len: 7
        }
    );
}

#[test]
fn test_run_start_exit() {
    assert!(run(&String::from("[start][exit]")).is_ok());
}

#[test]
fn test_run_start_joint_exit() {
    assert!(run(&String::from("[start] [joint] [exit]")).is_ok());
}

#[test]
fn test_run_across_lines() {
    let src = String::from("[start]\n[exit]");
    assert!(run(&src).is_ok());
}

#[test]
fn test_run_deadlock_when_station_underfed() {
    // The adder gets only one incoming link, so its second bay is never fed.
    let e = run(&String::from("[add][start]")).err().unwrap();
    assert_eq!(e.t, ErrorType::DeadlockError);
}

#[test]
fn test_run_blank_source() {
    let e = run(&String::from(" ")).err().unwrap();
    assert_eq!(e.t, ErrorType::StructuralError);
}

#[test]
fn test_run_unknown_identifier() {
    let e = run(&String::from("[start][conveyor]")).err().unwrap();
    assert_eq!(e.t, ErrorType::IdentifierError);
}

#[test]
fn test_apply_add() {
    assert_eq!(
        apply(StationKind::Add, &vec![Pallet::Int(2), Pallet::Int(3)]),
        Some(Pallet::Int(5))
    );
}

#[test]
fn test_apply_add_overflow() {
    assert_eq!(
        apply(StationKind::Add, &vec![Pallet::Int(i64::MAX), Pallet::Int(1)]),
        None
    );
    assert_eq!(
        apply(StationKind::Add, &vec![Pallet::Empty, Pallet::Int(1)]),
        None
    );
}

#[test]
fn test_apply_joint_passes_pallet() {
    assert_eq!(
        apply(StationKind::Joint, &vec![Pallet::Char('a')]),
        Some(Pallet::Char('a'))
    );
}

#[test]
fn test_run_wall_blocks_link() {
    // A non-blank cell that belongs to no station stops the outward scan, so
    // the exit is never fed and the run deadlocks.
    let e = run(&String::from("[start]x[exit]")).err().unwrap();
    assert_eq!(e.t, ErrorType::DeadlockError);
}

#[test]
fn test_run_unknown_identifier_location() {
    let e = run(&String::from("[start][conveyor]")).err().unwrap();
    assert_eq!(e.t, ErrorType::IdentifierError);
    assert_eq!(
        e.loc,
        SourceLocation {
            line: 0,
            col: 7,
            len: 10
        }
    );
}
