use fabricate::builtins::builtins;
use fabricate::station::{Direction, Pallet, SourceLocation, Station, StationModifiers};

#[test]
fn test_direction_negation() {
    assert_eq!(!Direction::NORTH, Direction::SOUTH);
    assert_eq!(!Direction::EAST, Direction::WEST);
    assert_eq!(!Direction::SOUTH, Direction::NORTH);
    assert_eq!(!Direction::WEST, Direction::EAST);
}

#[test]
fn test_station_clear_in_bays() {
    let mut station = Station::new(
        "joint",
        SourceLocation::none(),
        StationModifiers::default(),
        &builtins(),
    )
    .unwrap();
    station.in_bays.push(Some(Pallet::Empty));
    station.in_bays.push(Some(Pallet::Int(3)));
    station.in_bays.push(Some(Pallet::Char('a')));
    station.clear_in_bays();
    assert!(station.in_bays[0].is_none());
    assert!(station.in_bays[1].is_none());
    assert!(station.in_bays[2].is_none());
}

#[test]
fn test_station_modifiers() {
    assert!(matches!(
        StationModifiers::default(),
        StationModifiers {
            reverse: false,
            priority: Direction::NORTH
        }
    ));
    assert!(matches!(
        StationModifiers::default().reverse(),
        StationModifiers {
            reverse: true,
            priority: Direction::NORTH
        }
    ));
    assert!(matches!(
        StationModifiers::default().with_priority(Direction::SOUTH),
        StationModifiers {
            reverse: false,
            priority: Direction::SOUTH
        }
    ));
    assert!(matches!(
        StationModifiers::default()
            .reverse()
            .with_priority(Direction::EAST),
        StationModifiers {
            reverse: true,
            priority: Direction::EAST
        }
    ));
}

#[test]
fn test_station_new_unknown_identifier() {
    let r = Station::new(
        "conveyor",
        SourceLocation {
            line: 4,
            col: 2,
            len: 10,
        },
        StationModifiers::default(),
        &builtins(),
    );
    let e = r.err().unwrap();
    assert_eq!(e.t, fabricate::error::ErrorType::IdentifierError);
    assert_eq!(
        e.loc,
        SourceLocation {
            line: 4,
            col: 2,
            len: 10
        }
    );
}

#[test]
fn test_source_location_none() {
    assert_eq!(
        SourceLocation::none(),
        SourceLocation {
            line: 0,
            col: 0,
            len: 0
        }
    );
}

#[test]
fn test_station_new_in_bay() {
    let mut station = Station::new(
        "add",
        SourceLocation::none(),
        StationModifiers::default(),
        &builtins(),
    )
    .unwrap();
    assert_eq!(station.in_bays.len(), 0);
    station.new_in_bay();
    station.new_in_bay();
    assert_eq!(station.in_bays.len(), 2);
    assert!(station.in_bays[0].is_none());
    assert!(station.in_bays[1].is_none());
}

#[test]
fn test_station_new_message_names_identifier() {
    let e = Station::new(
        "conveyor",
        SourceLocation::none(),
        StationModifiers::default(),
        &builtins(),
    )
    .err()
    .unwrap();
    assert_eq!(e.msg, "failed to find a station type with identifier conveyor");
}
