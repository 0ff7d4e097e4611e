use fabricate::linker::get_neighbors;
use fabricate::station::{
    Direction, SourceLocation, Station, StationKind, StationModifiers, StationType,
};

fn placed(line: usize, col: usize, len: usize, modifiers: StationModifiers) -> Station {
    Station {
        loc: SourceLocation { line, col, len },
        logic: StationType {
            id: String::from("joint"),
            inputs: 1,
            kind: StationKind::Joint,
            is_entry: false,
            is_terminal: false,
        },
        modifiers,
        in_bays: vec![],
        out_bays: vec![],
    }
}

#[test]
fn test_get_neighbors() {
    let map = vec![
        vec![' ', ' ', ' ', ' '],
        vec![' ', '[', ']', ' '],
        vec![' ', ' ', ' ', ' '],
    ];
    let station = placed(1, 1, 2, StationModifiers::default());
    assert_eq!(
        get_neighbors(&map, &station),
        vec![
            (0, 1, Direction::NORTH),
            (0, 2, Direction::NORTH),
            (1, 3, Direction::EAST),
            (2, 2, Direction::SOUTH),
            (2, 1, Direction::SOUTH),
            (1, 0, Direction::WEST),
        ]
    )
}

#[test]
fn test_get_neighbors_on_border() {
    let map = vec![vec![' ', '[', ']', ' ']];
    let mut station = placed(0, 1, 2, StationModifiers::default());
    assert_eq!(
        get_neighbors(&map, &station),
        vec![(0, 3, Direction::EAST), (0, 0, Direction::WEST),]
    );
    let map = vec![vec![' ', ' '], vec!['[', ']'], vec![' ', ' ']];
    station.loc = SourceLocation {
        line: 1,
        col: 0,
        len: 2,
    };
    assert_eq!(
        get_neighbors(&map, &station),
        vec![
            (0, 0, Direction::NORTH),
            (0, 1, Direction::NORTH),
            (2, 1, Direction::SOUTH),
            (2, 0, Direction::SOUTH),
        ]
    );
}

#[test]
fn test_get_neighbors_none() {
    let map = vec![vec!['[', ']']];
    let station = placed(0, 0, 2, StationModifiers::default());
    assert_eq!(get_neighbors(&map, &station), vec![])
}

#[test]
fn test_get_neighbors_reversed() {
    let map = vec![
        vec![' ', ' ', ' ', ' '],
        vec![' ', '[', ']', ' '],
        vec![' ', ' ', ' ', ' '],
    ];
    let mut station = placed(1, 1, 2, StationModifiers::default().reverse());
    assert_eq!(
        get_neighbors(&map, &station),
        vec![
            (0, 2, Direction::NORTH),
            (0, 1, Direction::NORTH),
            (1, 0, Direction::WEST),
            (2, 1, Direction::SOUTH),
            (2, 2, Direction::SOUTH),
            (1, 3, Direction::EAST),
        ]
    );
    station.modifiers = station.modifiers.with_priority(Direction::EAST);
    assert_eq!(
        get_neighbors(&map, &station),
        vec![
            (1, 3, Direction::EAST),
            (0, 2, Direction::NORTH),
            (0, 1, Direction::NORTH),
            (1, 0, Direction::WEST),
            (2, 1, Direction::SOUTH),
            (2, 2, Direction::SOUTH),
        ]
    );
    station.modifiers = station.modifiers.with_priority(Direction::SOUTH);
    assert_eq!(
        get_neighbors(&map, &station),
        vec![
            (2, 1, Direction::SOUTH),
            (2, 2, Direction::SOUTH),
            (1, 3, Direction::EAST),
            (0, 2, Direction::NORTH),
            (0, 1, Direction::NORTH),
            (1, 0, Direction::WEST),
        ]
    );
    station.modifiers = station.modifiers.with_priority(Direction::WEST);
    assert_eq!(
        get_neighbors(&map, &station),
        vec![
            (1, 0, Direction::WEST),
            (2, 1, Direction::SOUTH),
            (2, 2, Direction::SOUTH),
            (1, 3, Direction::EAST),
            (0, 2, Direction::NORTH),
            (0, 1, Direction::NORTH),
        ]
    );
}

#[test]
fn test_get_neighbors_with_direction() {
    let map = vec![
        vec![' ', ' ', ' ', ' '],
        vec![' ', '[', ']', ' '],
        vec![' ', ' ', ' ', ' '],
    ];
    let mut station = placed(1, 1, 2, StationModifiers::default().with_priority(Direction::EAST));
    assert_eq!(
        get_neighbors(&map, &station),
        vec![
            (1, 3, Direction::EAST),
            (2, 2, Direction::SOUTH),
            (2, 1, Direction::SOUTH),
            (1, 0, Direction::WEST),
            (0, 1, Direction::NORTH),
            (0, 2, Direction::NORTH),
        ]
    );
    station.modifiers = station.modifiers.with_priority(Direction::SOUTH);
    assert_eq!(
        get_neighbors(&map, &station),
        vec![
            (2, 2, Direction::SOUTH),
            (2, 1, Direction::SOUTH),
            (1, 0, Direction::WEST),
            (0, 1, Direction::NORTH),
            (0, 2, Direction::NORTH),
            (1, 3, Direction::EAST),
        ]
    );
    station.modifiers = station.modifiers.with_priority(Direction::WEST);
    assert_eq!(
        get_neighbors(&map, &station),
        vec![
            (1, 0, Direction::WEST),
            (0, 1, Direction::NORTH),
            (0, 2, Direction::NORTH),
            (1, 3, Direction::EAST),
            (2, 2, Direction::SOUTH),
            (2, 1, Direction::SOUTH),
        ]
    );
}
