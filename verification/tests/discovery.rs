use fabricate::builtins::builtins;
use fabricate::error::ErrorType;
use fabricate::preprocessor::{discover_stations, get_char_index_from_byte_offset, split_lines};
use fabricate::station::SourceLocation;

#[test]
fn test_discover_stations() {
    let lines: Vec<&str> = vec!["[start]"];
    let (stations, start_i) = discover_stations(&lines, &builtins()).ok().unwrap();
    assert_eq!(start_i, 0);
    let station = &stations[0];
    assert_eq!(
        station.loc,
        SourceLocation {
            line: 0,
            col: 0,
            len: 7
        }
    );
}

#[test]
fn test_discover_stations_four() {
    let lines: Vec<&str> = vec!["[exit][exit]", "[start][exit]"];
    let (stations, start_i) = discover_stations(&lines, &builtins()).ok().unwrap();
    assert_eq!(start_i, 2);
    assert_eq!(stations.len(), 4);
}

#[test]
fn test_discover_stations_five() {
    let lines: Vec<&str> = vec![
        "[start]                                               [exit]",
        "                         [exit]                             ",
        "[exit]                                                [exit]",
    ];
    let stations = discover_stations(&lines, &builtins());
    assert_eq!(stations.ok().unwrap().0.len(), 5);
}

#[test]
fn test_discover_stations_none() {
    let lines: Vec<&str> = vec![""];
    let stations = discover_stations(&lines, &builtins());
    assert!(stations.is_err());
}

#[test]
fn test_discover_stations_two_starts() {
    let lines: Vec<&str> = vec!["[start] [start]"];
    let stations = discover_stations(&lines, &builtins());
    assert!(stations.is_err());
}

#[test]
fn test_discover_stations_multibyte_column() {
    let lines: Vec<&str> = vec!["😼😼😼[start]"];
    let (stations, start_i) = discover_stations(&lines, &builtins()).ok().unwrap();
    assert_eq!(start_i, 0);
    assert_eq!(
        stations[0].loc,
        SourceLocation {
            line: 0,
            col: 3,
            len: 7
        }
    );
}

#[test]
fn test_discover_unclosed_marker() {
    let lines: Vec<&str> = vec!["[start]", "  [exit"];
    let e = discover_stations(&lines, &builtins()).err().unwrap();
    assert_eq!(e.t, ErrorType::StructuralError);
    assert_eq!(
        e.loc,
        SourceLocation {
            line: 1,
            col: 2,
            len: 1
        }
    );
}

#[test]
fn test_discover_unknown_identifier() {
    let lines: Vec<&str> = vec!["[start][conveyor]"];
    let e = discover_stations(&lines, &builtins()).err().unwrap();
    assert_eq!(e.t, ErrorType::IdentifierError);
    assert_eq!(
        e.loc,
        SourceLocation {
            line: 0,
            col: 7,
            len: 10
        }
    );
}

#[test]
fn test_get_char_index_from_byte_offset() {
    let s = "😼abcd";
    assert_eq!(get_char_index_from_byte_offset(4, s), 1);
    assert_eq!(get_char_index_from_byte_offset(6, s), 3);
}

#[test]
fn test_get_char_index_from_byte_offset_no_unicode() {
    let s = "abcd";
    assert_eq!(get_char_index_from_byte_offset(2, s), 2);
}

#[test]
fn test_get_char_index_from_byte_offset_multiple_unicode() {
    let s = "😻a😼b😾c";
    assert_eq!(get_char_index_from_byte_offset(14, s), 5);
}

#[test]
fn test_split_lines_keeps_line_content() {
    let pieces = split_lines("[start]\n[exit]\n");
    assert_eq!(pieces.len(), 3);
    assert_eq!(pieces[0], "[start]");
    assert_eq!(pieces[1], "[exit]");
    assert_eq!(pieces[2], "");
}

#[test]
fn test_discover_two_starts_reports_second() {
    let lines: Vec<&str> = vec!["[start] [start]"];
    let e = discover_stations(&lines, &builtins()).err().unwrap();
    assert_eq!(e.t, ErrorType::StructuralError);
    assert_eq!(
        e.loc,
        SourceLocation {
            line: 0,
            col: 8,
            len: 7
        }
    );
}
