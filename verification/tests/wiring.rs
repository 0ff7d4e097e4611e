use fabricate::builtins::builtins;
use fabricate::preprocessor::process;

#[test]
fn test_process_wires_adjacent_stations() {
    let lines: Vec<&str> = vec!["[start][exit]"];
    let (stations, start_i) = process(&lines, &builtins()).ok().unwrap();
    assert_eq!(start_i, 0);
    assert_eq!(stations.len(), 2);
    // The entry's eastward link plugs into the exit's first input bay.
    assert_eq!(stations[0].out_bays, vec![(1, 0)]);
    // The exit's westward link plugs into the entry's first input bay.
    assert_eq!(stations[1].out_bays, vec![(0, 0)]);
    assert_eq!(stations[0].in_bays.len(), 1);
    assert_eq!(stations[1].in_bays.len(), 1);
    assert!(stations[0].in_bays[0].is_none());
    assert!(stations[1].in_bays[0].is_none());
}

#[test]
fn test_process_links_across_blank_cells() {
    let lines: Vec<&str> = vec!["[start]    [exit]"];
    let (stations, _) = process(&lines, &builtins()).ok().unwrap();
    assert_eq!(stations[0].out_bays, vec![(1, 0)]);
}

#[test]
fn test_process_isolated_station_unwired() {
    let lines: Vec<&str> = vec!["[start]"];
    let (stations, start_i) = process(&lines, &builtins()).ok().unwrap();
    assert_eq!(start_i, 0);
    assert!(stations[0].out_bays.is_empty());
    assert!(stations[0].in_bays.is_empty());
}

#[test]
fn test_process_rejects_what_discovery_rejects() {
    let lines: Vec<&str> = vec!["[exit]"];
    assert!(process(&lines, &builtins()).is_err());
}
