use k0fiscan::services::get_services;

#[test]
fn parses_name_port_probability_and_comment() {
    let cat = get_services(b"http 80/tcp 0.484143 # World Wide Web HTTP\n");
    let e = cat.lookup(80).unwrap();
    assert_eq!(e.name, b"http".to_vec());
    assert_eq!(e.comment, b"World Wide Web HTTP".to_vec());
    assert_eq!(e.prb, 484143);
}

#[test]
fn probability_is_stored_in_millionths() {
    let cat = get_services(b"a 1/tcp 0.5\nb 2/tcp 1\nc 3/tcp 0\nd 4/tcp 0.000001\n");
    assert_eq!(cat.lookup(1).unwrap().prb, 500000);
    assert_eq!(cat.lookup(2).unwrap().prb, 1000000);
    assert_eq!(cat.lookup(3).unwrap().prb, 0);
    assert_eq!(cat.lookup(4).unwrap().prb, 1);
}

#[test]
fn skips_blank_and_comment_lines() {
    let cat = get_services(b"\n   \n# a comment line\nhttp 80/tcp 0.5\n");
    assert_eq!(cat.len(), 1);
    assert!(cat.lookup(80).is_some());
}

#[test]
fn keeps_only_tcp_rows() {
    let cat = get_services(b"dns 53/udp 0.9\ndns 53/tcp 0.1\nntp 123/udp 0.8\n");
    assert_eq!(cat.len(), 1);
    assert_eq!(cat.lookup(53).unwrap().prb, 100000);
    assert!(cat.lookup(123).is_none());
}

#[test]
fn last_tcp_row_for_a_port_wins() {
    let cat = get_services(b"old 80/tcp 0.1\nnew 80/tcp 0.9\n");
    assert_eq!(cat.len(), 1);
    let e = cat.lookup(80).unwrap();
    assert_eq!(e.name, b"new".to_vec());
    assert_eq!(e.prb, 900000);
}

#[test]
fn malformed_rows_are_skipped_not_fatal() {
    let raw = b"missingfields 80/tcp\nnoproto 80 0.5\nbadport 99999/tcp 0.5\n\
badprb 81/tcp x.y\nok 82/tcp 0.5\n";
    let cat = get_services(raw);
    assert_eq!(cat.len(), 1);
    assert!(cat.lookup(82).is_some());
    assert!(cat.lookup(80).is_none());
    assert!(cat.lookup(81).is_none());
}

#[test]
fn missing_comment_column_gives_empty_comment() {
    let cat = get_services(b"http 80/tcp 0.5\n");
    assert_eq!(cat.lookup(80).unwrap().comment, Vec::<u8>::new());
}

#[test]
fn comment_extra_hash_marks_are_stripped(){
    let cat = get_services(b"http 80/tcp 0.5 ## doubled mark\n");
    assert_eq!(cat.lookup(80).unwrap().comment, b"doubled mark".to_vec());
}

#[test]
fn lookup_of_absent_port_is_none() {
    let cat = get_services(b"http 80/tcp 0.5\n");
    assert!(cat.lookup(8080).is_none());
}

#[test]
fn empty_input_gives_empty_catalog() {
    let cat = get_services(b"");
    assert_eq!(cat.len(), 0);
}

#[test]
fn windows_line_ends_are_tolerated() {
    let cat = get_services(b"http 80/tcp 0.5\r\nssh 22/tcp 0.8\r\n");
    assert_eq!(cat.len(), 2);
    assert_eq!(cat.lookup(22).unwrap().name, b"ssh".to_vec());
}
