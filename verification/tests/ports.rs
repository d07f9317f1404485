use k0fiscan::ports::{get_top_ports, parse_port};
use k0fiscan::services::get_services;

#[test]
fn ok_range() {
    assert_eq!(parse_port("80:2000"), Ok((80..=2000).collect()));
}

#[test]
fn wrong_delimiter() {
    assert!(parse_port("80-2000").is_err());
}

#[test]
fn non_numeric() {
    assert!(parse_port("abc:80").is_err());
}

#[test]
fn start_gt_end() {
    assert!(parse_port("2000:80").is_err());
}

#[test]
fn port_zero() {
    assert!(parse_port("0:10").is_err());
}

#[test]
fn small_range_exact() {
    assert_eq!(parse_port("1:3"), Ok(vec![1u16, 2, 3]));
}

#[test]
fn full_range_ends_at_max_port() {
    let v = parse_port("65534:65535").unwrap();
    assert_eq!(v, vec![65534u16, 65535]);
}

#[test]
fn error_messages_name_the_defect() {
    assert_eq!(
        parse_port("80-2000").unwrap_err(),
        "port_range should be <start:end>"
    );
    assert_eq!(parse_port("abc:80").unwrap_err(), "start is not a port number");
    assert_eq!(parse_port("80:abc").unwrap_err(), "end is not a port number");
    assert_eq!(parse_port("80:").unwrap_err(), "end is not a port number");
    assert_eq!(parse_port("70000:80").unwrap_err(), "start is not a port number");
    assert_eq!(parse_port("0:10").unwrap_err(), "port 0 not valid");
    assert_eq!(parse_port("10:0").unwrap_err(), "port 0 not valid");
    assert_eq!(
        parse_port("5:5").unwrap_err(),
        "start_port should be less than end_port"
    );
    assert_eq!(
        parse_port("2000:80").unwrap_err(),
        "start_port should be less than end_port"
    );
}

#[test]
fn top_ports_of_three_at_34_percent() {
    let cat = get_services(b"http 80/tcp 0.5\nhttps 443/tcp 0.3\nssh 22/tcp 0.8\n");
    assert_eq!(get_top_ports(&cat, 34), vec![22u16]);
}

#[test]
fn top_ports_zero_percent_is_empty() {
    let cat = get_services(b"http 80/tcp 0.5\nhttps 443/tcp 0.3\nssh 22/tcp 0.8\n");
    assert_eq!(get_top_ports(&cat, 0), Vec::<u16>::new());
}

#[test]
fn top_ports_hundred_percent_is_whole_ranking() {
    let cat = get_services(b"http 80/tcp 0.5\nhttps 443/tcp 0.3\nssh 22/tcp 0.8\n");
    assert_eq!(get_top_ports(&cat, 100), vec![22u16, 80, 443]);
}

#[test]
fn top_ports_smaller_percent_is_prefix() {
    let cat = get_services(
        b"a 1/tcp 0.9\nb 2/tcp 0.8\nc 3/tcp 0.7\nd 4/tcp 0.6\ne 5/tcp 0.5\n",
    );
    let p34 = get_top_ports(&cat, 34);
    let p67 = get_top_ports(&cat, 67);
    let p100 = get_top_ports(&cat, 100);
    assert_eq!(p34, p67[..p34.len()].to_vec());
    assert_eq!(p67, p100[..p67.len()].to_vec());
    assert_eq!(p34, vec![1u16]);
    assert_eq!(p67, vec![1u16, 2, 3]);
}

#[test]
fn top_ports_equal_probabilities_break_toward_lower_port() {
    let cat = get_services(b"x 300/tcp 0.5\ny 100/tcp 0.5\nz 200/tcp 0.5\n");
    assert_eq!(get_top_ports(&cat, 100), vec![100u16, 200, 300]);
}
