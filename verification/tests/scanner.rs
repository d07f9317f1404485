use k0fiscan::ip::{ips_between, IpAddress};
use k0fiscan::scanner::{classify_probe, truncate_comment, ScanEngine, ScanPair};
use k0fiscan::services::get_services;

fn drain_one(engine: &mut ScanEngine, found: Option<ScanPair>) {
    engine.complete_probe(found);
}

#[test]
fn comment_of_80_chars_is_cut_to_60_plus_ellipsis() {
    let long = vec![b'a'; 80];
    let cut = truncate_comment(&long);
    let mut expected = vec![b'a'; 60];
    expected.extend_from_slice("…".as_bytes());
    assert_eq!(cut, expected);
    assert_eq!(String::from_utf8(cut).unwrap(), format!("{}…", "a".repeat(60)));
}

#[test]
fn short_comment_is_kept_whole() {
    let short = b"plain".to_vec();
    assert_eq!(truncate_comment(&short), short);
}

#[test]
fn cut_comment_drops_trailing_whitespace_before_the_mark() {
    let mut raw = vec![b'b'; 59];
    raw.push(b' ');
    raw.extend_from_slice(&[b'c'; 20]);
    let cut = truncate_comment(&raw);
    let mut expected = vec![b'b'; 59];
    expected.extend_from_slice("…".as_bytes());
    assert_eq!(cut, expected);
}

#[test]
fn connected_probe_is_annotated_from_the_catalog() {
    let cat = get_services(b"http 80/tcp 0.5 # World Wide Web HTTP\n");
    let ip = IpAddress::V4(0x7f000001);
    let r = classify_probe(ip, 80, false, true, &cat).unwrap();
    assert_eq!(r.ip, ip);
    assert_eq!(r.port, 80);
    assert_eq!(r.service_name, b"http".to_vec());
    assert_eq!(r.comment, b"World Wide Web HTTP".to_vec());
}

#[test]
fn connected_probe_on_unknown_port_reports_unknown() {
    let cat = get_services(b"http 80/tcp 0.5\n");
    let r = classify_probe(IpAddress::V4(1), 8080, false, true, &cat).unwrap();
    assert_eq!(r.service_name, b"unknown".to_vec());
    assert_eq!(r.comment, Vec::<u8>::new());
}

#[test]
fn failed_or_cancelled_probe_yields_no_record() {
    let cat = get_services(b"http 80/tcp 0.5\n");
    assert!(classify_probe(IpAddress::V4(1), 80, false, false, &cat).is_none());
    assert!(classify_probe(IpAddress::V4(1), 80, true, true, &cat).is_none());
}

#[test]
fn targets_cover_the_cross_product_once_in_host_major_order() {
    let hosts = vec![IpAddress::V4(1), IpAddress::V4(2)];
    let ports = vec![10u16, 20, 30];
    let mut engine = ScanEngine::new(hosts, ports, 2);
    let mut seen: Vec<(IpAddress, u16)> = Vec::new();
    loop {
        match engine.next_target() {
            Some(t) => {
                assert!(!seen.contains(&t));
                seen.push(t);
                drain_one(&mut engine, None);
            }
            None => break,
        }
    }
    assert_eq!(
        seen,
        vec![
            (IpAddress::V4(1), 10),
            (IpAddress::V4(1), 20),
            (IpAddress::V4(1), 30),
            (IpAddress::V4(2), 10),
            (IpAddress::V4(2), 20),
            (IpAddress::V4(2), 30),
        ]
    );
    assert!(engine.is_done());
    assert_eq!(engine.progress(), 6);
}

#[test]
fn cancellation_before_start_yields_no_targets_and_no_results() {
    let hosts = vec![IpAddress::V4(1), IpAddress::V4(2)];
    let ports = vec![10u16, 20];
    let mut engine = ScanEngine::new(hosts, ports, 4);
    engine.cancel();
    assert!(engine.is_cancelled());
    assert!(engine.next_target().is_none());
    assert!(engine.next_target().is_none());
    assert_eq!(engine.progress(), 0);
    assert_eq!(engine.into_results().len(), 0);
}

#[test]
fn cancellation_stops_new_targets_mid_scan() {
    let hosts = vec![IpAddress::V4(1)];
    let ports = vec![1u16, 2, 3, 4];
    let mut engine = ScanEngine::new(hosts, ports, 2);
    assert!(engine.next_target().is_some());
    engine.cancel();
    assert!(engine.next_target().is_none());
    drain_one(&mut engine, None);
    assert!(engine.next_target().is_none());
}

#[test]
fn at_most_five_probes_in_flight_over_a_hundred_targets() {
    let hosts: Vec<IpAddress> = (1u32..=10).map(IpAddress::V4).collect();
    let ports: Vec<u16> = (1u16..=10).collect();
    let mut engine = ScanEngine::new(hosts, ports, 5);
    let mut active: usize = 0;
    let mut peak: usize = 0;
    let mut done: usize = 0;
    while done < 100 {
        while engine.next_target().is_some() {
            active += 1;
            if active > peak {
                peak = active;
            }
        }
        assert!(active <= 5);
        drain_one(&mut engine, None);
        active -= 1;
        done += 1;
    }
    assert!(engine.is_done());
    assert_eq!(peak, 5);
    assert_eq!(engine.progress(), 100);
}

#[test]
fn results_arrive_in_completion_order() {
    let cat = get_services(b"http 80/tcp 0.5\nssh 22/tcp 0.8\n");
    let hosts = vec![IpAddress::V4(9)];
    let ports = vec![22u16, 80];
    let mut engine = ScanEngine::new(hosts, ports, 2);
    let t1 = engine.next_target().unwrap();
    let t2 = engine.next_target().unwrap();
    // the later-issued target completes first
    let r2 = classify_probe(t2.0, t2.1, false, true, &cat);
    engine.complete_probe(r2);
    let r1 = classify_probe(t1.0, t1.1, false, true, &cat);
    engine.complete_probe(r1);
    let results = engine.into_results();
    assert_eq!(results.len(), 2);
    assert_eq!(results[0].port, 80);
    assert_eq!(results[1].port, 22);
}

#[test]
fn ips_between_v4_is_the_inclusive_range() {
    let r = ips_between(IpAddress::V4(5), IpAddress::V4(8));
    assert_eq!(
        r,
        vec![IpAddress::V4(5), IpAddress::V4(6), IpAddress::V4(7), IpAddress::V4(8)]
    );
}

#[test]
fn ips_between_descending_or_mixed_is_empty() {
    assert_eq!(ips_between(IpAddress::V4(8), IpAddress::V4(5)), Vec::new());
    assert_eq!(ips_between(IpAddress::V4(1), IpAddress::V6(9)), Vec::new());
}

#[test]
fn ips_between_v6_single_address() {
    assert_eq!(ips_between(IpAddress::V6(7), IpAddress::V6(7)), vec![IpAddress::V6(7)]);
}
