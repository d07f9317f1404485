//! The two-port scan scenario: one port accepts the connection, one does
//! not, and exactly the accepting port is reported. The TCP connect itself
//! is the caller's I/O; here its two outcomes are supplied directly.

use k0fiscan::ip::IpAddress;
use k0fiscan::scanner::{classify_probe, ScanEngine};
use k0fiscan::services::get_services;

#[test]
fn scan_reports_only_the_listening_port() {
    let open_port: u16 = 4000;
    let closed_port: u16 = 4001;
    let catalog = get_services(b"");
    let host = IpAddress::V4(0x7f000001);
    let mut engine = ScanEngine::new(vec![host], vec![open_port, closed_port], 2);
    while let Some((ip, port)) = engine.next_target() {
        // a probe of the open port connects within the deadline; the other
        // is refused or times out, which the scan does not distinguish
        let connected = port == open_port;
        let record = classify_probe(ip, port, false, connected, &catalog);
        engine.complete_probe(record);
    }
    assert!(engine.is_done());
    assert_eq!(engine.progress(), 2);
    let results = engine.into_results();
    assert_eq!(results.len(), 1);
    assert_eq!(results[0].port, open_port);
    assert_eq!(results[0].service_name, b"unknown".to_vec());
}
