use mc_server_scanner::packets::DecodeError;
use mc_server_scanner::server_scanner::IpAddress;
use mc_server_scanner::server_scanner::ListeningEndpoint;
use mc_server_scanner::server_scanner::ProbeError;
use mc_server_scanner::server_scanner::ProbeOutcome;
use mc_server_scanner::server_scanner::SocketState;
use mc_server_scanner::server_scanner::SocketTableEntry;
use mc_server_scanner::server_scanner::collect_scan_results;
use mc_server_scanner::server_scanner::filter_listening_endpoints;
use mc_server_scanner::server_scanner::is_minecraft_response;

fn frame_bytes(text: &str) -> Vec<u8> {
    let units: Vec<u16> = text.encode_utf16().collect();
    let mut buf = vec![0xFFu8, (units.len() >> 8) as u8, (units.len() & 0xFF) as u8];
    for u in units {
        buf.push((u >> 8) as u8);
        buf.push((u & 0xFF) as u8);
    }
    buf
}

fn valid_reply(motd: &str) -> Vec<u8> {
    frame_bytes(&format!("id\u{0}47\u{0}1.4.2\u{0}{}\u{0}1\u{0}20", motd))
}

#[test]
fn only_listening_tcp_rows_become_endpoints() {
    let local = IpAddress::V4(127, 0, 0, 1);
    let entries = vec![
        SocketTableEntry { address: local, port: 25565, state: SocketState::TcpListen },
        SocketTableEntry { address: local, port: 40000, state: SocketState::TcpOther },
        SocketTableEntry { address: local, port: 53, state: SocketState::NotTcp },
        SocketTableEntry {
            address: IpAddress::V6(0, 0, 0, 0, 0, 0, 0, 1),
            port: 8080,
            state: SocketState::TcpListen,
        },
    ];
    let endpoints = filter_listening_endpoints(&entries);
    assert_eq!(
        endpoints,
        vec![
            ListeningEndpoint { address: local, port: 25565 },
            ListeningEndpoint { address: IpAddress::V6(0, 0, 0, 0, 0, 0, 0, 1), port: 8080 },
        ]
    );
}

#[test]
fn a_scan_with_no_candidates_finds_nothing() {
    let results = collect_scan_results(&vec![]);
    assert!(results.is_empty());
}

#[test]
fn a_scan_keeps_exactly_the_probes_whose_bytes_decode() {
    let outcomes = vec![
        ProbeOutcome { port: 25565, response: Ok(valid_reply("alpha")) },
        ProbeOutcome { port: 8080, response: Err(ProbeError::TimeoutError) },
        ProbeOutcome { port: 3000, response: Ok(b"HTTP/1.1 400 Bad Request".to_vec()) },
        ProbeOutcome { port: 25566, response: Ok(valid_reply("beta")) },
        ProbeOutcome { port: 22, response: Err(ProbeError::ConnectError) },
    ];
    let results = collect_scan_results(&outcomes);
    assert_eq!(results.len(), 2);
    assert_eq!(results[0].0.motd, "alpha");
    assert_eq!(results[0].1, 25565);
    assert_eq!(results[1].0.motd, "beta");
    assert_eq!(results[1].1, 25566);
}

#[test]
fn the_number_found_does_not_depend_on_probe_order() {
    let forward = vec![
        ProbeOutcome { port: 1, response: Ok(valid_reply("a")) },
        ProbeOutcome { port: 2, response: Err(ProbeError::TimeoutError) },
        ProbeOutcome { port: 3, response: Ok(valid_reply("b")) },
    ];
    let backward = vec![
        ProbeOutcome { port: 3, response: Ok(valid_reply("b")) },
        ProbeOutcome { port: 2, response: Err(ProbeError::TimeoutError) },
        ProbeOutcome { port: 1, response: Ok(valid_reply("a")) },
    ];
    assert_eq!(
        collect_scan_results(&forward).len(),
        collect_scan_results(&backward).len()
    );
}

#[test]
fn probing_garbage_is_rejected_without_a_panic() {
    assert_eq!(
        is_minecraft_response(&[]).unwrap_err(),
        DecodeError::EmptyBuffer
    );
    assert!(is_minecraft_response(&[0u8; 1024]).is_err());
    let resp = is_minecraft_response(&valid_reply("ok")).unwrap();
    assert_eq!(resp.motd, "ok");
}
