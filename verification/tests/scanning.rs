use veloscan::report::{live_hosts, scan_plan, scan_summary, sort_results_by_port, ScanPlan};
use veloscan::scanner::{
    banner_after_greeting, banner_from_reply, discovery_port, discovery_step, grabs_banner, sanitize_text,
    status_line, tcp_probe_result, udp_bind_address, udp_probe_result, BannerStep, DiscoveryStep,
    UdpOutcome, PROBE_TIMEOUT_MS,
};
use veloscan::{sanitize_banner, HostInfo, IpAddress, PortState, Protocol, ScanResult};

const A: IpAddress = IpAddress::V4(0x0a00_0001);
const B: IpAddress = IpAddress::V4(0x0a00_0002);

fn open(ip: IpAddress, port: u16, banner: &str) -> ScanResult {
    ScanResult { ip, port, protocol: Protocol::Tcp, state: PortState::Open, banner: Some(banner.to_string()) }
}

#[test]
fn banners_are_sanitized() {
    assert_eq!(sanitize_banner(b"  SSH-2.0-OpenSSH_9.6\r\n"), "SSH-2.0-OpenSSH_9.6");
    assert_eq!(sanitize_banner(b"220 a\r\nb"), "220 a  b");
    assert_eq!(sanitize_banner(b"a\x01b\x7f"), "ab");
    assert_eq!(sanitize_banner(&[0xff, b'A']), "\u{FFFD}A");
    assert_eq!(sanitize_banner(b" \t\n"), "");
    assert_eq!(sanitize_text("\x01 x "), " x");
}

#[test]
fn greetings_decide_the_banner() {
    match banner_after_greeting(22, b"SSH-2.0-x\r\n") {
        BannerStep::Finish(Some(s)) => assert_eq!(s, "SSH-2.0-x"),
        other => panic!("unexpected {:?}", other),
    }
    match banner_after_greeting(80, b"") {
        BannerStep::Probe { request, timeout_ms } => {
            assert_eq!(request, "GET / HTTP/1.1\r\nHost: localhost\r\nConnection: close\r\n\r\n");
            assert_eq!(timeout_ms, PROBE_TIMEOUT_MS);
        }
        other => panic!("unexpected {:?}", other),
    }
    assert!(matches!(banner_after_greeting(6379, b""), BannerStep::Probe { request: "PING\r\n", .. }));
    assert!(matches!(banner_after_greeting(3306, b""), BannerStep::Finish(Some(s)) if s == "MySQL"));
    assert!(matches!(banner_after_greeting(5432, b""), BannerStep::Finish(Some(s)) if s == "PostgreSQL"));
    assert!(matches!(banner_after_greeting(1234, b""), BannerStep::Finish(None)));
}

#[test]
fn replies_decide_the_banner() {
    assert_eq!(banner_from_reply(8080, b"HTTP/1.1 200 OK\r\nServer: x\r\n\r\n"), Some("HTTP/1.1 200 OK".to_string()));
    assert_eq!(banner_from_reply(80, b"no newline\r"), Some("no newline\r".to_string()));
    assert_eq!(banner_from_reply(80, b"\n"), Some(String::new()));
    assert_eq!(banner_from_reply(80, b""), None);
    assert_eq!(banner_from_reply(6379, b"+PONG\r\n"), Some("Redis".to_string()));
    assert_eq!(banner_from_reply(6379, b"-ERR auth\r\n"), None);
    assert_eq!(banner_from_reply(22, b"anything"), None);
    assert_eq!(status_line(""), None);
}

#[test]
fn discovery_stops_at_the_first_open_port() {
    assert_eq!(discovery_port(0), Some(80));
    assert_eq!(discovery_port(8), Some(5354));
    assert_eq!(discovery_port(9), None);
    assert_eq!(discovery_step(A, 0, false), DiscoveryStep::Probe(80));
    assert_eq!(discovery_step(A, 1, false), DiscoveryStep::Probe(443));
    assert_eq!(discovery_step(A, 2, true), DiscoveryStep::Report(HostInfo { ip: A, is_up: true }));
    assert_eq!(discovery_step(A, 9, false), DiscoveryStep::Report(HostInfo { ip: A, is_up: false }));
    // Running the machine with the third port open.
    let outcomes = [false, false, true, false, false, false, false, false, false];
    let (mut tried, mut last, mut probed) = (0usize, false, Vec::new());
    let info = loop {
        match discovery_step(B, tried, last) {
            DiscoveryStep::Probe(p) => {
                probed.push(p);
                last = outcomes[tried];
                tried += 1;
            }
            DiscoveryStep::Report(info) => break info,
        }
    };
    assert_eq!(probed, vec![80, 443, 22]);
    assert!(info.is_up);
}

#[test]
fn probe_outcomes_become_results() {
    let r = tcp_probe_result(A, 22, true, Some("ssh".to_string())).unwrap();
    assert_eq!((r.ip, r.port, r.protocol, r.state), (A, 22, Protocol::Tcp, PortState::Open));
    assert_eq!(r.banner, Some("ssh".to_string()));
    assert!(tcp_probe_result(A, 22, false, None).is_none());
    let u = udp_probe_result(A, 53, UdpOutcome::Reply).unwrap();
    assert_eq!((u.protocol, u.state, u.banner), (Protocol::Udp, PortState::Open, None));
    let u = udp_probe_result(A, 53, UdpOutcome::TimedOut).unwrap();
    assert_eq!(u.state, PortState::OpenOrFiltered);
    assert!(udp_probe_result(A, 53, UdpOutcome::ReceiveError).is_none());
    assert!(udp_probe_result(A, 53, UdpOutcome::NoSocket).is_none());
    assert_eq!(udp_bind_address(&A), "0.0.0.0:0");
    assert_eq!(udp_bind_address(&IpAddress::V6(1)), "[::]:0");
}

#[test]
fn live_hosts_and_plan() {
    let infos = vec![HostInfo { ip: B, is_up: true }, HostInfo { ip: A, is_up: false }, HostInfo { ip: A, is_up: true }];
    assert_eq!(live_hosts(&infos), vec![B, A]);
    assert_eq!(scan_plan(false, 0), ScanPlan { tcp: true, udp: false });
    assert_eq!(scan_plan(true, 0), ScanPlan { tcp: false, udp: true });
    assert_eq!(scan_plan(true, 3), ScanPlan { tcp: true, udp: true });
}

#[test]
fn summary_groups_and_sorts_stably() {
    let results = vec![open(A, 443, "x"), open(B, 22, "b"), open(A, 22, "first"), open(A, 22, "second")];
    let sorted = sort_results_by_port(&results);
    let keys: Vec<(u16, Option<String>)> = sorted.iter().map(|r| (r.port, r.banner.clone())).collect();
    assert_eq!(keys[0], (22, Some("b".to_string())));
    assert_eq!(keys[3], (443, Some("x".to_string())));
    let summary = scan_summary(&vec![A, IpAddress::V4(9), B, A], &results);
    assert_eq!(summary.len(), 4);
    let a: Vec<Option<String>> = summary[0].results.as_ref().unwrap().iter().map(|r| r.banner.clone()).collect();
    assert_eq!(a, vec![Some("first".to_string()), Some("second".to_string()), Some("x".to_string())]);
    assert!(summary[1].results.is_none());
    assert_eq!(summary[2].results.as_ref().unwrap().len(), 1);
    assert_eq!(summary[3].ip, A);
    assert!(summary[3].results.is_none());
}

#[test]
fn banners_are_grabbed_only_when_asked_and_connected() {
    assert!(grabs_banner(true, true));
    assert!(!grabs_banner(true, false));
    assert!(!grabs_banner(false, true));
}

#[test]
fn nonempty_http_replies_always_give_a_banner() {
    assert_eq!(banner_from_reply(443, &[0xff]), Some("\u{FFFD}".to_string()));
    assert_eq!(banner_from_reply(3000, b"\r\n"), Some(String::new()));
    assert!(sanitize_banner(b"\xe2\x82\xac ok").chars().count() <= 6);
    assert_eq!(sanitize_banner("€ ok".as_bytes()), "€ ok");
}
