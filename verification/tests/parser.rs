use veloscan::text::comma_list_items;
use veloscan::{
    parse_network, parse_port_spec, parse_target_list, parse_targets, select_ports,
    target_names, top_ports, IntErrorKind, IpAddress, IpNetwork, PortSpecError, Target,
    TargetError, collect_targets, exclude_targets,
};

fn v4(a: u8, b: u8, c: u8, d: u8) -> IpAddress {
    IpAddress::V4(u32::from_be_bytes([a, b, c, d]))
}

#[test]
fn test_parse_targets() {
    let ips = parse_targets("192.168.1.1", &vec![vec![v4(192, 168, 1, 1)]]).unwrap();
    assert_eq!(ips.len(), 1);

    let ips = parse_targets("192.168.1.0/30", &vec![]).unwrap();
    assert_eq!(ips.len(), 2);

    let ips = parse_targets("192.168.1.1/32", &vec![]).unwrap();
    assert_eq!(ips.len(), 1);
}

#[test]
fn test_parse_ports() {
    let ports = parse_port_spec("22,80-82,443").unwrap();
    assert_eq!(ports, vec![22, 80, 81, 82, 443]);
}

#[test]
fn list_items_are_split_trimmed_and_nonempty() {
    let items = comma_list_items(" a, ,b ,, c d ,");
    let texts: Vec<String> = items.iter().map(|v| v.iter().collect()).collect();
    assert_eq!(texts, vec!["a".to_string(), "b".to_string(), "c d".to_string()]);
    assert!(comma_list_items("").is_empty());
    let tabs = comma_list_items("\t x \u{3000}");
    assert_eq!(tabs, vec![vec!['x']]);
}

#[test]
fn ports_are_sorted_and_deduplicated() {
    assert_eq!(parse_port_spec(" 443 , 22,22, 21 ").unwrap(), vec![21, 22, 443]);
    assert_eq!(parse_port_spec("3-5,1-4").unwrap(), vec![1, 2, 3, 4, 5]);
    assert_eq!(parse_port_spec("8 - 10").unwrap(), vec![8, 9, 10]);
    assert_eq!(parse_port_spec("+7").unwrap(), vec![7]);
    assert_eq!(parse_port_spec("65535").unwrap(), vec![65535]);
    assert_eq!(parse_port_spec("").unwrap(), Vec::<u16>::new());
    assert_eq!(parse_port_spec(" , ,").unwrap(), Vec::<u16>::new());
    assert_eq!(parse_port_spec("1-1024").unwrap(), (1..=1024).collect::<Vec<u16>>());
}

#[test]
fn the_same_ports_in_any_order_give_the_same_list() {
    assert_eq!(parse_port_spec("80,22,443").unwrap(), parse_port_spec("443,22-22,80,80").unwrap());
}

#[test]
fn bad_port_numbers_are_refused() {
    assert!(matches!(parse_port_spec("80,abc"), Err(PortSpecError::InvalidPort(IntErrorKind::InvalidDigit))));
    assert!(matches!(parse_port_spec("70000"), Err(PortSpecError::InvalidPort(IntErrorKind::PosOverflow))));
    assert!(matches!(parse_port_spec("99999x"), Err(PortSpecError::InvalidPort(IntErrorKind::PosOverflow))));
    assert!(matches!(parse_port_spec("5-"), Err(PortSpecError::InvalidPort(IntErrorKind::Empty))));
    assert!(matches!(parse_port_spec("-5"), Err(PortSpecError::InvalidPort(IntErrorKind::Empty))));
    assert!(matches!(parse_port_spec("1-2-3"), Err(PortSpecError::InvalidPort(IntErrorKind::InvalidDigit))));
    assert!(matches!(parse_port_spec("+"), Err(PortSpecError::InvalidPort(IntErrorKind::InvalidDigit))));
    assert!(matches!(parse_port_spec("1 2"), Err(PortSpecError::InvalidPort(IntErrorKind::InvalidDigit))));
}

#[test]
fn reversed_ranges_are_refused() {
    match parse_port_spec("22, 90-80 ,443") {
        Err(PortSpecError::InvalidRange(item)) => assert_eq!(item, "90-80"),
        other => panic!("unexpected {:?}", other),
    }
    // The first faulty item decides.
    assert!(matches!(parse_port_spec("x,90-80"), Err(PortSpecError::InvalidPort(IntErrorKind::InvalidDigit))));
    assert!(matches!(parse_port_spec("90-80,x"), Err(PortSpecError::InvalidRange(_))));
}

#[test]
fn top_ports_take_a_prefix() {
    assert_eq!(top_ports(3), vec![20, 21, 22]);
    assert_eq!(top_ports(0), Vec::<u16>::new());
    let all = top_ports(100);
    assert_eq!(all.len(), 21);
    assert_eq!(all[20], 8080);
    assert_eq!(select_ports(Some(2), "junk").unwrap(), vec![20, 21]);
    assert_eq!(select_ports(None, "25").unwrap(), vec![25]);
    assert!(select_ports(None, "junk").is_err());
}

#[test]
fn networks_are_parsed_with_ipnet() {
    assert_eq!(
        parse_network("10.0.0.0/8"),
        Some(IpNetwork { addr: v4(10, 0, 0, 0), prefix_len: 8 })
    );
    assert_eq!(
        parse_network("fd00::1/126"),
        Some(IpNetwork { addr: IpAddress::V6(0xfd00_0000_0000_0000_0000_0000_0000_0001), prefix_len: 126 })
    );
    assert_eq!(parse_network("10.0.0.1"), None);
    assert_eq!(parse_network("10.0.0.0/33"), None);
    assert_eq!(parse_network("example.com"), None);
}

#[test]
fn networks_expand_to_their_hosts() {
    assert_eq!(parse_targets("10.0.0.5/30", &vec![]).unwrap(), vec![v4(10, 0, 0, 5), v4(10, 0, 0, 6)]);
    assert_eq!(parse_targets("10.0.0.0/31", &vec![]).unwrap(), vec![v4(10, 0, 0, 0), v4(10, 0, 0, 1)]);
    assert_eq!(parse_targets("10.0.0.9/32", &vec![]).unwrap(), vec![v4(10, 0, 0, 9)]);
    assert_eq!(parse_targets("192.168.1.0/24", &vec![]).unwrap().len(), 254);
    let v6 = parse_targets("fd00::/126", &vec![]).unwrap();
    assert_eq!(v6.len(), 4);
    assert_eq!(v6[0], IpAddress::V6(0xfd00_0000_0000_0000_0000_0000_0000_0000));
    // An IPv6 network with a prefix of 32 or 128 stands for its own address.
    assert_eq!(
        parse_targets("2001:db8::5/32", &vec![]).unwrap(),
        vec![IpAddress::V6(0x2001_0db8_0000_0000_0000_0000_0000_0005)]
    );
    assert_eq!(parse_targets("fd00::7/128", &vec![]).unwrap().len(), 1);
}

#[test]
fn target_addresses_are_sorted_and_unique() {
    let ips = parse_targets("fd00::/127, 10.0.0.2/32, 10.0.0.0/30, host", &vec![vec![v4(1, 2, 3, 4), v4(10, 0, 0, 1)]]).unwrap();
    assert_eq!(
        ips,
        vec![
            v4(1, 2, 3, 4),
            v4(10, 0, 0, 1),
            v4(10, 0, 0, 2),
            IpAddress::V6(0xfd00_0000_0000_0000_0000_0000_0000_0000),
            IpAddress::V6(0xfd00_0000_0000_0000_0000_0000_0000_0001),
        ]
    );
}

#[test]
fn names_are_looked_up_outside() {
    let list = parse_target_list("a.example, 10.0.0.0/30 ,  192.168.1.1,");
    assert_eq!(list.len(), 3);
    assert!(matches!(list[1], Target::Network(_)));
    assert_eq!(target_names(&list), vec!["a.example".to_string(), "192.168.1.1".to_string()]);
    assert_eq!(
        collect_targets(&list, &vec![vec![]]),
        Err(TargetError::LookupCount { names: 2, lookups: 1 })
    );
    let ips = collect_targets(&list, &vec![vec![v4(9, 9, 9, 9)], vec![v4(192, 168, 1, 1)]]).unwrap();
    assert_eq!(ips, vec![v4(9, 9, 9, 9), v4(10, 0, 0, 1), v4(10, 0, 0, 2), v4(192, 168, 1, 1)]);
}

#[test]
fn excluded_targets_are_dropped_in_order() {
    let ips = vec![v4(1, 1, 1, 1), v4(2, 2, 2, 2), v4(3, 3, 3, 3)];
    assert_eq!(exclude_targets(&ips, &vec![v4(2, 2, 2, 2), v4(7, 7, 7, 7)]), vec![v4(1, 1, 1, 1), v4(3, 3, 3, 3)]);
    assert_eq!(exclude_targets(&ips, &vec![]), ips);
}

#[test]
fn the_same_addresses_in_any_order_give_the_same_list() {
    let a = parse_targets("10.0.0.0/30, 10.0.0.1/32", &vec![]).unwrap();
    let b = parse_targets("10.0.0.2/32,10.0.0.1/32,10.0.0.2/32", &vec![]).unwrap();
    assert_eq!(a, b);
}

#[test]
fn printed_port_lists_parse_back() {
    let v = parse_port_spec("8080, 1-3,443,80,2").unwrap();
    let text = v.iter().map(|p| p.to_string()).collect::<Vec<String>>().join(",");
    assert_eq!(parse_port_spec(&text).unwrap(), v);
    let empty: Vec<u16> = Vec::new();
    let text = empty.iter().map(|p| p.to_string()).collect::<Vec<String>>().join(",");
    assert_eq!(parse_port_spec(&text).unwrap(), empty);
}

#[test]
fn joined_port_specs_give_the_sorted_union() {
    let a = "443, 20-22";
    let b = "80,21";
    let x = parse_port_spec(a).unwrap();
    let y = parse_port_spec(b).unwrap();
    let ab = parse_port_spec(&format!("{a},{b}")).unwrap();
    let ba = parse_port_spec(&format!("{b},{a}")).unwrap();
    let mut union: Vec<u16> = x.iter().chain(y.iter()).copied().collect();
    union.sort_unstable();
    union.dedup();
    assert_eq!(ab, union);
    assert_eq!(ba, union);
    assert!(parse_port_spec(&format!("{a},9-1")).is_err());
    assert!(parse_port_spec(&format!("x,{b}")).is_err());
}

#[test]
fn joined_target_lists_give_the_union() {
    let (a, b) = ("10.0.0.0/30, host", "fd00::/127,10.0.0.1/32");
    let la = vec![vec![v4(9, 9, 9, 9)]];
    let x = parse_targets(a, &la).unwrap();
    let y = parse_targets(b, &vec![]).unwrap();
    let ab = parse_targets(&format!("{a},{b}"), &la).unwrap();
    let ba = parse_targets(&format!("{b},{a}"), &la).unwrap();
    assert_eq!(ab, ba);
    assert_eq!(ab.len(), 5);
    assert!(x.iter().chain(y.iter()).all(|ip| ab.contains(ip)));
    assert!(ab.iter().all(|ip| x.contains(ip) || y.contains(ip)));
}
