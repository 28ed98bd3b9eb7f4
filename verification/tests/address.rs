use network_scanner::{
    generate_ip_range, host_text, parse_address, parse_cidr, IpAddress, ScanError,
};

fn v4(a: u8, b: u8, c: u8, d: u8) -> IpAddress {
    IpAddress::V4(u32::from_be_bytes([a, b, c, d]))
}

#[test]
fn slash_24_has_254_hosts() {
    let hosts = generate_ip_range(v4(192, 168, 1, 0), 24).unwrap();
    assert_eq!(hosts.len(), 254);
    assert_eq!(hosts[0], v4(192, 168, 1, 1));
    assert_eq!(hosts[253], v4(192, 168, 1, 254));
}

#[test]
fn slash_30_yields_the_two_inner_addresses() {
    let hosts = generate_ip_range(v4(192, 168, 1, 0), 30).unwrap();
    assert_eq!(hosts, vec![v4(192, 168, 1, 1), v4(192, 168, 1, 2)]);
}

#[test]
fn slash_31_yields_both_addresses() {
    let hosts = generate_ip_range(v4(10, 0, 0, 4), 31).unwrap();
    assert_eq!(hosts, vec![v4(10, 0, 0, 4), v4(10, 0, 0, 5)]);
}

#[test]
fn slash_32_yields_the_address_itself() {
    let hosts = generate_ip_range(v4(10, 1, 2, 3), 32).unwrap();
    assert_eq!(hosts, vec![v4(10, 1, 2, 3)]);
    let top = generate_ip_range(v4(255, 255, 255, 255), 32).unwrap();
    assert_eq!(top, vec![v4(255, 255, 255, 255)]);
}

#[test]
fn slash_31_at_the_top_of_the_address_space() {
    let hosts = generate_ip_range(v4(255, 255, 255, 255), 31).unwrap();
    assert_eq!(hosts, vec![v4(255, 255, 255, 254), v4(255, 255, 255, 255)]);
}

#[test]
fn host_count_follows_the_prefix() {
    let mut prefix: u8 = 16;
    while prefix < 31 {
        let hosts = generate_ip_range(v4(172, 16, 33, 7), prefix).unwrap();
        let expected: usize = (1usize << (32 - prefix as u32)) - 2;
        assert_eq!(hosts.len(), expected);
        prefix += 1;
    }
    assert_eq!(generate_ip_range(v4(172, 16, 33, 7), 16).unwrap().len(), 65534);
}

#[test]
fn host_bits_of_the_base_are_ignored() {
    let hosts = generate_ip_range(v4(192, 168, 1, 77), 24).unwrap();
    assert_eq!(hosts.len(), 254);
    assert_eq!(hosts[0], v4(192, 168, 1, 1));
    assert_eq!(hosts[253], v4(192, 168, 1, 254));
    let small = generate_ip_range(v4(10, 0, 0, 7), 30).unwrap();
    assert_eq!(small, vec![v4(10, 0, 0, 5), v4(10, 0, 0, 6)]);
}

#[test]
fn hosts_ascend_one_by_one() {
    let hosts = generate_ip_range(v4(10, 20, 30, 40), 22).unwrap();
    assert_eq!(hosts.len(), 1022);
    let mut i: usize = 0;
    while i < hosts.len() {
        assert_eq!(hosts[i], IpAddress::V4(0x0a141c01 + i as u32));
        i += 1;
    }
}

#[test]
fn ipv6_expansion_is_unsupported() {
    assert_eq!(generate_ip_range(IpAddress::V6(1), 128), Err(ScanError::Unsupported));
    assert_eq!(generate_ip_range(IpAddress::V6(0), 0), Err(ScanError::Unsupported));
}

#[test]
fn expansion_refuses_a_prefix_that_is_too_long() {
    assert_eq!(generate_ip_range(v4(10, 0, 0, 0), 33), Err(ScanError::InvalidRange));
    assert_eq!(generate_ip_range(v4(10, 0, 0, 0), 255), Err(ScanError::InvalidRange));
    assert_eq!(generate_ip_range(IpAddress::V6(1), 129), Err(ScanError::InvalidRange));
}

#[test]
fn cidr_of_either_family_parses() {
    assert_eq!(parse_cidr("192.168.1.0/24"), Ok((v4(192, 168, 1, 0), 24)));
    assert_eq!(parse_cidr("10.0.0.1/32"), Ok((v4(10, 0, 0, 1), 32)));
    assert_eq!(parse_cidr("0.0.0.0/0"), Ok((v4(0, 0, 0, 0), 0)));
    assert_eq!(parse_cidr("::1/128"), Ok((IpAddress::V6(1), 128)));
    assert_eq!(parse_cidr("fe80::/10"), Ok((IpAddress::V6(0xfe80u128 << 112), 10)));
    assert_eq!(parse_cidr("::/33"), Ok((IpAddress::V6(0), 33)));
}

#[test]
fn cidr_of_another_shape_is_invalid_format() {
    assert_eq!(parse_cidr("192.168.1.0"), Err(ScanError::InvalidFormat));
    assert_eq!(parse_cidr("192.168.1.0/24/8"), Err(ScanError::InvalidFormat));
    assert_eq!(parse_cidr(""), Err(ScanError::InvalidFormat));
}

#[test]
fn cidr_with_a_bad_address_is_invalid_range() {
    assert_eq!(parse_cidr("999.168.1.0/24"), Err(ScanError::InvalidRange));
    assert_eq!(parse_cidr("192.168.1/24"), Err(ScanError::InvalidRange));
    assert_eq!(parse_cidr("example.com/24"), Err(ScanError::InvalidRange));
    assert_eq!(parse_cidr("/24"), Err(ScanError::InvalidRange));
}

#[test]
fn cidr_with_a_bad_prefix_is_invalid_range() {
    assert_eq!(parse_cidr("192.168.1.0/33"), Err(ScanError::InvalidRange));
    assert_eq!(parse_cidr("192.168.1.0/256"), Err(ScanError::InvalidRange));
    assert_eq!(parse_cidr("192.168.1.0/abc"), Err(ScanError::InvalidRange));
    assert_eq!(parse_cidr("192.168.1.0/"), Err(ScanError::InvalidRange));
    assert_eq!(parse_cidr("192.168.1.0/-1"), Err(ScanError::InvalidRange));
    assert_eq!(parse_cidr("::1/129"), Err(ScanError::InvalidRange));
}

#[test]
fn ipv4_literals() {
    assert_eq!(parse_address("192.168.1.1"), Some(IpAddress::V4(0xc0a80101)));
    assert_eq!(parse_address("0.0.0.0"), Some(IpAddress::V4(0)));
    assert_eq!(parse_address("255.255.255.255"), Some(IpAddress::V4(0xffffffff)));
    assert_eq!(parse_address("127.0.0.1"), Some(IpAddress::V4(0x7f000001)));
}

#[test]
fn malformed_ipv4_literals() {
    assert_eq!(parse_address(""), None);
    assert_eq!(parse_address("1.2.3"), None);
    assert_eq!(parse_address("1.2.3.4.5"), None);
    assert_eq!(parse_address("256.1.1.1"), None);
    assert_eq!(parse_address("1.2.3.256"), None);
    assert_eq!(parse_address("01.2.3.4"), None);
    assert_eq!(parse_address("1.2.3.04"), None);
    assert_eq!(parse_address("1.2.3.0004"), None);
    assert_eq!(parse_address("1..3.4"), None);
    assert_eq!(parse_address("1.2.3.4 "), None);
    assert_eq!(parse_address(" 1.2.3.4"), None);
    assert_eq!(parse_address("+1.2.3.4"), None);
    assert_eq!(parse_address("1.2.3.a"), None);
    assert_eq!(parse_address("localhost"), None);
}

#[test]
fn ipv6_literals() {
    assert_eq!(parse_address("::"), Some(IpAddress::V6(0)));
    assert_eq!(parse_address("::1"), Some(IpAddress::V6(1)));
    assert_eq!(parse_address("1::"), Some(IpAddress::V6(1u128 << 112)));
    assert_eq!(
        parse_address("1:2:3:4:5:6:7:8"),
        Some(IpAddress::V6(0x0001_0002_0003_0004_0005_0006_0007_0008))
    );
    assert_eq!(
        parse_address("2001:db8::ff00:42:8329"),
        Some(IpAddress::V6(0x2001_0db8_0000_0000_0000_ff00_0042_8329))
    );
    assert_eq!(
        parse_address("2001:DB8::FF00:42:8329"),
        Some(IpAddress::V6(0x2001_0db8_0000_0000_0000_ff00_0042_8329))
    );
    assert_eq!(
        parse_address("ffff:ffff:ffff:ffff:ffff:ffff:ffff:ffff"),
        Some(IpAddress::V6(u128::MAX))
    );
    assert_eq!(
        parse_address("1:2:3:4:5:6:7::"),
        Some(IpAddress::V6(0x0001_0002_0003_0004_0005_0006_0007_0000))
    );
    assert_eq!(
        parse_address("::2:3:4:5:6:7:8"),
        Some(IpAddress::V6(0x0000_0002_0003_0004_0005_0006_0007_0008))
    );
    assert_eq!(parse_address("0001::0001"), Some(IpAddress::V6((1u128 << 112) + 1)));
}

#[test]
fn ipv6_literals_with_an_embedded_ipv4_address() {
    assert_eq!(parse_address("::ffff:10.0.0.1"), Some(IpAddress::V6(0xffff_0a00_0001)));
    assert_eq!(parse_address("::1.2.3.4"), Some(IpAddress::V6(0x0102_0304)));
    assert_eq!(
        parse_address("1:2:3:4:5:6:1.2.3.4"),
        Some(IpAddress::V6(0x0001_0002_0003_0004_0005_0006_0102_0304))
    );
    assert_eq!(
        parse_address("64:ff9b::192.0.2.33"),
        Some(IpAddress::V6(0x0064_ff9b_0000_0000_0000_0000_c000_0221))
    );
}

#[test]
fn malformed_ipv6_literals() {
    assert_eq!(parse_address(":"), None);
    assert_eq!(parse_address(":::"), None);
    assert_eq!(parse_address("1:2:3:4:5:6:7"), None);
    assert_eq!(parse_address("1:2:3:4:5:6:7:8:9"), None);
    assert_eq!(parse_address("1:2:3:4:5:6:7:8::"), None);
    assert_eq!(parse_address("::1:2:3:4:5:6:7:8"), None);
    assert_eq!(parse_address("1::2::3"), None);
    assert_eq!(parse_address("12345::"), None);
    assert_eq!(parse_address("g::"), None);
    assert_eq!(parse_address(":1:2:3:4:5:6:7"), None);
    assert_eq!(parse_address("1:2:3:4:5:6:7:"), None);
    assert_eq!(parse_address("1:2:3:4:5:6:7:1.2.3.4"), None);
    assert_eq!(parse_address("1:2:3:4:5:6::1.2.3.4"), None);
    assert_eq!(parse_address("1.2.3.4::"), None);
    assert_eq!(parse_address("::1.2.3.4:5"), None);
    assert_eq!(parse_address("::1.2.3"), None);
    assert_eq!(parse_address("fe80::1%eth0"), None);
    assert_eq!(parse_address("[::1]"), None);
}

#[test]
fn dotted_notation() {
    assert_eq!(host_text(0xc0a80101), "192.168.1.1");
    assert_eq!(host_text(0), "0.0.0.0");
    assert_eq!(host_text(0xffffffff), "255.255.255.255");
    assert_eq!(host_text(0x0a00640a), "10.0.100.10");
    assert_eq!(host_text(0x7f000001), "127.0.0.1");
}

#[test]
fn dotted_notation_reads_back() {
    let samples: [u32; 8] =
        [0, 1, 255, 256, 0x01020304, 0xc0a80101, 0xfffffffe, 0xffffffff];
    for address in samples {
        assert_eq!(parse_address(&host_text(address)), Some(IpAddress::V4(address)));
    }
}

#[test]
fn expanded_hosts_print_in_dotted_notation() {
    let hosts = generate_ip_range(v4(192, 168, 1, 0), 30).unwrap();
    let mut texts: Vec<String> = Vec::new();
    for host in hosts {
        match host {
            IpAddress::V4(address) => texts.push(host_text(address)),
            IpAddress::V6(_) => panic!("an IPv4 block holds IPv4 hosts"),
        }
    }
    assert_eq!(texts, vec!["192.168.1.1".to_string(), "192.168.1.2".to_string()]);
}

#[test]
fn more_ipv6_literals() {
    assert_eq!(parse_address("0:0:0:0:0:0:0:0"), Some(IpAddress::V6(0)));
    assert_eq!(parse_address("0:0:0:0:0:0:0.0.0.0"), Some(IpAddress::V6(0)));
    assert_eq!(parse_address("::0.0.0.0"), Some(IpAddress::V6(0)));
    assert_eq!(parse_address("0::0:0.0.0.0"), Some(IpAddress::V6(0)));
    assert_eq!(parse_address("::0000"), Some(IpAddress::V6(0)));
    assert_eq!(parse_address("FFFF::ffff"), Some(IpAddress::V6((0xffffu128 << 112) + 0xffff)));
    assert_eq!(
        parse_address("2001:db8:85a3::8a2e:370:7334"),
        Some(IpAddress::V6(0x2001_0db8_85a3_0000_0000_8a2e_0370_7334))
    );
    assert_eq!(
        parse_address("2001:db8:85a3:0:0:8a2e:370:7334"),
        Some(IpAddress::V6(0x2001_0db8_85a3_0000_0000_8a2e_0370_7334))
    );
    assert_eq!(
        parse_address("1:2:3:4:5::1.2.3.4"),
        Some(IpAddress::V6(0x0001_0002_0003_0004_0005_0000_0102_0304))
    );
    assert_eq!(
        parse_address("1:2:3:4::5:1.2.3.4"),
        Some(IpAddress::V6(0x0001_0002_0003_0004_0000_0005_0102_0304))
    );
}

#[test]
fn more_malformed_literals() {
    assert_eq!(parse_address("0:0:0:0:0:0.0.0.0"), None);
    assert_eq!(parse_address("0:0:0:0:0:0:0:0.0.0.0"), None);
    assert_eq!(parse_address("::ffff:1.2.3.4:5"), None);
    assert_eq!(parse_address("::ffff:999.0.0.1"), None);
    assert_eq!(parse_address("::01.2.3.4"), None);
    assert_eq!(parse_address("::1.2.3.256"), None);
    assert_eq!(parse_address("::00001"), None);
    assert_eq!(parse_address("::g"), None);
    assert_eq!(parse_address("1:::2"), None);
    assert_eq!(parse_address(":1::2"), None);
    assert_eq!(parse_address("1::2:"), None);
    assert_eq!(parse_address("::1:"), None);
    assert_eq!(parse_address(":1"), None);
    assert_eq!(parse_address("1:"), None);
    assert_eq!(parse_address("::\n"), None);
    assert_eq!(parse_address("1:2:3:4:5:6:7:8 "), None);
    assert_eq!(parse_address(".1.2.3"), None);
    assert_eq!(parse_address("1.2.3."), None);
    assert_eq!(parse_address("1.2.3.+4"), None);
    assert_eq!(parse_address("0x1.2.3.4"), None);
    assert_eq!(parse_address("1.2.3.4/24"), None);
    assert_eq!(parse_address("1.2.3.4:80"), None);
    assert_eq!(parse_address("\u{661}.2.3.4"), None);
}
