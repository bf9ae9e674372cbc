use is_online::addr::{v4_string, v6_string};
use is_online::check::{probe_verdict, address_reachable, worker_pool_size};
use is_online::host::resolve_hosts_from;
use is_online::{
    expand_subnets, CheckStrategy, Host, IpAddress, IpProtocol, ProbeOutcome, TcpPortCheck,
};

fn strings(items: &[&str]) -> Vec<String> {
    items.iter().map(|s| s.to_string()).collect()
}

#[test]
fn test_parse_address() {
    let host = Host::from_literal("127.0.0.1").unwrap();

    assert_eq!(&host.name, "127.0.0.1");
    assert_eq!(host.addresses, vec![IpAddress::V4(0x7f000001)]);
}

#[test]
fn parse_v6_literals() {
    let host = Host::from_literal("::1").unwrap();
    assert_eq!(host.addresses, vec![IpAddress::V6(1)]);

    let host = Host::from_literal("1:2:3:4:5:6:7:8").unwrap();
    assert_eq!(
        host.addresses,
        vec![IpAddress::V6(0x0001_0002_0003_0004_0005_0006_0007_0008)]
    );

    let host = Host::from_literal("::ffff:1.2.3.4").unwrap();
    assert_eq!(host.addresses, vec![IpAddress::V6(0xffff_0102_0304)]);

    let host = Host::from_literal("2001:db8::").unwrap();
    assert_eq!(host.addresses, vec![IpAddress::V6(0x2001_0db8 << 96)]);
}

#[test]
fn parse_rejects_non_literals() {
    assert!(Host::from_literal("example.com").is_err());
    assert!(Host::from_literal("256.0.0.1").is_err());
    assert!(Host::from_literal("1.2.3.04").is_err());
    assert!(Host::from_literal("1.2.3.4.5").is_err());
    assert!(Host::from_literal("1.2.3").is_err());
    assert!(Host::from_literal("").is_err());
    assert!(Host::from_literal("1:2:3:4:5:6:7:8:9").is_err());
    assert!(Host::from_literal("1:2:3:4:5:6:7::8").is_err());
    assert!(Host::from_literal("12345::").is_err());
    assert!(Host::from_literal("1.2.3.4::").is_err());
}

#[test]
fn from_resolved_needs_an_address() {
    let host = Host::from_resolved("example.com", vec![IpAddress::V4(5)]).unwrap();
    assert_eq!(&host.name, "example.com");
    assert_eq!(host.addresses, vec![IpAddress::V4(5)]);

    assert!(Host::from_resolved("example.com", vec![]).is_err());
}

#[test]
fn subnet_expansion_excludes_network_and_broadcast() {
    let out = expand_subnets(&strings(&["192.0.2.0/30"]));
    assert_eq!(out, strings(&["192.0.2.1", "192.0.2.2"]));
}

#[test]
fn subnet_expansion_passes_other_strings_through() {
    let out = expand_subnets(&strings(&["example.com"]));
    assert_eq!(out, strings(&["example.com"]));

    let out = expand_subnets(&strings(&["192.0.2.7", "host", "10.0.0.0/31"]));
    assert_eq!(out, strings(&["192.0.2.7", "host", "10.0.0.0", "10.0.0.1"]));
}

#[test]
fn subnet_expansion_31_and_32() {
    let out = expand_subnets(&strings(&["10.0.0.4/31"]));
    assert_eq!(out, strings(&["10.0.0.4", "10.0.0.5"]));

    let out = expand_subnets(&strings(&["10.0.0.4/32"]));
    assert_eq!(out, strings(&["10.0.0.4"]));

    let out = expand_subnets(&strings(&["0.0.0.0/31"]));
    assert_eq!(out, strings(&["0.0.0.1"]));

    let out = expand_subnets(&strings(&["255.255.255.254/31"]));
    assert_eq!(out, strings(&["255.255.255.254"]));
}

#[test]
fn v6_expansion_excludes_only_unspecified() {
    let out = expand_subnets(&strings(&["::/126"]));
    assert_eq!(out, strings(&["::1", "::2", "::3"]));

    let out = expand_subnets(&strings(&["2001:db8::/126"]));
    assert_eq!(
        out,
        strings(&["2001:db8::", "2001:db8::1", "2001:db8::2", "2001:db8::3"])
    );

    let out = expand_subnets(&strings(&["ffff:ffff:ffff:ffff:ffff:ffff:ffff:fffe/127"]));
    assert_eq!(
        out,
        strings(&[
            "ffff:ffff:ffff:ffff:ffff:ffff:ffff:fffe",
            "ffff:ffff:ffff:ffff:ffff:ffff:ffff:ffff"
        ])
    );
}

#[test]
fn net_grammar_is_lenient() {
    // the subnet parser accepts leading zeros in octets
    let out = expand_subnets(&strings(&["010.0.0.252/30"]));
    assert_eq!(out, strings(&["10.0.0.253", "10.0.0.254"]));

    // and lets "::" stand for zero groups, unlike the address grammar
    let out = expand_subnets(&strings(&["1:2:3:4:5:6:7::8/128"]));
    assert_eq!(out, strings(&["1:2:3:4:5:6:7:8"]));

    // anything it rejects passes through unchanged
    let out = expand_subnets(&strings(&["10.0.0.0/33", "10.0.0.0/031", "1.2.3/8"]));
    assert_eq!(out, strings(&["10.0.0.0/33", "10.0.0.0/031", "1.2.3/8"]));
}

#[test]
fn address_formatting() {
    assert_eq!(v4_string(0), "0.0.0.0");
    assert_eq!(v4_string(0x7f000001), "127.0.0.1");
    assert_eq!(v4_string(0xffffffff), "255.255.255.255");

    assert_eq!(v6_string(0), "::");
    assert_eq!(v6_string(1), "::1");
    assert_eq!(v6_string(0x0001_0002_0003_0004_0005_0006_0007_0008), "1:2:3:4:5:6:7:8");
    assert_eq!(v6_string(0xffff_0102_0304), "::ffff:1.2.3.4");
    assert_eq!(v6_string(0x2001_0db8 << 96), "2001:db8::");
    assert_eq!(v6_string((0x20010db8u128 << 96) | 1), "2001:db8::1");
    assert_eq!(v6_string(0x0001_0000_0000_0000_0000_0000_0000_0001), "1::1");
    assert_eq!(v6_string(0x0000_0001_0000_0000_0000_0000_0001_0000), "0:1::1:0");

    // a single zero group is not compressed
    assert_eq!(v6_string(0x0001_0000_0001_0001_0001_0001_0001_0001), "1:0:1:1:1:1:1:1");
    // the earliest of two equally long zero runs is the one compressed
    assert_eq!(v6_string(0x0001_0000_0000_0001_0000_0000_0001_0001), "1::1:0:0:1:1");
    // only mapped addresses embed a dotted quad; compatible ones stay hex
    assert_eq!(v6_string(0x0102_0304), "::102:304");
}

#[test]
fn formatted_addresses_parse_back() {
    for v in [
        0u32,
        1,
        0x7f000001,
        0x0a000001,
        0xc0000201,
        0x01020304,
        0xfffffffe,
        0xffffffff,
    ] {
        let s = v4_string(v);
        let host = Host::from_literal(&s).unwrap();
        assert_eq!(host.addresses, vec![IpAddress::V4(v)]);
    }

    for v in [
        0u128,
        1,
        2,
        0xffff,
        0x0102_0304,
        0xffff_0102_0304,
        0x2001_0db8u128 << 96,
        (0x2001_0db8u128 << 96) | 0xffff,
        0x0001_0000_0000_0001_0000_0000_0001_0001,
        0x0001_0000_0001_0001_0001_0001_0001_0001,
        u128::MAX - 1,
        u128::MAX,
    ] {
        let s = v6_string(v);
        let host = Host::from_literal(&s).unwrap();
        assert_eq!(host.addresses, vec![IpAddress::V6(v)]);
    }
}

#[test]
fn resolve_drops_unresolvable_targets() {
    let targets = strings(&["127.0.0.1", "::1", "not-a-real-host-xyz.invalid"]);
    let lookups: Vec<Option<Vec<IpAddress>>> = vec![None, None, None];

    let hosts = resolve_hosts_from(&targets, lookups);

    assert_eq!(hosts.len(), 2);
    assert_eq!(&hosts[0].name, "127.0.0.1");
    assert_eq!(hosts[0].addresses, vec![IpAddress::V4(0x7f000001)]);
    assert_eq!(&hosts[1].name, "::1");
    assert_eq!(hosts[1].addresses, vec![IpAddress::V6(1)]);
}

#[test]
fn resolve_uses_lookup_answers() {
    let targets = strings(&["a.example", "b.example", "c.example"]);
    let lookups: Vec<Option<Vec<IpAddress>>> = vec![
        Some(vec![IpAddress::V4(1), IpAddress::V6(2)]),
        Some(vec![]),
        None,
    ];

    let hosts = resolve_hosts_from(&targets, lookups);

    assert_eq!(hosts.len(), 1);
    assert_eq!(&hosts[0].name, "a.example");
    assert_eq!(hosts[0].addresses, vec![IpAddress::V4(1), IpAddress::V6(2)]);
}

#[test]
fn resolved_name_set_is_stable() {
    let targets = strings(&["127.0.0.1", "x.invalid", "::1"]);
    let first: Vec<String> = resolve_hosts_from(&targets, vec![None, None, None])
        .iter()
        .map(|h| h.name.clone())
        .collect();
    let second: Vec<String> = resolve_hosts_from(&targets, vec![None, None, None])
        .iter()
        .map(|h| h.name.clone())
        .collect();

    assert_eq!(first, second);
    assert_eq!(first, strings(&["127.0.0.1", "::1"]));
}

#[test]
fn builder_defaults_and_setters() {
    let check = TcpPortCheck::default();
    assert_eq!(check.port, 22);
    assert_eq!(check.protocol, IpProtocol::Both);
    assert_eq!(check.timeout_ms, 1000);
    assert_eq!(check.strategy, CheckStrategy::Any);

    let check = TcpPortCheck::default()
        .with_port(80)
        .with_protocol(IpProtocol::V6)
        .with_timeout(250)
        .with_strategy(CheckStrategy::All);
    assert_eq!(check.port, 80);
    assert_eq!(check.protocol, IpProtocol::V6);
    assert_eq!(check.timeout_ms, 250);
    assert_eq!(check.strategy, CheckStrategy::All);
}

#[test]
fn family_filter_selects_eligible_addresses() {
    let host = Host::from_resolved("h", vec![IpAddress::V4(1), IpAddress::V6(2)]).unwrap();

    let both = TcpPortCheck::default().eligible_addresses(&host);
    assert_eq!(both, vec![IpAddress::V4(1), IpAddress::V6(2)]);

    let v4 = TcpPortCheck::default()
        .with_protocol(IpProtocol::V4)
        .eligible_addresses(&host);
    assert_eq!(v4, vec![IpAddress::V4(1)]);

    let v6 = TcpPortCheck::default()
        .with_protocol(IpProtocol::V6)
        .eligible_addresses(&host);
    assert_eq!(v6, vec![IpAddress::V6(2)]);
}

#[test]
fn any_and_all_combination() {
    let any = TcpPortCheck::default().with_strategy(CheckStrategy::Any);
    let all = TcpPortCheck::default().with_strategy(CheckStrategy::All);

    for (a, b) in [(false, false), (false, true), (true, false), (true, true)] {
        assert_eq!(any.combine(&vec![a, b]), a || b);
        assert_eq!(all.combine(&vec![a, b]), a && b);
    }

    // with no eligible address the host is offline under both strategies
    assert!(!any.combine(&vec![]));
    assert!(!all.combine(&vec![]));
}

#[test]
fn probe_outcomes_fold_asymmetrically() {
    // the standalone check propagates faults and absorbs timeouts
    assert_eq!(probe_verdict(ProbeOutcome::Open), Some(true));
    assert_eq!(probe_verdict(ProbeOutcome::TimedOut), Some(false));
    assert_eq!(probe_verdict(ProbeOutcome::Failed), None);

    // batch evaluation folds faults to "not reachable" instead
    assert!(address_reachable(ProbeOutcome::Open));
    assert!(!address_reachable(ProbeOutcome::TimedOut));
    assert!(!address_reachable(ProbeOutcome::Failed));
}

#[test]
fn collect_online_keeps_exactly_the_online_hosts() {
    let hosts = vec![
        Host::from_resolved("a", vec![IpAddress::V4(1)]).unwrap(),
        Host::from_resolved("b", vec![IpAddress::V4(2)]).unwrap(),
        Host::from_resolved("c", vec![IpAddress::V4(3)]).unwrap(),
    ];
    let check = TcpPortCheck::default();

    let online = check.collect_online_from(&hosts, &vec![true, false, true]);
    let names: Vec<String> = online.iter().map(|h| h.name.clone()).collect();
    assert_eq!(names, strings(&["a", "c"]));
}

#[test]
fn collect_online_is_idempotent() {
    let hosts = vec![
        Host::from_resolved("a", vec![IpAddress::V4(1)]).unwrap(),
        Host::from_resolved("b", vec![IpAddress::V4(2)]).unwrap(),
    ];
    let verdicts = vec![true, true];
    let check = TcpPortCheck::default();

    let first: Vec<String> = check
        .collect_online_from(&hosts, &verdicts)
        .iter()
        .map(|h| h.name.clone())
        .collect();
    let second: Vec<String> = check
        .collect_online_from(&hosts, &verdicts)
        .iter()
        .map(|h| h.name.clone())
        .collect();

    assert_eq!(first, second);
    assert_eq!(first, strings(&["a", "b"]));
}

#[test]
fn worker_pool_size_defaults_and_caps() {
    assert_eq!(worker_pool_size(4, 0), 16);
    assert_eq!(worker_pool_size(64, 0), 255);
    assert_eq!(worker_pool_size(100, 0), 255);
    assert_eq!(worker_pool_size(8, 5), 5);
    assert_eq!(worker_pool_size(1, 255), 255);
}
