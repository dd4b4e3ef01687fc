use snac_rs::config::{BackendKind, Config, ConfigError, UlaPolicy};
use snac_rs::io::NativeFraming;

fn args(v: &[&str]) -> Vec<String> {
    v.iter().map(|s| s.to_string()).collect()
}

#[test]
fn config_help_wins_over_everything() {
    assert!(matches!(Config::parse(&args(&["--bogus", "-h"])), Ok(None)));
    assert!(matches!(Config::parse(&args(&["--help"])), Ok(None)));
}

#[test]
fn config_minimal_tap() {
    let c = Config::parse(&args(&["--backend", "tap", "--stub", "s0", "--infra", "a0"]))
        .unwrap()
        .unwrap();
    assert_eq!(c.backend, BackendKind::Tap);
    assert_eq!(c.stub, "s0");
    assert_eq!(c.infra, "a0");
    assert_eq!(c.state, "snac.state");
    assert!(!c.no_stub_default);
    assert!(c.fds.is_none());
}

#[test]
fn config_flags_and_descriptors() {
    let c = Config::parse(&args(&[
        "--no-stub-default",
        "--backend",
        "tap",
        "--stub",
        "s0",
        "--infra",
        "a0",
        "--always-advertise-ail-routes",
        "--infra-fd",
        "3",
        "--stub-fd",
        "+4",
        "--framing",
        "utun",
        "--nat64",
        "disabled",
        "--state",
        "x.state",
    ]))
    .unwrap()
    .unwrap();
    assert!(c.no_stub_default && c.always_advertise_ail_routes);
    assert_eq!(c.fds, Some((3, 4, NativeFraming::Utun)));
    assert_eq!(c.state, "x.state");
}

#[test]
fn config_refusals() {
    assert_eq!(
        Config::parse(&args(&["--backend"])).unwrap_err(),
        ConfigError::MissingValue { at: 0 }
    );
    assert_eq!(
        Config::parse(&args(&["--backend", "x"])).unwrap_err(),
        ConfigError::UnknownBackend
    );
    assert_eq!(
        Config::parse(&args(&["--nat64", "enabled"])).unwrap_err(),
        ConfigError::Nat64Unsupported
    );
    assert_eq!(
        Config::parse(&args(&["--infra-fd", "x3"])).unwrap_err(),
        ConfigError::BadDescriptor
    );
    assert_eq!(
        Config::parse(&args(&["--framing", "ppp"])).unwrap_err(),
        ConfigError::UnknownFraming
    );
    assert_eq!(
        Config::parse(&args(&["--stub", "s", "--what", "1"])).unwrap_err(),
        ConfigError::UnknownOption { at: 2 }
    );
    assert_eq!(Config::parse(&args(&[])).unwrap_err(), ConfigError::MissingBackend);
    assert_eq!(
        Config::parse(&args(&["--backend", "pcap"])).unwrap_err(),
        ConfigError::MissingInfra
    );
    assert_eq!(
        Config::parse(&args(&["--backend", "pcap", "--infra", "a"])).unwrap_err(),
        ConfigError::MissingStub
    );
    assert_eq!(
        Config::parse(&args(&["--backend", "pcap", "--infra", "a", "--stub", "a"])).unwrap_err(),
        ConfigError::SameInterfaces
    );
    assert_eq!(
        Config::parse(&args(&[
            "--backend", "pcap", "--infra", "a", "--stub", "b", "--infra-fd", "3", "--stub-fd", "4",
            "--framing", "raw"
        ]))
        .unwrap_err(),
        ConfigError::DescriptorMode
    );
    assert_eq!(
        Config::parse(&args(&["--backend", "tap", "--infra", "a", "--stub", "b", "--infra-fd", "3"]))
            .unwrap_err(),
        ConfigError::DescriptorMode
    );
}

fn sv(v: &[&str]) -> Vec<String> {
    v.iter().map(|s| s.to_string()).collect()
}

#[test]
fn documented_dns_upstream_is_accepted() {
    let args = sv(&["--backend", "tap", "--infra", "eth1", "--stub", "eth2", "--dns-upstream", "192.0.2.53:53"]);
    let c = Config::parse(&args).unwrap().unwrap();
    assert_eq!(c.dns_upstreams.len(), 1);
    assert_eq!(c.dns_upstreams[0].port, 53);
    assert!(matches!(c.dns_upstreams[0].ip, snac_rs::dns::privacy::IpAddress::V4([192, 0, 2, 53])));
    let args = sv(&["--backend", "tap", "--infra", "a", "--stub", "b", "--dns-upstream", "[fd00::1:53]:853"]);
    let c = Config::parse(&args).unwrap().unwrap();
    let mut want = [0u8; 16];
    want[0] = 0xfd;
    want[13] = 1;
    want[15] = 0x53;
    assert!(matches!(c.dns_upstreams[0].ip, snac_rs::dns::privacy::IpAddress::V6(x) if x == want));
    assert_eq!(c.dns_upstreams[0].port, 853);
}

#[test]
fn dns_upstream_limits() {
    let mut args = sv(&["--backend", "tap", "--infra", "a", "--stub", "b"]);
    for i in 1..=8 {
        args.push("--dns-upstream".to_string());
        args.push(format!("192.0.2.{}:53", i));
    }
    assert_eq!(Config::parse(&args).unwrap().unwrap().dns_upstreams.len(), 8);
    args.push("--dns-upstream".to_string());
    args.push("192.0.2.9:53".to_string());
    assert_eq!(Config::parse(&args).unwrap_err(), ConfigError::TooManyUpstreams);
    for bad in ["192.0.2.1", "192.0.2.256:53", "192.0.2.01:53", "1.2.3.4:65536", "[fd00::1]53", "[1:2:3:4:5:6:7:8:9]:53", "[1::2::3]:53", "host:53"] {
        let a = sv(&["--backend", "tap", "--infra", "a", "--stub", "b", "--dns-upstream", bad]);
        assert_eq!(Config::parse(&a).unwrap_err(), ConfigError::BadUpstream, "{}", bad);
    }
}

#[test]
fn documented_options_are_accepted() {
    let args = sv(&[
        "--backend", "pcap", "--infra", "en6", "--stub", "en7", "--ula-policy", "fixed", "--attachment-id", "lab",
        "--nat64-config", "./nat64.conf", "--nat64-prefix", "64:ff9b::/96", "--allow-infrastructure-nat64-without-pd",
        "--srp-zone", "srp.example.", "--discovery-zone", "d.example.", "--discovery-host-zone", "h.example.",
        "--discovery-reverse-zone", "r.example.", "--dns-soa-rname", "hostmaster.example.", "--srp-max-lease", "7200",
        "--srp-max-key-lease", "86400", "--srp-min-ttl", "30", "--srp-max-ttl", "3600", "--no-additional-a",
        "--discovery-include-unusable", "--tsr-option-code", "65002", "--nat64", "disabled",
    ]);
    let c = Config::parse(&args).unwrap().unwrap();
    assert_eq!(c.ula_policy, Some(UlaPolicy::Fixed));
    assert_eq!(c.attachment_id.as_deref(), Some("lab"));
    assert_eq!(c.nat64_config.as_deref(), Some("./nat64.conf"));
    assert!(c.allow_infrastructure_nat64_without_pd);
    assert!(!c.nat64);
    assert_eq!(c.srp_zone.as_deref(), Some("srp.example."));
    assert_eq!(c.srp_max_key_lease, Some(86400));
    assert_eq!(c.srp_min_ttl, Some(30));
    assert!(c.no_additional_a);
    assert!(c.discovery_include_unusable);
    assert_eq!(c.tsr_option_code, Some(65002));
    let bad = sv(&["--backend", "tap", "--infra", "a", "--stub", "b", "--ula-policy", "never"]);
    assert_eq!(Config::parse(&bad).unwrap_err(), ConfigError::UnknownUlaPolicy);
    let bad = sv(&["--backend", "tap", "--infra", "a", "--stub", "b", "--tsr-option-code", "70000"]);
    assert_eq!(Config::parse(&bad).unwrap_err(), ConfigError::BadNumber);
    let bad = sv(&["--backend", "tap", "--infra", "a", "--stub", "b", "--srp-min-ttl", "-1"]);
    assert_eq!(Config::parse(&bad).unwrap_err(), ConfigError::BadNumber);
    let c = Config::parse(&sv(&["--backend", "tap", "--infra", "a", "--stub", "b"])).unwrap().unwrap();
    assert!(c.nat64);
    assert!(c.dns_upstreams.is_empty());
    assert_eq!(c.ula_policy, None);
}

#[test]
fn numeric_options_follow_integer_grammar() {
    let base = ["--backend", "tap", "--infra", "a", "--stub", "b"];
    let with = |k: &str, v: &str| {
        let mut a = sv(&base);
        a.push(k.to_string());
        a.push(v.to_string());
        Config::parse(&a)
    };
    assert_eq!(with("--srp-min-ttl", "0005").unwrap().unwrap().srp_min_ttl, Some(5));
    assert_eq!(with("--srp-min-ttl", "+7").unwrap().unwrap().srp_min_ttl, Some(7));
    assert_eq!(with("--srp-max-ttl", "2147483647").unwrap().unwrap().srp_max_ttl, Some(2147483647));
    assert_eq!(with("--srp-max-ttl", "2147483648").unwrap_err(), ConfigError::BadNumber);
    assert_eq!(with("--srp-max-ttl", "99999999999999").unwrap_err(), ConfigError::BadNumber);
    assert_eq!(with("--srp-max-ttl", "1x").unwrap_err(), ConfigError::BadNumber);
    assert_eq!(with("--srp-max-ttl", "").unwrap_err(), ConfigError::BadNumber);
    assert_eq!(with("--srp-max-ttl", "-").unwrap_err(), ConfigError::BadNumber);
}
