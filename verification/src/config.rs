//! Command-line configuration of the router.
use crate::dns::privacy::SocketAddress;
use crate::io::NativeFraming;
use endpoint::{parse_endpoint, spec_endpoint};
use vstd::prelude::*;

pub mod endpoint;

verus! {

/// The command-line synopsis.
pub const HELP: &'static str = "snac-router --backend tap|pcap --stub IF --infra IF [--state FILE]\n  --no-stub-default  --always-advertise-ail-routes\n  --ula-policy rotate|fixed  --attachment-id ID\n  --pcap-library PATH  (requires cargo feature pcap)\n  --infra-fd N --stub-fd N --framing ethernet|utun|raw (tap harness mode)\n  --nat64 disabled  --nat64-config FILE  --nat64-prefix PREFIX\n  --allow-infrastructure-nat64-without-pd\n  --dns-upstream IP:PORT (up to eight)  --no-additional-a\n  --srp-zone NAME --discovery-zone NAME --discovery-host-zone NAME\n  --discovery-reverse-zone NAME --dns-soa-rname NAME\n  --srp-max-lease S --srp-max-key-lease S --srp-min-ttl S --srp-max-ttl S\n  --discovery-include-unusable  --tsr-option-code N\nReal backends require root; --help opens no interfaces.";

#[derive(Clone, Copy, Debug, PartialEq, Eq, Structural)]
pub enum BackendKind {
    Tap,
    Pcap,
}

/// Why the command line was refused; `at` is the index of the offending argument.
#[derive(Clone, Copy, Debug, PartialEq, Eq, Structural)]
pub enum ConfigError {
    MissingValue { at: usize },
    UnknownBackend,
    Nat64Unsupported,
    BadDescriptor,
    UnknownFraming,
    UnknownOption { at: usize },
    MissingBackend,
    MissingInfra,
    MissingStub,
    SameInterfaces,
    DescriptorMode,
    UnknownUlaPolicy,
    BadUpstream,
    TooManyUpstreams,
    BadNumber,
}

/// How the site prefix follows attachment changes.
#[derive(Clone, Copy, Debug, PartialEq, Eq, Structural)]
pub enum UlaPolicy {
    Rotate,
    Fixed,
}

#[derive(Debug)]
pub struct Config {
    pub backend: BackendKind,
    pub infra: String,
    pub stub: String,
    pub state: String,
    pub no_stub_default: bool,
    pub always_advertise_ail_routes: bool,
    pub pcap_library: Option<String>,
    pub fds: Option<(i32, i32, NativeFraming)>,
    pub ula_policy: Option<UlaPolicy>,
    pub attachment_id: Option<String>,
    pub nat64: bool,
    pub nat64_config: Option<String>,
    pub nat64_prefix: Option<String>,
    pub allow_infrastructure_nat64_without_pd: bool,
    pub dns_upstreams: Vec<SocketAddress>,
    pub no_additional_a: bool,
    pub srp_zone: Option<String>,
    pub discovery_zone: Option<String>,
    pub discovery_host_zone: Option<String>,
    pub discovery_reverse_zone: Option<String>,
    pub dns_soa_rname: Option<String>,
    pub srp_max_lease: Option<u32>,
    pub srp_max_key_lease: Option<u32>,
    pub srp_min_ttl: Option<u32>,
    pub srp_max_ttl: Option<u32>,
    pub discovery_include_unusable: bool,
    pub tsr_option_code: Option<u16>,
}

/// The configuration with its texts taken as character sequences.
pub struct ConfigV {
    pub backend: BackendKind,
    pub infra: Seq<char>,
    pub stub: Seq<char>,
    pub state: Seq<char>,
    pub no_stub_default: bool,
    pub always_advertise_ail_routes: bool,
    pub pcap_library: Option<Seq<char>>,
    pub fds: Option<(i32, i32, NativeFraming)>,
    pub ula_policy: Option<UlaPolicy>,
    pub attachment_id: Option<Seq<char>>,
    pub nat64: bool,
    pub nat64_config: Option<Seq<char>>,
    pub nat64_prefix: Option<Seq<char>>,
    pub allow_infrastructure_nat64_without_pd: bool,
    pub dns_upstreams: Seq<SocketAddress>,
    pub no_additional_a: bool,
    pub srp_zone: Option<Seq<char>>,
    pub discovery_zone: Option<Seq<char>>,
    pub discovery_host_zone: Option<Seq<char>>,
    pub discovery_reverse_zone: Option<Seq<char>>,
    pub dns_soa_rname: Option<Seq<char>>,
    pub srp_max_lease: Option<u32>,
    pub srp_max_key_lease: Option<u32>,
    pub srp_min_ttl: Option<u32>,
    pub srp_max_ttl: Option<u32>,
    pub discovery_include_unusable: bool,
    pub tsr_option_code: Option<u16>,
}

pub open spec fn opt_view(o: Option<String>) -> Option<Seq<char>> {
    match o {
        Some(s) => Some(s@),
        None => None,
    }
}

impl View for Config {
    type V = ConfigV;

    open spec fn view(&self) -> ConfigV {
        ConfigV {
            backend: self.backend,
            infra: self.infra@,
            stub: self.stub@,
            state: self.state@,
            no_stub_default: self.no_stub_default,
            always_advertise_ail_routes: self.always_advertise_ail_routes,
            pcap_library: opt_view(self.pcap_library),
            fds: self.fds,
            ula_policy: self.ula_policy,
            attachment_id: opt_view(self.attachment_id),
            nat64: self.nat64,
            nat64_config: opt_view(self.nat64_config),
            nat64_prefix: opt_view(self.nat64_prefix),
            allow_infrastructure_nat64_without_pd: self.allow_infrastructure_nat64_without_pd,
            dns_upstreams: self.dns_upstreams@,
            no_additional_a: self.no_additional_a,
            srp_zone: opt_view(self.srp_zone),
            discovery_zone: opt_view(self.discovery_zone),
            discovery_host_zone: opt_view(self.discovery_host_zone),
            discovery_reverse_zone: opt_view(self.discovery_reverse_zone),
            dns_soa_rname: opt_view(self.dns_soa_rname),
            srp_max_lease: self.srp_max_lease,
            srp_max_key_lease: self.srp_max_key_lease,
            srp_min_ttl: self.srp_min_ttl,
            srp_max_ttl: self.srp_max_ttl,
            discovery_include_unusable: self.discovery_include_unusable,
            tsr_option_code: self.tsr_option_code,
        }
    }
}

/// What the options read so far have set.
pub struct Acc {
    pub backend: Option<BackendKind>,
    pub infra: Option<Seq<char>>,
    pub stub: Option<Seq<char>>,
    pub state: Seq<char>,
    pub no_stub_default: bool,
    pub always_advertise_ail_routes: bool,
    pub pcap_library: Option<Seq<char>>,
    pub infra_fd: Option<i32>,
    pub stub_fd: Option<i32>,
    pub framing: Option<NativeFraming>,
    pub ula_policy: Option<UlaPolicy>,
    pub attachment_id: Option<Seq<char>>,
    pub nat64: bool,
    pub nat64_config: Option<Seq<char>>,
    pub nat64_prefix: Option<Seq<char>>,
    pub allow_infrastructure_nat64_without_pd: bool,
    pub dns_upstreams: Seq<SocketAddress>,
    pub no_additional_a: bool,
    pub srp_zone: Option<Seq<char>>,
    pub discovery_zone: Option<Seq<char>>,
    pub discovery_host_zone: Option<Seq<char>>,
    pub discovery_reverse_zone: Option<Seq<char>>,
    pub dns_soa_rname: Option<Seq<char>>,
    pub srp_max_lease: Option<u32>,
    pub srp_max_key_lease: Option<u32>,
    pub srp_min_ttl: Option<u32>,
    pub srp_max_ttl: Option<u32>,
    pub discovery_include_unusable: bool,
    pub tsr_option_code: Option<u16>,
}

pub open spec fn acc_init() -> Acc {
    Acc {
        backend: None,
        infra: None,
        stub: None,
        state: "snac.state"@,
        no_stub_default: false,
        always_advertise_ail_routes: false,
        pcap_library: None,
        infra_fd: None,
        stub_fd: None,
        framing: None,
        ula_policy: None,
        attachment_id: None,
        nat64: true,
        nat64_config: None,
        nat64_prefix: None,
        allow_infrastructure_nat64_without_pd: false,
        dns_upstreams: Seq::empty(),
        no_additional_a: false,
        srp_zone: None,
        discovery_zone: None,
        discovery_host_zone: None,
        discovery_reverse_zone: None,
        dns_soa_rname: None,
        srp_max_lease: None,
        srp_max_key_lease: None,
        srp_min_ttl: None,
        srp_max_ttl: None,
        discovery_include_unusable: false,
        tsr_option_code: None,
    }
}

pub open spec fn decimal_digits(s: Seq<char>) -> bool {
    forall|i: int| 0 <= i < s.len() ==> '0' <= #[trigger] s[i] <= '9'
}

pub open spec fn decimal_value(s: Seq<char>) -> int
    decreases s.len(),
{
    if s.len() == 0 {
        0
    } else {
        decimal_value(s.drop_last()) * 10 + (s.last() as int - '0' as int)
    }
}

/// What `str::parse::<i32>` gives: an optional sign, then one or more decimal digits
/// whose value fits in an `i32`.
pub open spec fn spec_parse_i32(s: Seq<char>) -> Option<i32> {
    let neg = s.len() > 0 && s[0] == '-';
    let digits = if s.len() > 0 && (s[0] == '-' || s[0] == '+') { s.drop_first() } else { s };
    let v = if neg { -decimal_value(digits) } else { decimal_value(digits) };
    if digits.len() == 0 || !decimal_digits(digits) || v < i32::MIN || v > i32::MAX {
        None
    } else {
        Some(v as i32)
    }
}

proof fn lemma_decimal_grows(s: Seq<char>, k: int)
    requires
        0 <= k <= s.len(),
        decimal_digits(s),
    ensures
        decimal_value(s.take(k)) <= decimal_value(s),
        0 <= decimal_value(s.take(k)),
    decreases s.len() - k,
{
    if k < s.len() {
        lemma_decimal_grows(s, k + 1);
        assert(s.take(k + 1).drop_last() =~= s.take(k));
        assert('0' <= s[k] <= '9');
        lemma_decimal_nonneg(s.take(k));
    } else {
        assert(s.take(k) =~= s);
        lemma_decimal_nonneg(s);
    }
}

proof fn lemma_decimal_nonneg(s: Seq<char>)
    requires
        decimal_digits(s),
    ensures
        0 <= decimal_value(s),
    decreases s.len(),
{
    if s.len() > 0 {
        assert(decimal_digits(s.drop_last())) by {
            assert forall|i: int| 0 <= i < s.drop_last().len() implies '0' <= #[trigger] s.drop_last()[i] <= '9' by {
                assert(s.drop_last()[i] == s[i]);
            }
        }
        lemma_decimal_nonneg(s.drop_last());
        assert('0' <= s[s.len() - 1] <= '9');
    }
}

/// Reads a decimal `i32` as `str::parse::<i32>` does: an optional sign, then one or more
/// decimal digits whose value fits.
fn parse_i32(s: &String) -> (r: Option<i32>)
    ensures
        r == spec_parse_i32(s@),
{
    let v = endpoint::chars_of(s);
    let n = v.len();
    let neg = n > 0 && v[0] == '-';
    let start: usize = if n > 0 && (v[0] == '-' || v[0] == '+') { 1 } else { 0 };
    let ghost digits = if s@.len() > 0 && (s@[0] == '-' || s@[0] == '+') { s@.drop_first() } else { s@ };
    assert(digits =~= v@.subrange(start as int, n as int));
    if start == n {
        return None;
    }
    let mut acc: i64 = 0;
    let mut i: usize = start;
    while i < n
        invariant
            start <= i <= n == v@.len(),
            v@ == s@,
            digits == (if s@.len() > 0 && (s@[0] == '-' || s@[0] == '+') { s@.drop_first() } else { s@ }),
            neg == (s@.len() > 0 && s@[0] == '-'),
            digits == v@.subrange(start as int, n as int),
            forall|k: int| start <= k < i ==> '0' <= #[trigger] v@[k] <= '9',
            acc == decimal_value(digits.take(i - start)),
            0 <= acc <= 2147483648,
        decreases n - i,
    {
        let c = v[i];
        if !(c >= '0' && c <= '9') {
            assert(digits[i - start] == c);
            assert(!decimal_digits(digits));
            return None;
        }
        assert(digits.take(i - start + 1).drop_last() =~= digits.take(i - start));
        assert(digits.take(i - start + 1).last() == c);
        let next = acc * 10 + ((c as u32) - ('0' as u32)) as i64;
        i = i + 1;
        assert(next == decimal_value(digits.take(i - start)));
        if next > 2147483648 {
            acc = 2147483648;
            let mut j: usize = i;
            let mut ok = true;
            while j < n
                invariant
                    i <= j <= n == v@.len(),
                    ok == forall|k: int| i <= k < j ==> '0' <= #[trigger] v@[k] <= '9',
                decreases n - j,
            {
                ok = ok && v[j] >= '0' && v[j] <= '9';
                j = j + 1;
            }
            proof {
                if ok {
                    assert(decimal_digits(digits)) by {
                        assert forall|k: int| 0 <= k < digits.len() implies '0' <= #[trigger] digits[k] <= '9' by {
                            assert(digits[k] == v@[start + k]);
                        }
                    }
                    lemma_decimal_grows(digits, i - start);
                } else {
                    let k = choose|k: int| i <= k < n && !('0' <= #[trigger] v@[k] <= '9');
                    assert(digits[k - start] == v@[k]);
                }
            }
            return None;
        }
        acc = next;
    }
    assert(digits.take(n - start) =~= digits);
    assert(decimal_digits(digits)) by {
        assert forall|k: int| 0 <= k < digits.len() implies '0' <= #[trigger] digits[k] <= '9' by {
            assert(digits[k] == v@[start + k]);
        }
    }
    let value: i64 = if neg { -acc } else { acc };
    if value < -2147483648 || value > 2147483647 {
        return None;
    }
    Some(value as i32)
}

/// The effect of an option that takes the value `v`.
pub open spec fn apply(key: Seq<char>, v: Seq<char>, a: Acc) -> Result<Acc, ConfigError> {
    if key == "--backend"@ {
        if v == "tap"@ {
            Ok(Acc { backend: Some(BackendKind::Tap), ..a })
        } else if v == "pcap"@ {
            Ok(Acc { backend: Some(BackendKind::Pcap), ..a })
        } else {
            Err(ConfigError::UnknownBackend)
        }
    } else if key == "--infra"@ {
        Ok(Acc { infra: Some(v), ..a })
    } else if key == "--stub"@ {
        Ok(Acc { stub: Some(v), ..a })
    } else if key == "--state"@ {
        Ok(Acc { state: v, ..a })
    } else if key == "--pcap-library"@ {
        Ok(Acc { pcap_library: Some(v), ..a })
    } else if key == "--nat64"@ {
        if v == "disabled"@ {
            Ok(Acc { nat64: false, ..a })
        } else {
            Err(ConfigError::Nat64Unsupported)
        }
    } else if key == "--infra-fd"@ {
        match spec_parse_i32(v) {
            Some(n) => Ok(Acc { infra_fd: Some(n), ..a }),
            None => Err(ConfigError::BadDescriptor),
        }
    } else if key == "--stub-fd"@ {
        match spec_parse_i32(v) {
            Some(n) => Ok(Acc { stub_fd: Some(n), ..a }),
            None => Err(ConfigError::BadDescriptor),
        }
    } else if key == "--framing"@ {
        if v == "ethernet"@ {
            Ok(Acc { framing: Some(NativeFraming::Tap), ..a })
        } else if v == "utun"@ {
            Ok(Acc { framing: Some(NativeFraming::Utun), ..a })
        } else if v == "raw"@ {
            Ok(Acc { framing: Some(NativeFraming::RawIpv6), ..a })
        } else {
            Err(ConfigError::UnknownFraming)
        }
    } else if key == "--ula-policy"@ {
        if v == "rotate"@ {
            Ok(Acc { ula_policy: Some(UlaPolicy::Rotate), ..a })
        } else if v == "fixed"@ {
            Ok(Acc { ula_policy: Some(UlaPolicy::Fixed), ..a })
        } else {
            Err(ConfigError::UnknownUlaPolicy)
        }
    } else if key == "--dns-upstream"@ {
        match spec_endpoint(v) {
            None => Err(ConfigError::BadUpstream),
            Some(e) => if a.dns_upstreams.len() >= 8 {
                Err(ConfigError::TooManyUpstreams)
            } else {
                Ok(Acc { dns_upstreams: a.dns_upstreams.push(e), ..a })
            },
        }
    } else if key == "--tsr-option-code"@ {
        match spec_parse_i32(v) {
            Some(n) => if 0 <= n <= 65535 {
                Ok(Acc { tsr_option_code: Some(n as u16), ..a })
            } else {
                Err(ConfigError::BadNumber)
            },
            None => Err(ConfigError::BadNumber),
        }
    } else if key == "--attachment-id"@ {
        Ok(Acc { attachment_id: Some(v), ..a })
    } else if key == "--nat64-config"@ {
        Ok(Acc { nat64_config: Some(v), ..a })
    } else if key == "--nat64-prefix"@ {
        Ok(Acc { nat64_prefix: Some(v), ..a })
    } else if key == "--srp-zone"@ {
        Ok(Acc { srp_zone: Some(v), ..a })
    } else if key == "--discovery-zone"@ {
        Ok(Acc { discovery_zone: Some(v), ..a })
    } else if key == "--discovery-host-zone"@ {
        Ok(Acc { discovery_host_zone: Some(v), ..a })
    } else if key == "--discovery-reverse-zone"@ {
        Ok(Acc { discovery_reverse_zone: Some(v), ..a })
    } else if key == "--dns-soa-rname"@ {
        Ok(Acc { dns_soa_rname: Some(v), ..a })
    } else if key == "--srp-max-lease"@ {
        match spec_parse_i32(v) {
            Some(n) => if n >= 0 {
                Ok(Acc { srp_max_lease: Some(n as u32), ..a })
            } else {
                Err(ConfigError::BadNumber)
            },
            None => Err(ConfigError::BadNumber),
        }
    } else if key == "--srp-max-key-lease"@ {
        match spec_parse_i32(v) {
            Some(n) => if n >= 0 {
                Ok(Acc { srp_max_key_lease: Some(n as u32), ..a })
            } else {
                Err(ConfigError::BadNumber)
            },
            None => Err(ConfigError::BadNumber),
        }
    } else if key == "--srp-min-ttl"@ {
        match spec_parse_i32(v) {
            Some(n) => if n >= 0 {
                Ok(Acc { srp_min_ttl: Some(n as u32), ..a })
            } else {
                Err(ConfigError::BadNumber)
            },
            None => Err(ConfigError::BadNumber),
        }
    } else if key == "--srp-max-ttl"@ {
        match spec_parse_i32(v) {
            Some(n) => if n >= 0 {
                Ok(Acc { srp_max_ttl: Some(n as u32), ..a })
            } else {
                Err(ConfigError::BadNumber)
            },
            None => Err(ConfigError::BadNumber),
        }
    } else {
        Err(ConfigError::UnknownOption { at: 0 })
    }
}

/// Reads the options from position `i` on: flags stand alone, every other option takes
/// the next argument as its value.
pub open spec fn walk(args: Seq<Seq<char>>, i: int, a: Acc) -> Result<Acc, ConfigError>
    decreases args.len() - i,
{
    if i < 0 || i >= args.len() {
        Ok(a)
    } else if args[i] == "--no-stub-default"@ {
        walk(args, i + 1, Acc { no_stub_default: true, ..a })
    } else if args[i] == "--always-advertise-ail-routes"@ {
        walk(args, i + 1, Acc { always_advertise_ail_routes: true, ..a })
    } else if args[i] == "--allow-infrastructure-nat64-without-pd"@ {
        walk(args, i + 1, Acc { allow_infrastructure_nat64_without_pd: true, ..a })
    } else if args[i] == "--no-additional-a"@ {
        walk(args, i + 1, Acc { no_additional_a: true, ..a })
    } else if args[i] == "--discovery-include-unusable"@ {
        walk(args, i + 1, Acc { discovery_include_unusable: true, ..a })
    } else if i + 1 >= args.len() {
        Err(ConfigError::MissingValue { at: i as usize })
    } else {
        match apply(args[i], args[i + 1], a) {
            Err(ConfigError::UnknownOption { .. }) => Err(ConfigError::UnknownOption { at: i as usize }),
            Err(e) => Err(e),
            Ok(b) => walk(args, i + 2, b),
        }
    }
}

/// The configuration that the options read give, or why they are incomplete.
pub open spec fn finish(a: Acc) -> Result<ConfigV, ConfigError> {
    if a.backend is None {
        Err(ConfigError::MissingBackend)
    } else if a.infra is None {
        Err(ConfigError::MissingInfra)
    } else if a.stub is None {
        Err(ConfigError::MissingStub)
    } else if a.infra->0 == a.stub->0 || a.infra->0.len() == 0 || a.stub->0.len() == 0 {
        Err(ConfigError::SameInterfaces)
    } else {
        let fds = match (a.infra_fd, a.stub_fd, a.framing) {
            (None, None, None) => Ok(None),
            (Some(x), Some(y), Some(f)) => if x >= 0 && y >= 0 && x != y && a.backend->0
                == BackendKind::Tap {
                Ok(Some((x, y, f)))
            } else {
                Err(ConfigError::DescriptorMode)
            },
            _ => Err(ConfigError::DescriptorMode),
        };
        match fds {
            Err(e) => Err(e),
            Ok(fds) => Ok(
                ConfigV {
                    backend: a.backend->0,
                    infra: a.infra->0,
                    stub: a.stub->0,
                    state: a.state,
                    no_stub_default: a.no_stub_default,
                    always_advertise_ail_routes: a.always_advertise_ail_routes,
                    pcap_library: a.pcap_library,
                    fds,
                    ula_policy: a.ula_policy,
                    attachment_id: a.attachment_id,
                    nat64: a.nat64,
                    nat64_config: a.nat64_config,
                    nat64_prefix: a.nat64_prefix,
                    allow_infrastructure_nat64_without_pd: a.allow_infrastructure_nat64_without_pd,
                    dns_upstreams: a.dns_upstreams,
                    no_additional_a: a.no_additional_a,
                    srp_zone: a.srp_zone,
                    discovery_zone: a.discovery_zone,
                    discovery_host_zone: a.discovery_host_zone,
                    discovery_reverse_zone: a.discovery_reverse_zone,
                    dns_soa_rname: a.dns_soa_rname,
                    srp_max_lease: a.srp_max_lease,
                    srp_max_key_lease: a.srp_max_key_lease,
                    srp_min_ttl: a.srp_min_ttl,
                    srp_max_ttl: a.srp_max_ttl,
                    discovery_include_unusable: a.discovery_include_unusable,
                    tsr_option_code: a.tsr_option_code,
                },
            ),
        }
    }
}

pub open spec fn asks_help(args: Seq<Seq<char>>) -> bool {
    exists|i: int| 0 <= i < args.len() && (#[trigger] args[i] == "--help"@ || args[i] == "-h"@)
}

pub open spec fn strings_view(v: Seq<String>) -> Seq<Seq<char>> {
    v.map_values(|s: String| s@)
}

/// What the command line asks for: `None` for help, else the configuration or the refusal.
pub open spec fn spec_parse(args: Seq<Seq<char>>) -> Result<Option<ConfigV>, ConfigError> {
    if asks_help(args) {
        Ok(None)
    } else {
        match walk(args, 0, acc_init()) {
            Err(e) => Err(e),
            Ok(a) => match finish(a) {
                Err(e) => Err(e),
                Ok(c) => Ok(Some(c)),
            },
        }
    }
}

fn same(a: &String, lit: &str) -> (r: bool)
    ensures
        r == (a@ == lit@),
{
    let l = lit.to_owned();
    a.eq(&l)
}

fn opt_clone(o: &Option<String>) -> (r: Option<String>)
    ensures
        opt_view(r) == opt_view(*o),
{
    match o {
        Some(s) => Some(s.clone()),
        None => None,
    }
}

struct Options {
    backend: Option<BackendKind>,
    infra: Option<String>,
    stub: Option<String>,
    state: String,
    no_stub_default: bool,
    always_advertise_ail_routes: bool,
    pcap_library: Option<String>,
    infra_fd: Option<i32>,
    stub_fd: Option<i32>,
    framing: Option<NativeFraming>,
    ula_policy: Option<UlaPolicy>,
    attachment_id: Option<String>,
    nat64_config: Option<String>,
    nat64_prefix: Option<String>,
    srp_zone: Option<String>,
    discovery_zone: Option<String>,
    discovery_host_zone: Option<String>,
    discovery_reverse_zone: Option<String>,
    dns_soa_rname: Option<String>,
    nat64: bool,
    allow_infrastructure_nat64_without_pd: bool,
    dns_upstreams: Vec<SocketAddress>,
    no_additional_a: bool,
    discovery_include_unusable: bool,
    tsr_option_code: Option<u16>,
    srp_max_lease: Option<u32>,
    srp_max_key_lease: Option<u32>,
    srp_min_ttl: Option<u32>,
    srp_max_ttl: Option<u32>,
}

impl View for Options {
    type V = Acc;

    closed spec fn view(&self) -> Acc {
        Acc {
            backend: self.backend,
            infra: opt_view(self.infra),
            stub: opt_view(self.stub),
            state: self.state@,
            no_stub_default: self.no_stub_default,
            always_advertise_ail_routes: self.always_advertise_ail_routes,
            pcap_library: opt_view(self.pcap_library),
            infra_fd: self.infra_fd,
            stub_fd: self.stub_fd,
            framing: self.framing,
            ula_policy: self.ula_policy,
            attachment_id: opt_view(self.attachment_id),
            nat64: self.nat64,
            nat64_config: opt_view(self.nat64_config),
            nat64_prefix: opt_view(self.nat64_prefix),
            allow_infrastructure_nat64_without_pd: self.allow_infrastructure_nat64_without_pd,
            dns_upstreams: self.dns_upstreams@,
            no_additional_a: self.no_additional_a,
            srp_zone: opt_view(self.srp_zone),
            discovery_zone: opt_view(self.discovery_zone),
            discovery_host_zone: opt_view(self.discovery_host_zone),
            discovery_reverse_zone: opt_view(self.discovery_reverse_zone),
            dns_soa_rname: opt_view(self.dns_soa_rname),
            srp_max_lease: self.srp_max_lease,
            srp_max_key_lease: self.srp_max_key_lease,
            srp_min_ttl: self.srp_min_ttl,
            srp_max_ttl: self.srp_max_ttl,
            discovery_include_unusable: self.discovery_include_unusable,
            tsr_option_code: self.tsr_option_code,
        }
    }
}

pub open spec fn result_matches(r: Result<Acc, ConfigError>, e: Result<Acc, ConfigError>) -> bool {
    match e {
        Ok(x) => r == Ok::<Acc, ConfigError>(x),
        Err(ConfigError::UnknownOption { .. }) => r matches Err(ConfigError::UnknownOption { .. }),
        Err(x) => r == Err::<Acc, ConfigError>(x),
    }
}

fn apply_option(key: &String, v: &String, a: Options) -> (r: Result<Options, ConfigError>)
    ensures
        match r {
            Ok(b) => apply(key@, v@, a@) == Ok::<Acc, ConfigError>(b@),
            Err(ConfigError::UnknownOption { .. }) => apply(key@, v@, a@) matches Err(
                ConfigError::UnknownOption { .. },
            ),
            Err(e) => apply(key@, v@, a@) == Err::<Acc, ConfigError>(e),
        },
{
    let mut a = a;
    if same(key, "--backend") {
        if same(v, "tap") {
            a.backend = Some(BackendKind::Tap);
        } else if same(v, "pcap") {
            a.backend = Some(BackendKind::Pcap);
        } else {
            return Err(ConfigError::UnknownBackend);
        }
    } else if same(key, "--infra") {
        a.infra = Some(v.clone());
    } else if same(key, "--stub") {
        a.stub = Some(v.clone());
    } else if same(key, "--state") {
        a.state = v.clone();
    } else if same(key, "--pcap-library") {
        a.pcap_library = Some(v.clone());
    } else if same(key, "--nat64") {
        if !same(v, "disabled") {
            return Err(ConfigError::Nat64Unsupported);
        }
        a.nat64 = false;
    } else if same(key, "--infra-fd") {
        match parse_i32(v) {
            Some(n) => a.infra_fd = Some(n),
            None => return Err(ConfigError::BadDescriptor),
        }
    } else if same(key, "--stub-fd") {
        match parse_i32(v) {
            Some(n) => a.stub_fd = Some(n),
            None => return Err(ConfigError::BadDescriptor),
        }
    } else if same(key, "--framing") {
        if same(v, "ethernet") {
            a.framing = Some(NativeFraming::Tap);
        } else if same(v, "utun") {
            a.framing = Some(NativeFraming::Utun);
        } else if same(v, "raw") {
            a.framing = Some(NativeFraming::RawIpv6);
        } else {
            return Err(ConfigError::UnknownFraming);
        }
    } else if same(key, "--ula-policy") {
        if same(v, "rotate") {
            a.ula_policy = Some(UlaPolicy::Rotate);
        } else if same(v, "fixed") {
            a.ula_policy = Some(UlaPolicy::Fixed);
        } else {
            return Err(ConfigError::UnknownUlaPolicy);
        }
    } else if same(key, "--dns-upstream") {
        match parse_endpoint(v) {
            None => return Err(ConfigError::BadUpstream),
            Some(e) => {
                if a.dns_upstreams.len() >= 8 {
                    return Err(ConfigError::TooManyUpstreams);
                }
                a.dns_upstreams.push(e);
            },
        }
    } else if same(key, "--tsr-option-code") {
        match parse_i32(v) {
            Some(n) => {
                if 0 <= n && n <= 65535 {
                    a.tsr_option_code = Some(n as u16);
                } else {
                    return Err(ConfigError::BadNumber);
                }
            },
            None => return Err(ConfigError::BadNumber),
        }
    } else if same(key, "--attachment-id") {
        a.attachment_id = Some(v.clone());
    } else if same(key, "--nat64-config") {
        a.nat64_config = Some(v.clone());
    } else if same(key, "--nat64-prefix") {
        a.nat64_prefix = Some(v.clone());
    } else if same(key, "--srp-zone") {
        a.srp_zone = Some(v.clone());
    } else if same(key, "--discovery-zone") {
        a.discovery_zone = Some(v.clone());
    } else if same(key, "--discovery-host-zone") {
        a.discovery_host_zone = Some(v.clone());
    } else if same(key, "--discovery-reverse-zone") {
        a.discovery_reverse_zone = Some(v.clone());
    } else if same(key, "--dns-soa-rname") {
        a.dns_soa_rname = Some(v.clone());
    } else if same(key, "--srp-max-lease") {
        match parse_i32(v) {
            Some(n) => {
                if n >= 0 {
                    a.srp_max_lease = Some(n as u32);
                } else {
                    return Err(ConfigError::BadNumber);
                }
            },
            None => return Err(ConfigError::BadNumber),
        }
    } else if same(key, "--srp-max-key-lease") {
        match parse_i32(v) {
            Some(n) => {
                if n >= 0 {
                    a.srp_max_key_lease = Some(n as u32);
                } else {
                    return Err(ConfigError::BadNumber);
                }
            },
            None => return Err(ConfigError::BadNumber),
        }
    } else if same(key, "--srp-min-ttl") {
        match parse_i32(v) {
            Some(n) => {
                if n >= 0 {
                    a.srp_min_ttl = Some(n as u32);
                } else {
                    return Err(ConfigError::BadNumber);
                }
            },
            None => return Err(ConfigError::BadNumber),
        }
    } else if same(key, "--srp-max-ttl") {
        match parse_i32(v) {
            Some(n) => {
                if n >= 0 {
                    a.srp_max_ttl = Some(n as u32);
                } else {
                    return Err(ConfigError::BadNumber);
                }
            },
            None => return Err(ConfigError::BadNumber),
        }
    } else {
        return Err(ConfigError::UnknownOption { at: 0 });
    }
    Ok(a)
}

impl Config {
    /// Reads the command line (without the program name): `Ok(None)` when it asks for help.
    pub fn parse(args: &Vec<String>) -> (r: Result<Option<Config>, ConfigError>)
        ensures
            match r {
                Ok(Some(c)) => spec_parse(strings_view(args@)) == Ok::<Option<ConfigV>, ConfigError>(Some(c@)),
                Ok(None) => spec_parse(strings_view(args@)) == Ok::<Option<ConfigV>, ConfigError>(None),
                Err(e) => spec_parse(strings_view(args@)) == Err::<Option<ConfigV>, ConfigError>(e),
            },
    {
        let ghost sv = strings_view(args@);
        let n = args.len();
        let mut k: usize = 0;
        while k < n
            invariant
                n == args@.len(),
                sv == strings_view(args@),
                0 <= k <= n,
                forall|j: int| 0 <= j < k ==> !(sv[j] == "--help"@ || sv[j] == "-h"@),
            decreases n - k,
        {
            if same(&args[k], "--help") || same(&args[k], "-h") {
                assert(sv[k as int] == args@[k as int]@);
                return Ok(None);
            }
            k = k + 1;
        }
        assert(!asks_help(sv));
        let mut a = Options {
            backend: None,
            infra: None,
            stub: None,
            state: "snac.state".to_owned(),
            no_stub_default: false,
            always_advertise_ail_routes: false,
            pcap_library: None,
            infra_fd: None,
            stub_fd: None,
            framing: None,
            ula_policy: None,
            attachment_id: None,
            nat64_config: None,
            nat64_prefix: None,
            srp_zone: None,
            discovery_zone: None,
            discovery_host_zone: None,
            discovery_reverse_zone: None,
            dns_soa_rname: None,
            nat64: true,
            allow_infrastructure_nat64_without_pd: false,
            dns_upstreams: Vec::new(),
            no_additional_a: false,
            discovery_include_unusable: false,
            tsr_option_code: None,
            srp_max_lease: None,
            srp_max_key_lease: None,
            srp_min_ttl: None,
            srp_max_ttl: None,
        };
        assert(a@.dns_upstreams =~= Seq::<SocketAddress>::empty());
        assert(a@ == acc_init());
        let mut i: usize = 0;
        while i < n
            invariant
                n == args@.len(),
                sv == strings_view(args@),
                0 <= i <= n,
                !asks_help(sv),
                walk(sv, 0, acc_init()) == walk(sv, i as int, a@),
            decreases n - i,
        {
            assert(sv[i as int] == args@[i as int]@);
            if same(&args[i], "--no-stub-default") {
                a.no_stub_default = true;
                i = i + 1;
            } else if same(&args[i], "--always-advertise-ail-routes") {
                a.always_advertise_ail_routes = true;
                i = i + 1;
            } else if same(&args[i], "--allow-infrastructure-nat64-without-pd") {
                a.allow_infrastructure_nat64_without_pd = true;
                i = i + 1;
            } else if same(&args[i], "--no-additional-a") {
                a.no_additional_a = true;
                i = i + 1;
            } else if same(&args[i], "--discovery-include-unusable") {
                a.discovery_include_unusable = true;
                i = i + 1;
            } else if i + 1 >= n {
                return Err(ConfigError::MissingValue { at: i });
            } else {
                assert(sv[i + 1] == args@[i + 1]@);
                match apply_option(&args[i], &args[i + 1], a) {
                    Err(ConfigError::UnknownOption { .. }) => {
                        return Err(ConfigError::UnknownOption { at: i });
                    },
                    Err(e) => {
                        return Err(e);
                    },
                    Ok(b) => {
                        a = b;
                        i = i + 2;
                    },
                }
            }
        }
        let backend = match a.backend {
            Some(b) => b,
            None => return Err(ConfigError::MissingBackend),
        };
        let infra = match a.infra {
            Some(s) => s,
            None => return Err(ConfigError::MissingInfra),
        };
        let stub = match a.stub {
            Some(s) => s,
            None => return Err(ConfigError::MissingStub),
        };
        if infra.eq(&stub) || infra.as_str().is_empty() || stub.as_str().is_empty() {
            return Err(ConfigError::SameInterfaces);
        }
        let fds = match (a.infra_fd, a.stub_fd, a.framing) {
            (None, None, None) => None,
            (Some(x), Some(y), Some(f)) => {
                if x >= 0 && y >= 0 && x != y && backend == BackendKind::Tap {
                    Some((x, y, f))
                } else {
                    return Err(ConfigError::DescriptorMode);
                }
            },
            _ => return Err(ConfigError::DescriptorMode),
        };
        Ok(
            Some(
                Config {
                    backend,
                    infra,
                    stub,
                    state: a.state,
                    no_stub_default: a.no_stub_default,
                    always_advertise_ail_routes: a.always_advertise_ail_routes,
                    pcap_library: a.pcap_library,
                    fds,
                    ula_policy: a.ula_policy,
                    attachment_id: a.attachment_id,
                    nat64: a.nat64,
                    nat64_config: a.nat64_config,
                    nat64_prefix: a.nat64_prefix,
                    allow_infrastructure_nat64_without_pd: a.allow_infrastructure_nat64_without_pd,
                    dns_upstreams: a.dns_upstreams,
                    no_additional_a: a.no_additional_a,
                    srp_zone: a.srp_zone,
                    discovery_zone: a.discovery_zone,
                    discovery_host_zone: a.discovery_host_zone,
                    discovery_reverse_zone: a.discovery_reverse_zone,
                    dns_soa_rname: a.dns_soa_rname,
                    srp_max_lease: a.srp_max_lease,
                    srp_max_key_lease: a.srp_max_key_lease,
                    srp_min_ttl: a.srp_min_ttl,
                    srp_max_ttl: a.srp_max_ttl,
                    discovery_include_unusable: a.discovery_include_unusable,
                    tsr_option_code: a.tsr_option_code,
                },
            ),
        )
    }
}

} // verus!
