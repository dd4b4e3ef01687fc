//! Per-resolver encrypted-DNS policy: TLS probing of the designated (or opportunistic)
//! encrypted resolver, DDR discovery with alias following, and the route each query takes.
use super::address::{ip_text, spec_ip_text};
use super::{
    aliases, alias_discovery, ddr_records, spec_designations, ddr_acceptable, ddr_candidates, designations_view, ip_multicast, ip_unspecified, origin_usable, Designation, DesignationV,
    Discovery, DiscoveryV, IpAddress, SocketAddress,
};
use crate::bytes::be16_bytes;
use crate::dns::name::{canonical_wire, labels_view, Name};
use crate::dns::wire::{Message, MessageV};
use crate::error::Error;
use crate::ipv4::sat_add;
use crate::mdns::cache::store::{bytes_less, bytes_lt, lemma_bytes_lt_irreflexive, lemma_bytes_lt_total, lemma_bytes_lt_transitive};
use crate::time::RandomSource;
use vstd::prelude::*;

verus! {

/// A TLS handshake to try with an encrypted resolver.
#[derive(Debug)]
pub struct TlsProbe {
    pub id: u64,
    pub origin: SocketAddress,
    pub endpoint: SocketAddress,
    pub server_name: String,
    pub expires: u64,
}

/// A DDR query to send to a resolver.
#[derive(Debug)]
pub struct DdrProbe {
    pub id: u64,
    pub origin: SocketAddress,
    pub name: Name,
}

#[derive(Debug)]
pub enum Probe {
    Tls(TlsProbe),
    Ddr(DdrProbe),
}

/// How queries to a resolver go: in plain text, with the reason, or over TLS.
#[derive(Debug)]
pub enum Route {
    Plain { reason: &'static str },
    Tls(Designation),
}

pub struct TlsProbeV {
    pub id: u64,
    pub origin: SocketAddress,
    pub endpoint: SocketAddress,
    pub server_name: Seq<char>,
    pub expires: u64,
}

impl View for TlsProbe {
    type V = TlsProbeV;

    open spec fn view(&self) -> TlsProbeV {
        TlsProbeV {
            id: self.id,
            origin: self.origin,
            endpoint: self.endpoint,
            server_name: self.server_name@,
            expires: self.expires,
        }
    }
}

pub struct DdrProbeV {
    pub id: u64,
    pub origin: SocketAddress,
    pub name: Seq<Seq<u8>>,
}

pub enum ProbeV {
    Tls(TlsProbeV),
    Ddr(DdrProbeV),
}

impl View for Probe {
    type V = ProbeV;

    open spec fn view(&self) -> ProbeV {
        match self {
            Probe::Tls(t) => ProbeV::Tls(t@),
            Probe::Ddr(d) => ProbeV::Ddr(DdrProbeV { id: d.id, origin: d.origin, name: d.name@ }),
        }
    }
}

pub enum RouteV {
    Plain(Seq<char>),
    Tls(DesignationV),
}

impl View for Route {
    type V = RouteV;

    open spec fn view(&self) -> RouteV {
        match self {
            Route::Plain { reason } => RouteV::Plain(reason@),
            Route::Tls(d) => RouteV::Tls(d@),
        }
    }
}

enum TlsState {
    Due(u64),
    Waiting { probe: TlsProbe, until: u64 },
    Idle(u64),
}

pub enum TlsStateV {
    Due(u64),
    Waiting { probe: TlsProbeV, until: u64 },
    Idle(u64),
}

#[derive(Clone, Copy)]
pub enum DdrState {
    Due(u64),
    Waiting { id: u64, until: u64 },
    Idle(u64),
}

struct Endpoint {
    origin: SocketAddress,
    desired: Option<Designation>,
    working: Option<Designation>,
    tls: TlsState,
    ddr: DdrState,
    path: Vec<Name>,
    alias_expires: u64,
    reason: &'static str,
}

pub struct EndpointV {
    pub origin: SocketAddress,
    pub desired: Option<DesignationV>,
    pub working: Option<DesignationV>,
    pub tls: TlsStateV,
    pub ddr: DdrState,
    pub path: Seq<Seq<Seq<u8>>>,
    pub alias_expires: u64,
    pub reason: Seq<char>,
}

pub open spec fn opt_designation(d: Option<Designation>) -> Option<DesignationV> {
    match d {
        Some(x) => Some(x@),
        None => None,
    }
}

spec fn tls_view(t: TlsState) -> TlsStateV {
    match t {
        TlsState::Due(x) => TlsStateV::Due(x),
        TlsState::Waiting { probe, until } => TlsStateV::Waiting { probe: probe@, until },
        TlsState::Idle(x) => TlsStateV::Idle(x),
    }
}

pub open spec fn paths_view(v: Seq<Name>) -> Seq<Seq<Seq<u8>>> {
    v.map_values(|n: Name| n@)
}

spec fn endpoint_view(e: Endpoint) -> EndpointV {
    EndpointV {
        origin: e.origin,
        desired: opt_designation(e.desired),
        working: opt_designation(e.working),
        tls: tls_view(e.tls),
        ddr: e.ddr,
        path: paths_view(e.path@),
        alias_expires: e.alias_expires,
        reason: e.reason@,
    }
}

spec fn endpoints_view(v: Seq<Endpoint>) -> Seq<EndpointV> {
    v.map_values(|e: Endpoint| endpoint_view(e))
}

pub struct PolicyV {
    pub endpoints: Seq<EndpointV>,
    pub sequence: u64,
    pub explicit: bool,
}

/// The resolver policy: one endpoint per origin resolver, in address order.
pub struct Policy {
    endpoints: Vec<Endpoint>,
    sequence: u64,
    explicit: bool,
}

impl View for Policy {
    type V = PolicyV;

    closed spec fn view(&self) -> PolicyV {
        PolicyV { endpoints: endpoints_view(self.endpoints@), sequence: self.sequence, explicit: self.explicit }
    }
}

/// The order of socket addresses: IPv4 before IPv6, then by address, then by port.
pub open spec fn sock_key(s: SocketAddress) -> Seq<u8> {
    (match s.ip {
        IpAddress::V4(a) => seq![0u8] + a@,
        IpAddress::V6(a) => seq![1u8] + a@,
    }) + be16_bytes(s.port)
}

pub proof fn lemma_sock_key_injective(a: SocketAddress, b: SocketAddress)
    requires
        sock_key(a) == sock_key(b),
    ensures
        a == b,
{
    let (ka, kb) = (sock_key(a), sock_key(b));
    assert(ka[0] == kb[0]);
    match (a.ip, b.ip) {
        (IpAddress::V4(x), IpAddress::V4(y)) => {
            assert forall|i: int| 0 <= i < 4 implies x@[i] == y@[i] by {
                assert(ka[1 + i] == kb[1 + i]);
            }
            assert(x@ =~= y@);
            assert(x =~= y);
            assert(ka[5] == be16_bytes(a.port)[0] && ka[6] == be16_bytes(a.port)[1]);
            assert(kb[5] == be16_bytes(b.port)[0] && kb[6] == be16_bytes(b.port)[1]);
            crate::bytes::lemma_be16_roundtrip(a.port);
            crate::bytes::lemma_be16_roundtrip(b.port);
        },
        (IpAddress::V6(x), IpAddress::V6(y)) => {
            assert forall|i: int| 0 <= i < 16 implies x@[i] == y@[i] by {
                assert(ka[1 + i] == kb[1 + i]);
            }
            assert(x@ =~= y@);
            assert(x =~= y);
            assert(ka[17] == be16_bytes(a.port)[0] && ka[18] == be16_bytes(a.port)[1]);
            assert(kb[17] == be16_bytes(b.port)[0] && kb[18] == be16_bytes(b.port)[1]);
            crate::bytes::lemma_be16_roundtrip(a.port);
            crate::bytes::lemma_be16_roundtrip(b.port);
        },
        (IpAddress::V4(x), IpAddress::V6(y)) => {
            assert(ka[0] == 0 && kb[0] == 1);
        },
        (IpAddress::V6(x), IpAddress::V4(y)) => {
            assert(ka[0] == 1 && kb[0] == 0);
        },
    }
}

/// `_dns.resolver.arpa.`, where DDR starts.
pub open spec fn ddr_start() -> Seq<Seq<u8>> {
    seq![seq![95u8, 100u8, 110u8, 115u8], seq![114u8, 101u8, 115u8, 111u8, 108u8, 118u8, 101u8, 114u8], seq![97u8, 114u8, 112u8, 97u8]]
}

/// A fresh endpoint: both probes due now.
pub open spec fn new_endpoint(origin: SocketAddress, now: u64) -> EndpointV {
    EndpointV {
        origin,
        desired: None,
        working: None,
        tls: TlsStateV::Due(now),
        ddr: DdrState::Due(now),
        path: seq![ddr_start()],
        alias_expires: u64::MAX,
        reason: "probing encrypted DNS"@,
    }
}

/// Endpoints in strictly increasing address order, each with a DDR path of 1..=17 names.
pub open spec fn endpoints_ok(es: Seq<EndpointV>) -> bool {
    &&& forall|i: int, j: int| 0 <= i < j < es.len() ==> bytes_lt(sock_key(#[trigger] es[i].origin), sock_key(#[trigger] es[j].origin))
    &&& forall|i: int| 0 <= i < es.len() ==> 1 <= (#[trigger] es[i]).path.len() <= 17
}

/// An origin resolver that may be probed: a port, and a unicast address.
pub open spec fn origin_ok(o: SocketAddress) -> bool {
    o.port != 0 && !ip_unspecified(o.ip) && !ip_multicast(o.ip)
}

/// The endpoint for `origin`, if any.
pub open spec fn find_origin(es: Seq<EndpointV>, origin: SocketAddress) -> Option<int> {
    if exists|i: int| 0 <= i < es.len() && es[i].origin == origin {
        Some(choose|i: int| 0 <= i < es.len() && es[i].origin == origin)
    } else {
        None
    }
}

pub proof fn lemma_find_origin_unique(es: Seq<EndpointV>, origin: SocketAddress, i: int)
    requires
        endpoints_ok(es),
        0 <= i < es.len(),
        es[i].origin == origin,
    ensures
        find_origin(es, origin) == Some(i),
{
    let k = choose|k: int| 0 <= k < es.len() && es[k].origin == origin;
    if k != i {
        lemma_bytes_lt_irreflexive(sock_key(origin));
        if k < i {
            assert(bytes_lt(sock_key(es[k].origin), sock_key(es[i].origin)));
        } else {
            assert(bytes_lt(sock_key(es[i].origin), sock_key(es[k].origin)));
        }
    }
}

pub(crate) fn sock_key_exec(s: &SocketAddress) -> (r: Vec<u8>)
    ensures
        r@ == sock_key(*s),
{
    let mut out: Vec<u8> = Vec::new();
    match &s.ip {
        IpAddress::V4(a) => {
            out.push(0);
            crate::bytes::push_bytes(&mut out, a.as_slice());
        },
        IpAddress::V6(a) => {
            out.push(1);
            crate::bytes::push_bytes(&mut out, a.as_slice());
        },
    }
    crate::bytes::push_u16(&mut out, s.port);
    assert(out@ =~= sock_key(*s));
    out
}

pub(crate) fn same_socket(a: &SocketAddress, b: &SocketAddress) -> (r: bool)
    ensures
        r == (*a == *b),
{
    let ka = sock_key_exec(a);
    let kb = sock_key_exec(b);
    let same = crate::mdns::cache::same_bytes(ka.as_slice(), kb.as_slice());
    proof {
        if same {
            lemma_sock_key_injective(*a, *b);
        }
    }
    same
}

fn ddr_start_name() -> (r: Name)
    ensures
        r@ == ddr_start(),
{
    let v: Vec<Vec<u8>> = vec![vec![95u8, 100, 110, 115], vec![114u8, 101, 115, 111, 108, 118, 101, 114], vec![97u8, 114, 112, 97]];
    assert(labels_view(v@) =~= ddr_start());
    proof {
        reveal_with_fuel(crate::dns::name::labels_bytes, 4);
    }
    match Name::from_labels(v) {
        Ok(n) => n,
        Err(_) => {
            assert(false);
            Name::root()
        },
    }
}

fn copy_designation(d: &Designation) -> (r: Designation)
    ensures
        r@ == d@,
{
    Designation { endpoint: d.endpoint, server_name: d.server_name.clone(), priority: d.priority, expires: d.expires }
}

fn copy_probe(p: &TlsProbe) -> (r: TlsProbe)
    ensures
        r@ == p@,
{
    TlsProbe { id: p.id, origin: p.origin, endpoint: p.endpoint, server_name: p.server_name.clone(), expires: p.expires }
}

fn new_endpoint_exec(origin: SocketAddress, now: u64) -> (r: Endpoint)
    ensures
        endpoint_view(r) == new_endpoint(origin, now),
{
    let path = vec![ddr_start_name()];
    let r = Endpoint {
        origin,
        desired: None,
        working: None,
        tls: TlsState::Due(now),
        ddr: DdrState::Due(now),
        path,
        alias_expires: u64::MAX,
        reason: "probing encrypted DNS",
    };
    assert(endpoint_view(r).path =~= seq![ddr_start()]);
    r
}

impl Policy {
    pub closed spec fn wf(&self) -> bool {
        endpoints_ok(self@.endpoints)
    }

    /// A policy with no resolvers.
    pub fn new() -> (r: Policy)
        ensures
            r.wf(),
            r@.endpoints.len() == 0,
            r@.sequence == 0,
            !r@.explicit,
    {
        let r = Policy { endpoints: Vec::new(), sequence: 0, explicit: false };
        assert(r@.endpoints =~= Seq::<EndpointV>::empty());
        r
    }

    /// The number of resolvers tracked.
    pub fn count(&self) -> (r: usize)
        ensures
            r == self@.endpoints.len(),
    {
        self.endpoints.len()
    }

    fn find_exec(&self, origin: &SocketAddress) -> (r: Option<usize>)
        requires
            self.wf(),
        ensures
            r matches Some(i) ==> find_origin(self@.endpoints, *origin) == Some(i as int),
            r is None ==> find_origin(self@.endpoints, *origin) is None,
    {
        let ghost es = self@.endpoints;
        let mut i: usize = 0;
        while i < self.endpoints.len()
            invariant
                i <= self.endpoints@.len(),
                es == self@.endpoints,
                endpoints_ok(es),
                forall|k: int| 0 <= k < i ==> es[k].origin != *origin,
            decreases self.endpoints@.len() - i,
        {
            assert(es[i as int] == endpoint_view(self.endpoints@[i as int]));
            if same_socket(&self.endpoints[i].origin, origin) {
                proof {
                    lemma_find_origin_unique(es, *origin, i as int);
                }
                return Some(i);
            }
            i = i + 1;
        }
        None
    }
}

/// Some endpoint is for `o`.
pub open spec fn tracks(es: Seq<EndpointV>, o: SocketAddress) -> bool {
    exists|i: int| 0 <= i < es.len() && es[i].origin == o
}

/// An endpoint kept from `base` for its origin, or a fresh one.
pub open spec fn entry_from(base: Seq<EndpointV>, now: u64, e: EndpointV) -> bool {
    match find_origin(base, e.origin) {
        Some(k) => e == base[k],
        None => e == new_endpoint(e.origin, now),
    }
}

/// The endpoints after `sync`: one per listed origin, in address order, keeping the state
/// of those already known (all are forgotten when explicit configuration changes).
pub open spec fn synced(old: PolicyV, origins: Seq<SocketAddress>, explicit: bool, now: u64, new: PolicyV) -> bool {
    let base = if old.explicit != explicit {
        Seq::<EndpointV>::empty()
    } else {
        old.endpoints
    };
    &&& new.explicit == explicit
    &&& new.sequence == old.sequence
    &&& endpoints_ok(new.endpoints)
    &&& forall|i: int| 0 <= i < new.endpoints.len() ==> origins.contains(#[trigger] new.endpoints[i].origin)
    &&& forall|j: int| 0 <= j < origins.len() ==> tracks(new.endpoints, #[trigger] origins[j])
    &&& forall|i: int| 0 <= i < new.endpoints.len() ==> entry_from(base, now, #[trigger] new.endpoints[i])
}

pub open spec fn sync_ok(origins: Seq<SocketAddress>) -> bool {
    origins.len() <= 8 && forall|i: int| 0 <= i < origins.len() ==> origin_ok(#[trigger] origins[i])
}

pub(crate) fn contains_socket(v: &[SocketAddress], o: &SocketAddress) -> (r: bool)
    ensures
        r == v@.contains(*o),
{
    let mut i: usize = 0;
    while i < v.len()
        invariant
            i <= v@.len(),
            forall|k: int| 0 <= k < i ==> v@[k] != *o,
        decreases v@.len() - i,
    {
        if same_socket(&v[i], o) {
            assert(v@[i as int] == *o);
            return true;
        }
        i = i + 1;
    }
    false
}

impl Policy {
    /// Tracks exactly the given resolvers (at most eight, each with a port and a unicast
    /// address); a change between explicit and automatic configuration forgets all state.
    #[verifier::rlimit(80)]
    pub fn sync(&mut self, origins: &[SocketAddress], explicit: bool, now: u64) -> (r: Result<(), Error>)
        requires
            old(self).wf(),
        ensures
            final(self).wf(),
            r is Ok <==> sync_ok(origins@),
            r is Err ==> *final(self) == *old(self) && r == Err::<(), Error>(Error::Invalid),
            r is Ok ==> synced(old(self)@, origins@, explicit, now, final(self)@),
    {
        if origins.len() > 8 {
            return Err(Error::Invalid);
        }
        let mut i: usize = 0;
        while i < origins.len()
            invariant
                i <= origins@.len(),
                origins@.len() <= 8,
                self.wf(),
                forall|k: int| 0 <= k < i ==> origin_ok(#[trigger] origins@[k]),
            decreases origins@.len() - i,
        {
            if !origin_usable(&origins[i]) {
                return Err(Error::Invalid);
            }
            i = i + 1;
        }
        let ghost old_v = self@;
        if self.explicit != explicit {
            self.endpoints = Vec::new();
        }
        self.explicit = explicit;
        let ghost base = if old_v.explicit != explicit { Seq::<EndpointV>::empty() } else { old_v.endpoints };
        assert(self@.endpoints =~= base);
        // Keep the listed origins.
        let mut rest: Vec<Endpoint> = Vec::new();
        std::mem::swap(&mut rest, &mut self.endpoints);
        let mut kept: Vec<Endpoint> = Vec::new();
        assert(endpoints_view(rest@) =~= base.skip(0));
        while rest.len() > 0
            invariant
                base.len() >= rest@.len(),
                endpoints_ok(base),
                endpoints_view(rest@) == base.skip(base.len() - rest@.len()),
                endpoints_ok(endpoints_view(kept@)),
                forall|x: int| 0 <= x < kept@.len() ==> origins@.contains(#[trigger] endpoints_view(kept@)[x].origin)
                    && entry_from(base, now, endpoints_view(kept@)[x]),
                forall|x: int| 0 <= x < kept@.len() ==> exists|j: int| 0 <= j < base.len() - rest@.len() && #[trigger] endpoints_view(kept@)[x].origin == base[j].origin,
                forall|j: int| 0 <= j < base.len() - rest@.len() && origins@.contains(#[trigger] base[j].origin) ==> tracks(
                    endpoints_view(kept@),
                    base[j].origin,
                ),
            decreases rest@.len(),
        {
            let ghost k = base.len() - rest@.len();
            let ghost rv = endpoints_view(rest@);
            let ghost r0 = rest@[0];
            assert(rv[0] == endpoint_view(r0));
            assert(rv[0] == base[k]);
            let e = rest.remove(0);
            assert(e == r0);
            assert(endpoints_view(rest@) =~= rv.drop_first());
            assert(rv.drop_first() =~= base.skip(k + 1));
            if contains_socket(origins, &e.origin) {
                let ghost kv = endpoints_view(kept@);
                kept.push(e);
                let ghost nv = endpoints_view(kept@);
                assert(nv =~= kv.push(base[k]));
                proof {
                    lemma_find_origin_unique(base, base[k].origin, k);
                    assert forall|a: int, b: int| 0 <= a < b < nv.len() implies bytes_lt(
                        sock_key(#[trigger] nv[a].origin),
                        sock_key(#[trigger] nv[b].origin),
                    ) by {
                        if b == nv.len() - 1 {
                            let j = choose|j: int| 0 <= j < k && #[trigger] kv[a].origin == base[j].origin;
                            assert(nv[a] == kv[a]);
                            assert(bytes_lt(sock_key(base[j].origin), sock_key(base[k].origin)));
                        } else {
                            assert(nv[a] == kv[a] && nv[b] == kv[b]);
                        }
                    }
                    assert forall|x: int| 0 <= x < nv.len() implies exists|j: int| 0 <= j < k + 1 && #[trigger] nv[x].origin == base[j].origin by {
                        if x < kv.len() {
                            assert(nv[x] == kv[x]);
                            let j = choose|j: int| 0 <= j < k && #[trigger] kv[x].origin == base[j].origin;
                        } else {
                            assert(nv[x].origin == base[k].origin);
                        }
                    }
                    assert forall|j: int| 0 <= j < k + 1 && origins@.contains(#[trigger] base[j].origin) implies tracks(nv, base[j].origin) by {
                        if j < k {
                            let x = choose|x: int| 0 <= x < kv.len() && kv[x].origin == base[j].origin;
                            assert(nv[x] == kv[x]);
                        } else {
                            assert(nv[nv.len() - 1].origin == base[j].origin);
                        }
                    }
                    assert forall|x: int| 0 <= x < nv.len() implies origins@.contains(#[trigger] nv[x].origin) && entry_from(base, now, nv[x]) by {
                        if x < kv.len() {
                            assert(nv[x] == kv[x]);
                        }
                    }
                }
            } else {
                proof {
                    let kv = endpoints_view(kept@);
                    assert forall|x: int| 0 <= x < kv.len() implies exists|j: int| 0 <= j < k + 1 && #[trigger] kv[x].origin == base[j].origin by {
                        let j = choose|j: int| 0 <= j < k && #[trigger] kv[x].origin == base[j].origin;
                    }
                }
            }
        }
        self.endpoints = kept;
        // Add the origins not yet tracked.
        let mut m: usize = 0;
        while m < origins.len()
            invariant
                m <= origins@.len(),
                endpoints_ok(base),
                self.explicit == explicit,
                self.sequence == old_v.sequence,
                base == (if old_v.explicit != explicit { Seq::<EndpointV>::empty() } else { old_v.endpoints }),
                endpoints_ok(self@.endpoints),
                forall|x: int| 0 <= x < self@.endpoints.len() ==> origins@.contains(#[trigger] self@.endpoints[x].origin)
                    && entry_from(base, now, self@.endpoints[x]),
                forall|j: int| 0 <= j < m ==> tracks(self@.endpoints, #[trigger] origins@[j]),
                forall|j: int| 0 <= j < base.len() && origins@.contains(#[trigger] base[j].origin) ==> tracks(self@.endpoints, base[j].origin),
            decreases origins@.len() - m,
        {
            let o = origins[m];
            let ghost cur = self@.endpoints;
            match self.find_exec(&o) {
                Some(x) => {
                    proof {
                        let k = choose|k: int| 0 <= k < cur.len() && cur[k].origin == o;
                        assert(tracks(cur, origins@[m as int])) by {
                            assert(cur[k].origin == origins@[m as int]);
                        }
                    }
                },
                None => {
                    let key = sock_key_exec(&o);
                    let mut p: usize = 0;
                    while p < self.endpoints.len() && bytes_less(sock_key_exec(&self.endpoints[p].origin).as_slice(), key.as_slice())
                        invariant
                            p <= self.endpoints@.len(),
                            cur == self@.endpoints,
                            key@ == sock_key(o),
                            forall|y: int| 0 <= y < p ==> bytes_lt(sock_key(#[trigger] cur[y].origin), sock_key(o)),
                        decreases self.endpoints@.len() - p,
                    {
                        assert(cur[p as int] == endpoint_view(self.endpoints@[p as int]));
                        p = p + 1;
                    }
                    proof {
                        if p < cur.len() {
                            assert(cur[p as int] == endpoint_view(self.endpoints@[p as int]));
                        }
                    }
                    let e = new_endpoint_exec(o, now);
                    self.endpoints.insert(p, e);
                    proof {
                        let nv = self@.endpoints;
                        let ne = new_endpoint(o, now);
                        assert(nv =~= cur.insert(p as int, ne));
                        assert(forall|y: int| 0 <= y < cur.len() ==> cur[y].origin != o);
                        // o is not in base either: base origins listed are all tracked.
                        assert(find_origin(base, o) is None) by {
                            if exists|j: int| 0 <= j < base.len() && base[j].origin == o {
                                let j = choose|j: int| 0 <= j < base.len() && base[j].origin == o;
                                assert(origins@.contains(base[j].origin)) by {
                                    assert(origins@[m as int] == o);
                                }
                                let x = choose|x: int| 0 <= x < cur.len() && cur[x].origin == base[j].origin;
                                assert(cur[x].origin == o);
                            }
                        }
                        assert(entry_from(base, now, ne));
                        if p < cur.len() {
                            lemma_bytes_lt_total(sock_key(cur[p as int].origin), sock_key(o));
                            if sock_key(cur[p as int].origin) == sock_key(o) {
                                lemma_sock_key_injective(cur[p as int].origin, o);
                            }
                        }
                        assert forall|a: int, b: int| 0 <= a < b < nv.len() implies bytes_lt(
                            sock_key(#[trigger] nv[a].origin),
                            sock_key(#[trigger] nv[b].origin),
                        ) by {
                            if a < p && b < p {
                                assert(nv[a] == cur[a] && nv[b] == cur[b]);
                            } else if a < p && b == p {
                                assert(nv[a] == cur[a]);
                            } else if a < p {
                                assert(nv[a] == cur[a] && nv[b] == cur[b - 1]);
                            } else if a == p {
                                assert(nv[b] == cur[b - 1]);
                                if b - 1 > p {
                                    assert(bytes_lt(sock_key(cur[p as int].origin), sock_key(cur[b - 1].origin)));
                                    lemma_bytes_lt_transitive(sock_key(o), sock_key(cur[p as int].origin), sock_key(cur[b - 1].origin));
                                }
                            } else {
                                assert(nv[a] == cur[a - 1] && nv[b] == cur[b - 1]);
                            }
                        }
                        assert forall|y: int| 0 <= y < nv.len() implies 1 <= (#[trigger] nv[y]).path.len() <= 17 by {
                            if y < p {
                                assert(nv[y] == cur[y]);
                            } else if y > p {
                                assert(nv[y] == cur[y - 1]);
                            }
                        }
                        assert forall|x: int| 0 <= x < nv.len() implies origins@.contains(#[trigger] nv[x].origin) && entry_from(base, now, nv[x]) by {
                            if x < p {
                                assert(nv[x] == cur[x]);
                            } else if x > p {
                                assert(nv[x] == cur[x - 1]);
                            } else {
                                assert(origins@[m as int] == o);
                            }
                        }
                        assert forall|j: int| 0 <= j < m + 1 implies tracks(nv, #[trigger] origins@[j]) by {
                            if j < m {
                                let x = choose|x: int| 0 <= x < cur.len() && cur[x].origin == origins@[j];
                                if x < p {
                                    assert(nv[x] == cur[x]);
                                } else {
                                    assert(nv[x + 1] == cur[x]);
                                }
                            } else {
                                assert(nv[p as int].origin == origins@[j]);
                            }
                        }
                        assert forall|j: int| 0 <= j < base.len() && origins@.contains(#[trigger] base[j].origin) implies tracks(nv, base[j].origin) by {
                            let x = choose|x: int| 0 <= x < cur.len() && cur[x].origin == base[j].origin;
                            if x < p {
                                assert(nv[x] == cur[x]);
                            } else {
                                assert(nv[x + 1] == cur[x]);
                            }
                        }
                    }
                },
            }
            m = m + 1;
        }
        Ok(())
    }
}

/// How queries to `origin` go at `now`.
pub open spec fn spec_route(v: PolicyV, origin: SocketAddress, now: u64) -> RouteV {
    if v.explicit {
        RouteV::Plain("explicitly configured DNS service"@)
    } else {
        match find_origin(v.endpoints, origin) {
            None => RouteV::Plain("no encrypted resolver evidence"@),
            Some(i) => match v.endpoints[i].working {
                Some(t) => if t.expires > now {
                    RouteV::Tls(t)
                } else {
                    RouteV::Plain("encrypted designation expired"@)
                },
                None => RouteV::Plain(v.endpoints[i].reason),
            },
        }
    }
}

pub open spec fn tls_time(t: TlsStateV) -> u64 {
    match t {
        TlsStateV::Due(x) => x,
        TlsStateV::Waiting { until, .. } => until,
        TlsStateV::Idle(x) => x,
    }
}

pub open spec fn ddr_time(d: DdrState) -> u64 {
    match d {
        DdrState::Due(x) => x,
        DdrState::Waiting { until, .. } => until,
        DdrState::Idle(x) => x,
    }
}

pub open spec fn min_u64(a: u64, b: u64) -> u64 {
    if a < b {
        a
    } else {
        b
    }
}

/// The earliest of an endpoint's timers and its working designation's expiry.
pub open spec fn endpoint_deadline(e: EndpointV) -> u64 {
    min_u64(
        min_u64(tls_time(e.tls), ddr_time(e.ddr)),
        match e.working {
            Some(t) => t.expires,
            None => u64::MAX,
        },
    )
}

pub open spec fn endpoints_deadline(es: Seq<EndpointV>) -> Option<u64>
    decreases es.len(),
{
    if es.len() == 0 {
        None
    } else {
        let d = endpoint_deadline(es.last());
        match endpoints_deadline(es.drop_last()) {
            None => Some(d),
            Some(m) => Some(min_u64(m, d)),
        }
    }
}

/// A waiting TLS probe with this ID that has neither timed out nor expired.
pub open spec fn tls_answers(e: EndpointV, id: u64, now: u64) -> bool {
    e.tls matches TlsStateV::Waiting { probe, until } && probe.id == id && until > now && probe.expires > now
}

pub open spec fn first_tls(es: Seq<EndpointV>, id: u64, now: u64, i: int) -> Option<int>
    decreases es.len() - i,
{
    if i < 0 || i >= es.len() {
        None
    } else if tls_answers(es[i], id, now) {
        Some(i)
    } else {
        first_tls(es, id, now, i + 1)
    }
}

/// A TLS probe's outcome: success makes its target the working designation until it
/// expires; failure retries in thirty seconds.
pub open spec fn tls_outcome(e: EndpointV, success: bool, now: u64) -> EndpointV {
    match e.tls {
        TlsStateV::Waiting { probe, .. } => if success {
            EndpointV {
                working: Some(
                    DesignationV {
                        endpoint: probe.endpoint,
                        server_name: probe.server_name,
                        priority: match e.desired {
                            Some(d) => d.priority,
                            None => u16::MAX,
                        },
                        expires: probe.expires,
                    },
                ),
                tls: TlsStateV::Idle(probe.expires),
                ..e
            }
        } else {
            EndpointV { tls: TlsStateV::Due(sat_add(now, 30000)), reason: "TLS probe failed"@, ..e }
        },
        _ => e,
    }
}

impl Policy {
    /// How queries to `origin` go now.
    pub fn route(&self, origin: SocketAddress, now: u64) -> (r: Route)
        requires
            self.wf(),
        ensures
            r@ == spec_route(self@, origin, now),
    {
        if self.explicit {
            return Route::Plain { reason: "explicitly configured DNS service" };
        }
        let i = match self.find_exec(&origin) {
            Some(i) => i,
            None => return Route::Plain { reason: "no encrypted resolver evidence" },
        };
        let e = &self.endpoints[i];
        assert(self@.endpoints[i as int] == endpoint_view(*e));
        match &e.working {
            Some(t) => {
                if t.expires > now {
                    Route::Tls(copy_designation(t))
                } else {
                    Route::Plain { reason: "encrypted designation expired" }
                }
            },
            None => Route::Plain { reason: e.reason },
        }
    }

    /// The earliest time the policy has something to do.
    pub fn next_deadline(&self) -> (r: Option<u64>)
        ensures
            r == (if self@.explicit { None } else { endpoints_deadline(self@.endpoints) }),
    {
        if self.explicit {
            return None;
        }
        let ghost es = self@.endpoints;
        let mut best: Option<u64> = None;
        let mut i: usize = 0;
        while i < self.endpoints.len()
            invariant
                i <= self.endpoints@.len(),
                es == self@.endpoints,
                best == endpoints_deadline(es.take(i as int)),
            decreases self.endpoints@.len() - i,
        {
            let e = &self.endpoints[i];
            assert(es[i as int] == endpoint_view(*e));
            let tls = match &e.tls {
                TlsState::Due(t) => *t,
                TlsState::Waiting { until, .. } => *until,
                TlsState::Idle(t) => *t,
            };
            let ddr = match e.ddr {
                DdrState::Due(t) => t,
                DdrState::Waiting { until, .. } => until,
                DdrState::Idle(t) => t,
            };
            let w = match &e.working {
                Some(t) => t.expires,
                None => u64::MAX,
            };
            let a = if tls < ddr { tls } else { ddr };
            let d = if a < w { a } else { w };
            assert(es.take(i + 1).drop_last() =~= es.take(i as int));
            assert(es.take(i + 1).last() == es[i as int]);
            best = match best {
                None => Some(d),
                Some(m) => Some(if m < d { m } else { d }),
            };
            i = i + 1;
        }
        assert(es.take(es.len() as int) =~= es);
        best
    }

    /// A TLS connection to `endpoint` failed: stop using it and probe again in thirty
    /// seconds.
    pub fn failed(&mut self, origin: SocketAddress, endpoint: SocketAddress, now: u64)
        requires
            old(self).wf(),
        ensures
            final(self).wf(),
            final(self)@ == (match find_origin(old(self)@.endpoints, origin) {
                Some(i) => if old(self)@.endpoints[i].working matches Some(t) && t.endpoint == endpoint {
                    PolicyV {
                        endpoints: old(self)@.endpoints.update(
                            i,
                            EndpointV {
                                working: None,
                                tls: TlsStateV::Due(sat_add(now, 30000)),
                                reason: "TLS transport failed; plaintext fallback"@,
                                ..old(self)@.endpoints[i]
                            },
                        ),
                        ..old(self)@
                    }
                } else {
                    old(self)@
                },
                None => old(self)@,
            }),
    {
        let ghost v0 = self@;
        let i = match self.find_exec(&origin) {
            Some(i) => i,
            None => return,
        };
        assert(v0.endpoints[i as int] == endpoint_view(self.endpoints@[i as int]));
        let hit = match &self.endpoints[i].working {
            Some(t) => same_socket(&t.endpoint, &endpoint),
            None => false,
        };
        if hit {
            let ghost sb = self.endpoints@;
            self.endpoints[i].working = None;
            self.endpoints[i].tls = TlsState::Due(now.saturating_add(30000));
            self.endpoints[i].reason = "TLS transport failed; plaintext fallback";
            proof {
                let want = v0.endpoints.update(
                    i as int,
                    EndpointV {
                        working: None,
                        tls: TlsStateV::Due(sat_add(now, 30000)),
                        reason: "TLS transport failed; plaintext fallback"@,
                        ..v0.endpoints[i as int]
                    },
                );
                assert forall|k: int| 0 <= k < want.len() implies #[trigger] self@.endpoints[k] == want[k] by {
                    assert(self@.endpoints[k] == endpoint_view(self.endpoints@[k]));
                    if k != i {
                        assert(self.endpoints@[k] == sb[k]);
                        assert(v0.endpoints[k] == endpoint_view(sb[k]));
                    }
                }
                assert(self@.endpoints =~= want);
                assert(endpoints_ok(want)) by {
                    assert forall|a: int, b: int| 0 <= a < b < want.len() implies bytes_lt(
                        sock_key(#[trigger] want[a].origin),
                        sock_key(#[trigger] want[b].origin),
                    ) by {
                        assert(want[a].origin == v0.endpoints[a].origin && want[b].origin == v0.endpoints[b].origin);
                    }
                    assert forall|a: int| 0 <= a < want.len() implies 1 <= (#[trigger] want[a]).path.len() <= 17 by {
                        assert(want[a].path == v0.endpoints[a].path);
                    }
                }
            }
        }
    }

    /// The outcome of a TLS probe: the first endpoint waiting on it takes the outcome, if the
    /// probe has neither timed out nor expired.
    pub fn complete_tls(&mut self, id: u64, success: bool, now: u64)
        requires
            old(self).wf(),
        ensures
            final(self).wf(),
            final(self)@ == (if old(self)@.explicit {
                old(self)@
            } else {
                match first_tls(old(self)@.endpoints, id, now, 0) {
                    Some(i) => PolicyV {
                        endpoints: old(self)@.endpoints.update(i, tls_outcome(old(self)@.endpoints[i], success, now)),
                        ..old(self)@
                    },
                    None => old(self)@,
                }
            }),
    {
        if self.explicit {
            return;
        }
        let ghost v0 = self@;
        let mut i: usize = 0;
        while i < self.endpoints.len()
            invariant
                i <= self.endpoints@.len(),
                self@ == v0,
                v0 == old(self)@,
                endpoints_ok(v0.endpoints),
                !v0.explicit,
                first_tls(v0.endpoints, id, now, 0) == first_tls(v0.endpoints, id, now, i as int),
            decreases self.endpoints@.len() - i,
        {
            assert(v0.endpoints[i as int] == endpoint_view(self.endpoints@[i as int]));
            let (hit, ep, name, expires) = match &self.endpoints[i].tls {
                TlsState::Waiting { probe, until } => (
                    probe.id == id && *until > now && probe.expires > now,
                    probe.endpoint,
                    probe.server_name.clone(),
                    probe.expires,
                ),
                _ => (false, self.endpoints[i].origin, String::new(), 0),
            };
            let ghost e0 = v0.endpoints[i as int];
            assert(hit == tls_answers(e0, id, now));
            if hit {
                let ghost sb = self.endpoints@;
                assert(first_tls(v0.endpoints, id, now, i as int) == Some(i as int));
                if success {
                    let priority = match &self.endpoints[i].desired {
                        Some(d) => d.priority,
                        None => 0xffff,
                    };
                    self.endpoints[i].working = Some(Designation { endpoint: ep, server_name: name, priority, expires });
                    self.endpoints[i].tls = TlsState::Idle(expires);
                } else {
                    self.endpoints[i].tls = TlsState::Due(now.saturating_add(30000));
                    self.endpoints[i].reason = "TLS probe failed";
                }
                proof {
                    let want = v0.endpoints.update(i as int, tls_outcome(e0, success, now));
                    assert forall|k: int| 0 <= k < want.len() implies #[trigger] self@.endpoints[k] == want[k] by {
                        assert(self@.endpoints[k] == endpoint_view(self.endpoints@[k]));
                        if k != i {
                            assert(self.endpoints@[k] == sb[k]);
                            assert(v0.endpoints[k] == endpoint_view(sb[k]));
                        }
                    }
                    assert(self@.endpoints =~= want);
                    assert(endpoints_ok(want)) by {
                        assert forall|a: int, b: int| 0 <= a < b < want.len() implies bytes_lt(
                            sock_key(#[trigger] want[a].origin),
                            sock_key(#[trigger] want[b].origin),
                        ) by {
                            assert(want[a].origin == v0.endpoints[a].origin && want[b].origin == v0.endpoints[b].origin);
                        }
                        assert forall|a: int| 0 <= a < want.len() implies 1 <= (#[trigger] want[a]).path.len() <= 17 by {
                            assert(want[a].path == v0.endpoints[a].path);
                        }
                    }
                }
                return;
            }
            i = i + 1;
        }
    }
}

/// Expiry and timeouts at `now`: expired designations go; a TLS probe that timed out is
/// due again in thirty seconds, an idle one when its time comes; a DDR query that timed out
/// rests thirty seconds, an idle one is due; either DDR case restarts the alias path.
pub open spec fn prepare(e: EndpointV, now: u64) -> EndpointV {
    let e1 = if e.desired matches Some(t) && t.expires <= now {
        EndpointV { desired: None, ..e }
    } else {
        e
    };
    let e2 = if e1.working matches Some(t) && t.expires <= now {
        EndpointV { working: None, reason: "encrypted designation expired"@, ..e1 }
    } else {
        e1
    };
    let e3 = if e2.tls matches TlsStateV::Waiting { until, .. } && until <= now {
        EndpointV { tls: TlsStateV::Due(sat_add(now, 30000)), reason: "TLS handshake timeout"@, ..e2 }
    } else if e2.tls matches TlsStateV::Idle(until) && until <= now {
        EndpointV { tls: TlsStateV::Due(now), ..e2 }
    } else {
        e2
    };
    if e3.ddr matches DdrState::Waiting { until, .. } && until <= now {
        EndpointV { ddr: DdrState::Idle(sat_add(now, 30000)), path: seq![ddr_start()], alias_expires: u64::MAX, ..e3 }
    } else if e3.ddr matches DdrState::Idle(until) && until <= now {
        EndpointV { ddr: DdrState::Due(now), path: seq![ddr_start()], alias_expires: u64::MAX, ..e3 }
    } else {
        e3
    }
}

/// What a TLS probe tries: the desired designation, or else the resolver's own address on
/// port 853 named by its address, for five minutes.
pub open spec fn tls_target(e: EndpointV, now: u64) -> DesignationV {
    match e.desired {
        Some(d) => d,
        None => DesignationV {
            endpoint: SocketAddress { ip: e.origin.ip, port: 853 },
            server_name: spec_ip_text(e.origin.ip),
            priority: u16::MAX,
            expires: sat_add(now, 300000),
        },
    }
}

/// One endpoint's turn in a poll: the endpoint after, the sequence number after, the probes
/// it issues, and whether the sequence number sufficed.
pub open spec fn poll_endpoint(e: EndpointV, seq: u64, now: u64) -> (EndpointV, u64, Seq<ProbeV>, bool) {
    let e1 = prepare(e, now);
    let (e2, s2, p2, ok2) = if e1.tls matches TlsStateV::Due(at) && at <= now {
        if seq == u64::MAX {
            (e1, seq, Seq::<ProbeV>::empty(), false)
        } else {
            let id = (seq + 1) as u64;
            let t = tls_target(e1, now);
            let probe = TlsProbeV { id, origin: e.origin, endpoint: t.endpoint, server_name: t.server_name, expires: t.expires };
            (
                EndpointV { tls: TlsStateV::Waiting { probe, until: min_u64(sat_add(now, 10000), t.expires) }, ..e1 },
                id,
                seq![ProbeV::Tls(probe)],
                true,
            )
        }
    } else {
        (e1, seq, Seq::<ProbeV>::empty(), true)
    };
    if !ok2 {
        (e2, s2, p2, false)
    } else if e2.ddr matches DdrState::Due(at) && at <= now {
        if s2 == u64::MAX {
            (e2, s2, p2, false)
        } else {
            let id = (s2 + 1) as u64;
            let probe = DdrProbeV { id, origin: e.origin, name: e2.path.last() };
            (
                EndpointV { ddr: DdrState::Waiting { id, until: min_u64(sat_add(now, 3000), e2.alias_expires) }, ..e2 },
                id,
                p2.push(ProbeV::Ddr(probe)),
                true,
            )
        }
    } else {
        (e2, s2, p2, true)
    }
}

/// The endpoints from `i` on take their turns; a sequence overflow stops the poll there.
pub open spec fn poll_from(es: Seq<EndpointV>, i: int, seq: u64, now: u64) -> (Seq<EndpointV>, u64, Seq<ProbeV>, bool)
    decreases es.len() - i,
{
    if i < 0 || i >= es.len() {
        (es, seq, Seq::empty(), true)
    } else {
        let (e2, s2, p, ok) = poll_endpoint(es[i], seq, now);
        let es2 = es.update(i, e2);
        if !ok {
            (es2, s2, p, false)
        } else {
            let (es3, s3, p3, ok3) = poll_from(es2, i + 1, s2, now);
            (es3, s3, p + p3, ok3)
        }
    }
}

pub open spec fn probes_view(v: Seq<Probe>) -> Seq<ProbeV> {
    v.map_values(|p: Probe| p@)
}

pub proof fn lemma_poll_endpoint_keeps(e: EndpointV, seq: u64, now: u64)
    requires
        1 <= e.path.len() <= 17,
    ensures
        poll_endpoint(e, seq, now).0.origin == e.origin,
        1 <= poll_endpoint(e, seq, now).0.path.len() <= 17,
{
}

pub proof fn lemma_poll_from_ok(es: Seq<EndpointV>, i: int, seq: u64, now: u64)
    requires
        endpoints_ok(es),
        0 <= i,
    ensures
        endpoints_ok(poll_from(es, i, seq, now).0),
    decreases es.len() - i,
{
    if i < es.len() {
        let (e2, s2, p, ok) = poll_endpoint(es[i], seq, now);
        lemma_poll_endpoint_keeps(es[i], seq, now);
        let es2 = es.update(i, e2);
        assert(endpoints_ok(es2)) by {
            assert forall|a: int, b: int| 0 <= a < b < es2.len() implies bytes_lt(
                sock_key(#[trigger] es2[a].origin),
                sock_key(#[trigger] es2[b].origin),
            ) by {
                assert(es2[a].origin == es[a].origin && es2[b].origin == es[b].origin);
            }
            assert forall|a: int| 0 <= a < es2.len() implies 1 <= (#[trigger] es2[a]).path.len() <= 17 by {}
        }
        if ok {
            lemma_poll_from_ok(es2, i + 1, s2, now);
        }
    }
}

fn reset_ddr(e: &mut Endpoint)
    ensures
        endpoint_view(*final(e)) == (EndpointV { path: seq![ddr_start()], alias_expires: u64::MAX, ..endpoint_view(*old(e)) }),
        final(e).path@.len() == 1,
{
    e.path = vec![ddr_start_name()];
    e.alias_expires = u64::MAX;
    assert(paths_view(e.path@) =~= seq![ddr_start()]);
}

/// Drops what has expired and moves the timers that are due.
fn prepare_endpoint(e: &mut Endpoint, now: u64)
    requires
        1 <= old(e).path@.len() <= 17,
    ensures
        endpoint_view(*final(e)) == prepare(endpoint_view(*old(e)), now),
        1 <= final(e).path@.len() <= 17,
{
    let ghost e0 = endpoint_view(*e);
    let expired_desired = match &e.desired {
        Some(t) => t.expires <= now,
        None => false,
    };
    if expired_desired {
        e.desired = None;
    }
    let expired_working = match &e.working {
        Some(t) => t.expires <= now,
        None => false,
    };
    if expired_working {
        e.working = None;
        e.reason = "encrypted designation expired";
    }
    let ghost e2 = endpoint_view(*e);
    let tls_step: u8 = match &e.tls {
        TlsState::Waiting { until, .. } => if *until <= now { 1 } else { 0 },
        TlsState::Idle(until) => if *until <= now { 2 } else { 0 },
        _ => 0,
    };
    if tls_step == 1 {
        e.tls = TlsState::Due(now.saturating_add(30000));
        e.reason = "TLS handshake timeout";
    } else if tls_step == 2 {
        e.tls = TlsState::Due(now);
    }
    let ghost e3 = endpoint_view(*e);
    proof {
        let p1 = if e0.desired matches Some(t) && t.expires <= now { EndpointV { desired: None, ..e0 } } else { e0 };
        let p2 = if p1.working matches Some(t) && t.expires <= now {
            EndpointV { working: None, reason: "encrypted designation expired"@, ..p1 }
        } else {
            p1
        };
        assert(e2 == p2);
        let p3 = if p2.tls matches TlsStateV::Waiting { until, .. } && until <= now {
            EndpointV { tls: TlsStateV::Due(sat_add(now, 30000)), reason: "TLS handshake timeout"@, ..p2 }
        } else if p2.tls matches TlsStateV::Idle(until) && until <= now {
            EndpointV { tls: TlsStateV::Due(now), ..p2 }
        } else {
            p2
        };
        assert(e3 == p3);
    }
    match e.ddr {
        DdrState::Waiting { until, .. } => if until <= now {
            e.ddr = DdrState::Idle(now.saturating_add(30000));
            reset_ddr(e);
        },
        DdrState::Idle(until) => if until <= now {
            e.ddr = DdrState::Due(now);
            reset_ddr(e);
        },
        _ => {},
    }
}

#[verifier::rlimit(60)]
#[verifier::spinoff_prover]
fn poll_one(e: &mut Endpoint, seq: &mut u64, now: u64, out: &mut Vec<Probe>) -> (ok: bool)
    requires
        1 <= old(e).path@.len() <= 17,
    ensures
        ({
            let (e2, s2, p, ok2) = poll_endpoint(endpoint_view(*old(e)), *old(seq), now);
            &&& endpoint_view(*final(e)) == e2
            &&& *final(seq) == s2
            &&& probes_view(final(out)@) == probes_view(old(out)@) + p
            &&& ok == ok2
        }),
{
    let ghost e0 = endpoint_view(*e);
    let ghost o0 = probes_view(out@);
    prepare_endpoint(e, now);
    let ghost e1 = endpoint_view(*e);
    assert(e1 == prepare(e0, now));
    let tls_due = match e.tls {
        TlsState::Due(at) => at <= now,
        _ => false,
    };
    if tls_due {
        if *seq == u64::MAX {
            return false;
        }
        let target = match &e.desired {
            Some(d) => copy_designation(d),
            None => Designation {
                endpoint: SocketAddress { ip: e.origin.ip, port: 853 },
                server_name: ip_text(&e.origin.ip),
                priority: 0xffff,
                expires: now.saturating_add(300000),
            },
        };
        assert(target@ == tls_target(e1, now));
        *seq = *seq + 1;
        let probe = TlsProbe { id: *seq, origin: e.origin, endpoint: target.endpoint, server_name: target.server_name, expires: target.expires };
        let until = {
            let t = now.saturating_add(10000);
            if t < probe.expires { t } else { probe.expires }
        };
        let copy = copy_probe(&probe);
        e.tls = TlsState::Waiting { probe: copy, until };
        let ghost before = probes_view(out@);
        out.push(Probe::Tls(probe));
        assert(probes_view(out@) =~= before.push(ProbeV::Tls(probe@)));
    }
    let ghost e2 = endpoint_view(*e);
    let ghost s2 = *seq;
    let ddr_due = match e.ddr {
        DdrState::Due(at) => at <= now,
        _ => false,
    };
    if ddr_due {
        if *seq == u64::MAX {
            return false;
        }
        *seq = *seq + 1;
        let n = e.path.len();
        let name = e.path[n - 1].clone();
        assert(name@ == e2.path.last());
        let until = {
            let t = now.saturating_add(3000);
            if t < e.alias_expires { t } else { e.alias_expires }
        };
        e.ddr = DdrState::Waiting { id: *seq, until };
        let ghost before = probes_view(out@);
        out.push(Probe::Ddr(DdrProbe { id: *seq, origin: e.origin, name }));
        assert(probes_view(out@) =~= before.push(ProbeV::Ddr(DdrProbeV { id: *seq, origin: e0.origin, name: e2.path.last() })));
    }
    proof {
        if !tls_due {
            assert(o0 + Seq::<ProbeV>::empty() =~= o0);
        }
        if tls_due && !ddr_due {
            assert(probes_view(out@) =~= o0 + poll_endpoint(e0, *old(seq), now).2);
        }
        if tls_due && ddr_due {
            assert(probes_view(out@) =~= o0 + poll_endpoint(e0, *old(seq), now).2);
        }
        if !tls_due && ddr_due {
            assert(probes_view(out@) =~= o0 + poll_endpoint(e0, *old(seq), now).2);
        }
    }
    true
}

impl Policy {
    /// Issues the probes that are due, endpoint by endpoint in address order. Fails, with
    /// the endpoints before it done, if the probe sequence number would overflow.
    #[verifier::rlimit(60)]
    pub fn poll(&mut self, now: u64) -> (r: Result<Vec<Probe>, Error>)
        requires
            old(self).wf(),
        ensures
            final(self).wf(),
            old(self)@.explicit ==> *final(self) == *old(self),
            old(self)@.explicit ==> (r matches Ok(v) && v@.len() == 0),
            !old(self)@.explicit ==> ({
                let (es, seq, probes, ok) = poll_from(old(self)@.endpoints, 0, old(self)@.sequence, now);
                &&& final(self)@ == (PolicyV { endpoints: es, sequence: seq, ..old(self)@ })
                &&& ok ==> (r matches Ok(v) && probes_view(v@) == probes)
                &&& !ok ==> r == Err::<Vec<Probe>, Error>(Error::Invalid)
            }),
    {
        let mut out: Vec<Probe> = Vec::new();
        if self.explicit {
            return Ok(out);
        }
        let ghost v0 = self@;
        proof {
            lemma_poll_from_ok(v0.endpoints, 0, v0.sequence, now);
        }
        let mut i: usize = 0;
        assert(probes_view(out@) =~= Seq::<ProbeV>::empty());
        while i < self.endpoints.len()
            invariant
                i <= self.endpoints@.len(),
                v0 == old(self)@,
                !v0.explicit,
                self.explicit == v0.explicit,
                endpoints_ok(self@.endpoints),
                self@.endpoints.len() == v0.endpoints.len(),
                ({
                    let r = poll_from(self@.endpoints, i as int, self.sequence, now);
                    poll_from(v0.endpoints, 0, v0.sequence, now) == (r.0, r.1, probes_view(out@) + r.2, r.3)
                }),
            decreases self.endpoints@.len() - i,
        {
            let ghost cur = self@.endpoints;
            let ghost s0 = self.sequence;
            let ghost o0 = probes_view(out@);
            let mut e = self.endpoints.remove(i);
            assert(endpoint_view(e) == cur[i as int]);
            let ok = poll_one(&mut e, &mut self.sequence, now, &mut out);
            self.endpoints.insert(i, e);
            proof {
                let (e2, s2, p, ok2) = poll_endpoint(cur[i as int], s0, now);
                lemma_poll_endpoint_keeps(cur[i as int], s0, now);
                assert(self@.endpoints =~= cur.update(i as int, e2));
                assert(endpoints_ok(self@.endpoints)) by {
                    let es2 = self@.endpoints;
                    assert forall|a: int, b: int| 0 <= a < b < es2.len() implies bytes_lt(
                        sock_key(#[trigger] es2[a].origin),
                        sock_key(#[trigger] es2[b].origin),
                    ) by {
                        assert(es2[a].origin == cur[a].origin && es2[b].origin == cur[b].origin);
                    }
                    assert forall|a: int| 0 <= a < es2.len() implies 1 <= (#[trigger] es2[a]).path.len() <= 17 by {}
                }
                if ok {
                    let r = poll_from(self@.endpoints, i + 1, self.sequence, now);
                    assert(o0 + (p + r.2) =~= (o0 + p) + r.2);
                }
            }
            if !ok {
                return Err(Error::Invalid);
            }
            i = i + 1;
        }
        proof {
            assert(probes_view(out@) + Seq::<ProbeV>::empty() =~= probes_view(out@));
        }
        Ok(out)
    }
}

/// Some name on the alias path equals `n` (ignoring case).
pub open spec fn path_has(path: Seq<Seq<Seq<u8>>>, n: Seq<Seq<u8>>) -> bool {
    exists|i: int| 0 <= i < path.len() && canonical_wire(#[trigger] path[i]) == canonical_wire(n)
}

/// What a DDR result does to an endpoint, and whether it is accepted. An alias is followed
/// (DDR due again at once) unless the path already has 17 names or the alias, which is
/// refused and restarts the path; otherwise the first designation, limited by the alias
/// path's expiry, becomes the desired target, with a new TLS probe due now if it differs
/// from the old one, and the path restarts.
pub open spec fn spec_apply(e: EndpointV, d: DiscoveryV, now: u64) -> (EndpointV, bool) {
    match d.alias {
        Some((alias, expires)) => if e.path.len() >= 17 || path_has(e.path, alias) {
            (EndpointV { path: seq![ddr_start()], alias_expires: u64::MAX, ..e }, false)
        } else {
            (EndpointV { path: e.path.push(alias), alias_expires: min_u64(e.alias_expires, expires), ddr: DdrState::Due(now), ..e }, true)
        },
        None => {
            let e1 = if d.candidates.len() > 0 {
                let t0 = d.candidates[0];
                let target = DesignationV { expires: min_u64(t0.expires, e.alias_expires), ..t0 };
                let changed = match e.desired {
                    None => true,
                    Some(old) => old.endpoint != target.endpoint || old.server_name != target.server_name,
                };
                EndpointV {
                    ddr: DdrState::Idle(target.expires),
                    tls: if changed { TlsStateV::Due(now) } else { e.tls },
                    desired: Some(target),
                    ..e
                }
            } else {
                e
            };
            (EndpointV { path: seq![ddr_start()], alias_expires: u64::MAX, ..e1 }, true)
        },
    }
}

/// A DDR query with this ID still waiting.
pub open spec fn ddr_waiting(e: EndpointV, id: u64, now: u64) -> bool {
    e.ddr matches DdrState::Waiting { id: token, until } && token == id && now < until
}

pub open spec fn first_ddr(es: Seq<EndpointV>, id: u64, now: u64, i: int) -> Option<int>
    decreases es.len() - i,
{
    if i < 0 || i >= es.len() {
        None
    } else if ddr_waiting(es[i], id, now) {
        Some(i)
    } else {
        first_ddr(es, id, now, i + 1)
    }
}

/// A DDR result that the answer can give: the designations when there is no alias, else
/// one of the aliases.
pub open spec fn ddr_possible(origin: SocketAddress, m: MessageV, now: u64, d: DiscoveryV) -> bool {
    let rs = aliases(ddr_records(m.answers, m.questions[0]));
    if rs.len() == 0 {
        spec_designations(origin, m, now) == Ok::<DiscoveryV, Error>(d)
    } else {
        exists|k: int| 0 <= k < rs.len() && d == alias_discovery(#[trigger] rs[k], m.questions[0], now)
    }
}

pub open spec fn with_endpoint(v: PolicyV, i: int, e: EndpointV) -> PolicyV {
    PolicyV { endpoints: v.endpoints.update(i, e), ..v }
}

fn path_contains(path: &Vec<Name>, n: &Name) -> (r: bool)
    ensures
        r == path_has(paths_view(path@), n@),
{
    let ghost pv = paths_view(path@);
    let mut i: usize = 0;
    while i < path.len()
        invariant
            i <= path@.len(),
            pv == paths_view(path@),
            forall|k: int| 0 <= k < i ==> canonical_wire(#[trigger] pv[k]) != canonical_wire(n@),
        decreases path@.len() - i,
    {
        assert(pv[i as int] == path@[i as int]@);
        if path[i].eq(n) {
            return true;
        }
        i = i + 1;
    }
    false
}

proof fn lemma_update_ok(es: Seq<EndpointV>, i: int, e: EndpointV)
    requires
        endpoints_ok(es),
        0 <= i < es.len(),
        e.origin == es[i].origin,
        1 <= e.path.len() <= 17,
    ensures
        endpoints_ok(es.update(i, e)),
{
    let es2 = es.update(i, e);
    assert forall|a: int, b: int| 0 <= a < b < es2.len() implies bytes_lt(
        sock_key(#[trigger] es2[a].origin),
        sock_key(#[trigger] es2[b].origin),
    ) by {
        assert(es2[a].origin == es[a].origin && es2[b].origin == es[b].origin);
    }
    assert forall|a: int| 0 <= a < es2.len() implies 1 <= (#[trigger] es2[a]).path.len() <= 17 by {}
}

fn apply_one(e: &mut Endpoint, d: Discovery, now: u64) -> (ok: bool)
    requires
        1 <= old(e).path@.len() <= 17,
    ensures
        (endpoint_view(*final(e)), ok) == spec_apply(endpoint_view(*old(e)), d@, now),
{
    let ghost e0 = endpoint_view(*e);
    let ghost dv = d@;
    match d.alias {
        Some((alias, expires)) => {
            if e.path.len() >= 17 || path_contains(&e.path, &alias) {
                reset_ddr(e);
                return false;
            }
            let ghost pv = paths_view(e.path@);
            let ghost av = alias@;
            e.path.push(alias);
            assert(paths_view(e.path@) =~= pv.push(av));
            e.alias_expires = if e.alias_expires < expires { e.alias_expires } else { expires };
            e.ddr = DdrState::Due(now);
            true
        },
        None => {
            let mut candidates = d.candidates;
            if candidates.len() > 0 {
                let ghost t0 = designations_view(candidates@)[0];
                let mut target = candidates.remove(0);
                assert(target@ == t0);
                target.expires = if target.expires < e.alias_expires { target.expires } else { e.alias_expires };
                let changed = match &e.desired {
                    None => true,
                    Some(old) => !same_socket(&old.endpoint, &target.endpoint) || !old.server_name.eq(&target.server_name),
                };
                e.ddr = DdrState::Idle(target.expires);
                if changed {
                    e.tls = TlsState::Due(now);
                }
                e.desired = Some(target);
            }
            reset_ddr(e);
            true
        },
    }
}

impl Policy {
    fn apply_at(&mut self, i: usize, d: Discovery, now: u64) -> (r: Result<(), Error>)
        requires
            old(self).wf(),
            i < old(self)@.endpoints.len(),
        ensures
            final(self).wf(),
            ({
                let (e2, ok) = spec_apply(old(self)@.endpoints[i as int], d@, now);
                &&& final(self)@ == with_endpoint(old(self)@, i as int, e2)
                &&& (r is Ok <==> ok)
                &&& (r is Err ==> r == Err::<(), Error>(Error::Invalid))
            }),
    {
        let ghost v0 = self@;
        let ghost dv = d@;
        let mut e = self.endpoints.remove(i);
        assert(endpoint_view(e) == v0.endpoints[i as int]);
        let ok = apply_one(&mut e, d, now);
        self.endpoints.insert(i, e);
        proof {
            let (e2, _) = spec_apply(v0.endpoints[i as int], dv, now);
            assert(self@.endpoints =~= v0.endpoints.update(i as int, e2));
            lemma_update_ok(v0.endpoints, i as int, e2);
        }
        if ok {
            Ok(())
        } else {
            Err(Error::Invalid)
        }
    }

    /// Applies a DDR result for `origin`'s resolver; refuses an unknown origin.
    pub fn apply_discovery(&mut self, origin: SocketAddress, d: Discovery, now: u64) -> (r: Result<(), Error>)
        requires
            old(self).wf(),
        ensures
            final(self).wf(),
            match find_origin(old(self)@.endpoints, origin) {
                None => r == Err::<(), Error>(Error::Invalid) && *final(self) == *old(self),
                Some(i) => {
                    let (e2, ok) = spec_apply(old(self)@.endpoints[i], d@, now);
                    &&& final(self)@ == with_endpoint(old(self)@, i, e2)
                    &&& (r is Ok <==> ok)
                    &&& (r is Err ==> r == Err::<(), Error>(Error::Invalid))
                },
            },
    {
        match self.find_exec(&origin) {
            None => Err(Error::Invalid),
            Some(i) => self.apply_at(i, d, now),
        }
    }

    /// The answer to a DDR query: the endpoint waiting on it rests thirty seconds, then, if
    /// the answer is for the name it asked, takes the result. Refused under explicit
    /// configuration, for an unknown or stale ID, or a wrong or unacceptable answer.
    #[verifier::rlimit(60)]
    pub fn complete_ddr<R: RandomSource>(&mut self, id: u64, message: &Message, now: u64, rng: &mut R) -> (r: Result<(), Error>)
        requires
            old(self).wf(),
        ensures
            final(self).wf(),
            old(self)@.explicit ==> r == Err::<(), Error>(Error::Invalid) && *final(self) == *old(self),
            !old(self)@.explicit ==> match first_ddr(old(self)@.endpoints, id, now, 0) {
                None => r == Err::<(), Error>(Error::Invalid) && *final(self) == *old(self),
                Some(i) => {
                    let e = old(self)@.endpoints[i];
                    let marked = with_endpoint(old(self)@, i, EndpointV { ddr: DdrState::Idle(sat_add(now, 30000)), ..e });
                    let m = message@;
                    let q_ok = m.questions.len() == 1 && canonical_wire(m.questions[0].name) == canonical_wire(e.path.last());
                    &&& !q_ok ==> r == Err::<(), Error>(Error::Invalid) && final(self)@ == marked
                    &&& q_ok && !ddr_acceptable(e.origin, m) ==> r == Err::<(), Error>(Error::Invalid) && final(self)@ == marked
                    &&& q_ok && ddr_acceptable(e.origin, m) ==> ((r is Err && final(self)@ == marked) || exists|d: DiscoveryV|
                        ddr_possible(e.origin, m, now, d) && final(self)@ == with_endpoint(
                            marked,
                            i,
                            spec_apply(marked.endpoints[i], d, now).0,
                        ) && (r is Ok <==> spec_apply(marked.endpoints[i], d, now).1))
                    &&& q_ok && ddr_acceptable(e.origin, m) && aliases(ddr_records(m.answers, m.questions[0])).len() == 0
                        ==> match spec_designations(e.origin, m, now) {
                        Err(x) => r == Err::<(), Error>(x) && final(self)@ == marked,
                        Ok(d) => final(self)@ == with_endpoint(marked, i, spec_apply(marked.endpoints[i], d, now).0) && (r is Ok
                            <==> spec_apply(marked.endpoints[i], d, now).1),
                    }
                },
            },
    {
        if self.explicit {
            return Err(Error::Invalid);
        }
        let ghost v0 = self@;
        let mut i: usize = 0;
        loop
            invariant
                i <= self.endpoints@.len(),
                self@ == v0,
                v0 == old(self)@,
                endpoints_ok(v0.endpoints),
                !v0.explicit,
                first_ddr(v0.endpoints, id, now, 0) == first_ddr(v0.endpoints, id, now, i as int),
            ensures
                i < self.endpoints@.len(),
                self@ == v0,
                first_ddr(v0.endpoints, id, now, 0) == Some(i as int),
            decreases self.endpoints@.len() - i,
        {
            if i >= self.endpoints.len() {
                return Err(Error::Invalid);
            }
            assert(v0.endpoints[i as int] == endpoint_view(self.endpoints@[i as int]));
            let hit = match self.endpoints[i].ddr {
                DdrState::Waiting { id: token, until } => token == id && now < until,
                _ => false,
            };
            if hit {
                assert(ddr_waiting(v0.endpoints[i as int], id, now));
                break;
            }
            i = i + 1;
        }
        assert(first_ddr(v0.endpoints, id, now, 0) == Some(i as int));
        let ghost e0 = v0.endpoints[i as int];
        let ghost sb = self.endpoints@;
        self.endpoints[i].ddr = DdrState::Idle(now.saturating_add(30000));
        let ghost marked = with_endpoint(v0, i as int, EndpointV { ddr: DdrState::Idle(sat_add(now, 30000)), ..e0 });
        proof {
            assert forall|k: int| 0 <= k < marked.endpoints.len() implies #[trigger] self@.endpoints[k] == marked.endpoints[k] by {
                assert(self@.endpoints[k] == endpoint_view(self.endpoints@[k]));
                if k != i {
                    assert(self.endpoints@[k] == sb[k]);
                    assert(v0.endpoints[k] == endpoint_view(sb[k]));
                }
            }
            assert(self@.endpoints =~= marked.endpoints);
            assert(self@ == marked);
            lemma_update_ok(v0.endpoints, i as int, marked.endpoints[i as int]);
        }
        let e = &self.endpoints[i];
        assert(endpoint_view(*e) == marked.endpoints[i as int]);
        let n = e.path.len();
        if message.questions.len() != 1 || !message.questions[0].name.eq(&e.path[n - 1]) {
            proof {
                if message.questions@.len() == 1 {
                    assert(message@.questions[0] == message.questions@[0]@);
                }
            }
            return Err(Error::Invalid);
        }
        assert(message@.questions[0] == message.questions@[0]@);
        let origin = e.origin;
        let d = match ddr_candidates(&origin, message, now, rng) {
            Ok(d) => d,
            Err(x) => return Err(x),
        };
        let ghost dv = d@;
        let r = self.apply_at(i, d, now);
        proof {
            if ddr_acceptable(origin, message@) {
                let rs = aliases(ddr_records(message@.answers, message@.questions[0]));
                if rs.len() > 0 {
                    let k = choose|k: int| 0 <= k < rs.len() && dv == alias_discovery(#[trigger] rs[k], message@.questions[0], now);
                    assert(ddr_possible(origin, message@, now, dv));
                } else {
                    assert(ddr_possible(origin, message@, now, dv));
                }
            }
        }
        r
    }
}

impl Default for Policy {
    fn default() -> (r: Policy)
        ensures
            r.wf(),
            r@.endpoints.len() == 0,
            r@.sequence == 0,
            !r@.explicit,
    {
        Policy::new()
    }
}

} // verus!
