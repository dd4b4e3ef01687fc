//! IPv4 address classes used by the router.
use crate::error::Error;
use crate::ipv4::wire::parse_ipv4;
use vstd::prelude::*;

pub mod dhcp;
pub mod wire;

verus! {

/// A usable unicast source or destination: not 0.0.0.0/8, multicast, class E, broadcast or
/// loopback.
pub open spec fn spec_unicast(a: Seq<u8>) -> bool {
    &&& a[0] != 0
    &&& a[0] < 224
    &&& a[0] != 127
}

pub open spec fn is_link_local4(a: Seq<u8>) -> bool {
    a[0] == 169 && a[1] == 254
}

pub open spec fn is_private4(a: Seq<u8>) -> bool {
    a[0] == 10 || (a[0] == 172 && 16 <= a[1] < 32) || (a[0] == 192 && a[1] == 168)
}

/// A route: a destination network, its prefix length, and the next hop (0.0.0.0 for
/// on-link).
#[derive(Clone, Copy, Debug)]
pub struct Route {
    pub network: [u8; 4],
    pub length: u8,
    pub gateway: [u8; 4],
}

/// Whether an address may be used as a unicast endpoint.
pub fn unicast(ip: [u8; 4]) -> (r: bool)
    ensures
        r == spec_unicast(ip@),
{
    let unspecified = ip[0] == 0 && ip[1] == 0 && ip[2] == 0 && ip[3] == 0;
    let multicast = ip[0] >= 224 && ip[0] <= 239;
    let broadcast = ip[0] == 255 && ip[1] == 255 && ip[2] == 255 && ip[3] == 255;
    let loopback = ip[0] == 127;
    !unspecified && !multicast && !broadcast && !loopback && ip[0] != 0 && ip[0] < 240
}

/// The mask of a prefix of `n` bits.
pub open spec fn prefix_mask(n: u8) -> u32 {
    if n == 0 || n > 32 {
        0
    } else {
        0xffff_ffffu32 << ((32 - n) as u32)
    }
}

/// The host part of a prefix of `n` bits.
pub open spec fn host_mask(n: u8) -> u32 {
    if n >= 32 {
        0
    } else {
        0xffff_ffffu32 >> (n as u32)
    }
}

/// An address as a number.
pub open spec fn addr32(a: Seq<u8>) -> u32 {
    crate::bytes::be32(a[0], a[1], a[2], a[3])
}

/// Two addresses agree on their first `length` bits.
pub open spec fn spec_same_prefix(a: Seq<u8>, b: Seq<u8>, length: u8) -> bool {
    addr32(a) & prefix_mask(length) == addr32(b) & prefix_mask(length)
}

/// An address is neither the network nor the broadcast address of its prefix (prefixes of
/// 31 and 32 bits have neither).
pub open spec fn spec_host_address(a: Seq<u8>, length: u8) -> bool {
    length >= 31 || (addr32(a) & host_mask(length) != 0 && addr32(a) & host_mask(length) != host_mask(length))
}

pub open spec fn all_zero4(a: Seq<u8>) -> bool {
    a[0] == 0 && a[1] == 0 && a[2] == 0 && a[3] == 0
}

/// An address and prefix that an interface may take, with an optional on-link gateway.
pub open spec fn configure_ok(address: Seq<u8>, length: u8, gateway: Option<Seq<u8>>) -> bool {
    &&& length <= 32
    &&& spec_unicast(address)
    &&& spec_host_address(address, length)
    &&& gateway matches Some(g) ==> spec_unicast(g) && spec_same_prefix(address, g, length)
}

pub struct RouteV {
    pub network: Seq<u8>,
    pub length: u8,
    pub gateway: Seq<u8>,
}

pub open spec fn route_view(r: Route) -> RouteV {
    RouteV { network: r.network@, length: r.length, gateway: r.gateway@ }
}

pub open spec fn routes_view(v: Seq<Route>) -> Seq<RouteV> {
    v.map_values(|r: Route| route_view(r))
}

/// A route that an interface at `address`/`length` accepts: a unicast network with no host
/// bits (or the default route), and an on-link unicast host as gateway, or none.
pub open spec fn route_ok(r: RouteV, address: Seq<u8>, length: u8) -> bool {
    &&& r.length <= 32
    &&& r.length != 0 ==> spec_unicast(r.network)
    &&& addr32(r.network) & host_mask(r.length) == 0
    &&& !all_zero4(r.gateway) ==> (spec_unicast(r.gateway) && spec_host_address(r.gateway, length)
        && spec_same_prefix(address, r.gateway, length))
}

/// At most 64 routes, each acceptable.
pub open spec fn routes_ok(rs: Seq<RouteV>, address: Seq<u8>, length: u8) -> bool {
    &&& rs.len() <= 64
    &&& forall|i: int| 0 <= i < rs.len() ==> route_ok(#[trigger] rs[i], address, length)
}

pub fn mask_exec(n: u8) -> (r: u32)
    ensures
        r == prefix_mask(n),
{
    if n == 0 || n > 32 {
        0
    } else {
        0xffff_ffffu32 << ((32 - n) as u32)
    }
}

fn host_mask_exec(n: u8) -> (r: u32)
    ensures
        r == host_mask(n),
{
    if n >= 32 {
        0
    } else {
        0xffff_ffffu32 >> (n as u32)
    }
}

pub fn addr_u32(a: [u8; 4]) -> (r: u32)
    ensures
        r == addr32(a@),
{
    (a[0] as u32) * 16777216 + (a[1] as u32) * 65536 + (a[2] as u32) * 256 + (a[3] as u32)
}

/// Whether two addresses share their first `length` bits.
pub fn same_prefix(a: [u8; 4], b: [u8; 4], length: u8) -> (r: bool)
    ensures
        r == spec_same_prefix(a@, b@, length),
{
    let mask = mask_exec(length);
    addr_u32(a) & mask == addr_u32(b) & mask
}

/// Whether an address is a host of its prefix.
pub fn host_address(address: [u8; 4], length: u8) -> (r: bool)
    ensures
        r == spec_host_address(address@, length),
{
    let mask = host_mask_exec(length);
    let v = addr_u32(address);
    length >= 31 || (v & mask != 0 && v & mask != mask)
}

fn route_allowed(r: &Route, address: [u8; 4], length: u8) -> (ok: bool)
    ensures
        ok == route_ok(route_view(*r), address@, length),
{
    if r.length > 32 {
        return false;
    }
    if r.length != 0 && !unicast(r.network) {
        return false;
    }
    if addr_u32(r.network) & host_mask_exec(r.length) != 0 {
        return false;
    }
    let g = r.gateway;
    let unspecified = g[0] == 0 && g[1] == 0 && g[2] == 0 && g[3] == 0;
    if !unspecified && (!unicast(g) || !host_address(g, length) || !same_prefix(address, g, length)) {
        return false;
    }
    true
}

/// Total octets of a list of packets.
pub open spec fn total_len(s: Seq<Seq<u8>>) -> int
    decreases s.len(),
{
    if s.len() == 0 {
        0
    } else {
        total_len(s.drop_last()) + s.last().len()
    }
}

pub proof fn lemma_total_len_push(s: Seq<Seq<u8>>, x: Seq<u8>)
    ensures
        total_len(s.push(x)) == total_len(s) + x.len(),
{
    assert(s.push(x).drop_last() =~= s);
}

pub proof fn lemma_total_len_nonneg(s: Seq<Seq<u8>>)
    ensures
        total_len(s) >= 0,
    decreases s.len(),
{
    if s.len() > 0 {
        lemma_total_len_nonneg(s.drop_last());
    }
}

pub proof fn lemma_total_len_drop_first(s: Seq<Seq<u8>>)
    requires
        s.len() > 0,
    ensures
        total_len(s) == s[0].len() + total_len(s.drop_first()),
    decreases s.len(),
{
    if s.len() > 1 {
        lemma_total_len_drop_first(s.drop_last());
        assert(s.drop_last().drop_first() =~= s.drop_first().drop_last());
        assert(s.drop_first().last() == s.last());
        assert(total_len(s.drop_first()) == total_len(s.drop_first().drop_last()) + s.drop_first().last().len());
    } else {
        assert(s.drop_last() =~= Seq::<Seq<u8>>::empty());
        assert(s.drop_first() =~= Seq::<Seq<u8>>::empty());
        assert(total_len(s.drop_last()) == 0);
    }
}

/// A neighbor entry: its link address once resolved, when it expires or the next probe is
/// due, the probes sent, and the packets waiting for resolution.
#[derive(Clone, Debug)]
struct Neighbor {
    ip: [u8; 4],
    mac: Option<[u8; 6]>,
    deadline: u64,
    attempts: u8,
    queue: Vec<Vec<u8>>,
}

pub struct NeighborV {
    pub ip: Seq<u8>,
    pub mac: Option<Seq<u8>>,
    pub deadline: u64,
    pub attempts: u8,
    pub queue: Seq<Seq<u8>>,
}

pub open spec fn packets_view(v: Seq<Vec<u8>>) -> Seq<Seq<u8>> {
    v.map_values(|p: Vec<u8>| p@)
}

spec fn neighbor_view(n: Neighbor) -> NeighborV {
    NeighborV {
        ip: n.ip@,
        mac: match n.mac {
            Some(m) => Some(m@),
            None => None,
        },
        deadline: n.deadline,
        attempts: n.attempts,
        queue: packets_view(n.queue@),
    }
}

spec fn neighbors_view(v: Seq<Neighbor>) -> Seq<NeighborV> {
    v.map_values(|n: Neighbor| neighbor_view(n))
}

/// Packets queued over all neighbors.
pub open spec fn queued_packets(ns: Seq<NeighborV>) -> int
    decreases ns.len(),
{
    if ns.len() == 0 {
        0
    } else {
        queued_packets(ns.drop_last()) + ns.last().queue.len()
    }
}

/// Octets queued over all neighbors.
pub open spec fn queued_bytes(ns: Seq<NeighborV>) -> int
    decreases ns.len(),
{
    if ns.len() == 0 {
        0
    } else {
        queued_bytes(ns.drop_last()) + total_len(ns.last().queue)
    }
}

/// The first entry for `ip` at or after `i`.
pub open spec fn find_from(ns: Seq<NeighborV>, ip: Seq<u8>, i: int) -> Option<int>
    decreases ns.len() - i,
{
    if i < 0 || i >= ns.len() {
        None
    } else if ns[i].ip == ip {
        Some(i)
    } else {
        find_from(ns, ip, i + 1)
    }
}

/// The entry for `ip`, if any.
pub open spec fn find(ns: Seq<NeighborV>, ip: Seq<u8>) -> Option<int> {
    find_from(ns, ip, 0)
}

pub proof fn lemma_find_from(ns: Seq<NeighborV>, ip: Seq<u8>, i: int)
    requires
        0 <= i,
    ensures
        find_from(ns, ip, i) matches Some(k) ==> i <= k < ns.len() && ns[k].ip == ip,
        find_from(ns, ip, i) is None ==> forall|j: int| i <= j < ns.len() ==> ns[j].ip != ip,
    decreases ns.len() - i,
{
    if i < ns.len() && ns[i].ip != ip {
        lemma_find_from(ns, ip, i + 1);
    }
}

/// Keeps the entries that `keep` accepts, in order, each changed by `f`.
pub open spec fn sift(ns: Seq<NeighborV>, keep: spec_fn(NeighborV) -> bool, f: spec_fn(NeighborV) -> NeighborV) -> Seq<
    NeighborV,
>
    decreases ns.len(),
{
    if ns.len() == 0 {
        ns
    } else {
        let sub = sift(ns.drop_last(), keep, f);
        if keep(ns.last()) {
            sub.push(f(ns.last()))
        } else {
            sub
        }
    }
}

/// `f` keeps an entry's address and queue.
pub open spec fn keeps_identity(f: spec_fn(NeighborV) -> NeighborV) -> bool {
    forall|n: NeighborV| #![trigger f(n)] f(n).ip == n.ip && f(n).queue == n.queue
}

pub proof fn lemma_sift_from(ns: Seq<NeighborV>, keep: spec_fn(NeighborV) -> bool, f: spec_fn(NeighborV) -> NeighborV)
    requires
        keeps_identity(f),
    ensures
        sift(ns, keep, f).len() <= ns.len(),
        forall|i: int| 0 <= i < sift(ns, keep, f).len() ==> exists|j: int| 0 <= j < ns.len() && #[trigger] sift(ns, keep, f)[i].ip == ns[j].ip,
        queued_packets(sift(ns, keep, f)) <= queued_packets(ns),
        queued_bytes(sift(ns, keep, f)) <= queued_bytes(ns),
    decreases ns.len(),
{
    if ns.len() > 0 {
        let sub = sift(ns.drop_last(), keep, f);
        lemma_sift_from(ns.drop_last(), keep, f);
        lemma_total_len_nonneg(ns.last().queue);
        let out = sift(ns, keep, f);
        assert forall|i: int| 0 <= i < out.len() implies exists|j: int| 0 <= j < ns.len() && #[trigger] out[i].ip == ns[j].ip by {
            if i < sub.len() {
                assert(out[i] == sub[i]);
                let j = choose|j: int| 0 <= j < ns.drop_last().len() && sub[i].ip == ns.drop_last()[j].ip;
                assert(ns[j] == ns.drop_last()[j]);
            } else {
                assert(out[i] == f(ns.last()));
                assert(out[i].ip == ns[ns.len() - 1].ip);
            }
        }
        assert(queued_packets(ns) == queued_packets(ns.drop_last()) + ns.last().queue.len());
        assert(queued_bytes(ns) == queued_bytes(ns.drop_last()) + total_len(ns.last().queue));
        if keep(ns.last()) {
            assert(out.drop_last() =~= sub);
            assert(out.last() == f(ns.last()));
            assert(f(ns.last()).queue == ns.last().queue);
            assert(queued_packets(out) == queued_packets(sub) + ns.last().queue.len());
            assert(queued_bytes(out) == queued_bytes(sub) + total_len(ns.last().queue));
        }
    }
}

pub proof fn lemma_sift_sorted(ns: Seq<NeighborV>, keep: spec_fn(NeighborV) -> bool, f: spec_fn(NeighborV) -> NeighborV)
    requires
        keeps_identity(f),
        neighbors_sorted(ns),
    ensures
        neighbors_sorted(sift(ns, keep, f)),
    decreases ns.len(),
{
    if ns.len() > 0 {
        let sub = sift(ns.drop_last(), keep, f);
        assert(neighbors_sorted(ns.drop_last())) by {
            assert forall|i: int, j: int| 0 <= i < j < ns.drop_last().len() implies addr32(
                #[trigger] ns.drop_last()[i].ip,
            ) < addr32(#[trigger] ns.drop_last()[j].ip) by {
                assert(ns.drop_last()[i] == ns[i] && ns.drop_last()[j] == ns[j]);
            }
        }
        lemma_sift_sorted(ns.drop_last(), keep, f);
        lemma_sift_from(ns.drop_last(), keep, f);
        if keep(ns.last()) {
            let out = sift(ns, keep, f);
            assert forall|i: int, j: int| 0 <= i < j < out.len() implies addr32(#[trigger] out[i].ip) < addr32(
                #[trigger] out[j].ip,
            ) by {
                assert(out[i] == sub[i]);
                if j < sub.len() {
                    assert(out[j] == sub[j]);
                } else {
                    let k = choose|k: int| 0 <= k < ns.drop_last().len() && sub[i].ip == ns.drop_last()[k].ip;
                    assert(ns.drop_last()[k] == ns[k]);
                    assert(out[j].ip == ns[ns.len() - 1].ip);
                }
            }
        }
    }
}

pub proof fn lemma_queued_concat(a: Seq<NeighborV>, b: Seq<NeighborV>)
    ensures
        queued_packets(a + b) == queued_packets(a) + queued_packets(b),
        queued_bytes(a + b) == queued_bytes(a) + queued_bytes(b),
    decreases b.len(),
{
    if b.len() == 0 {
        assert(a + b =~= a);
    } else {
        assert((a + b).drop_last() =~= a + b.drop_last());
        lemma_queued_concat(a, b.drop_last());
    }
}

pub proof fn lemma_queued_one(n: NeighborV)
    ensures
        queued_packets(seq![n]) == n.queue.len(),
        queued_bytes(seq![n]) == total_len(n.queue),
{
    assert(seq![n].drop_last() =~= Seq::<NeighborV>::empty());
    assert(seq![n].last() == n);
    assert(queued_packets(Seq::<NeighborV>::empty()) == 0);
    assert(queued_bytes(Seq::<NeighborV>::empty()) == 0);
}

/// Replacing one entry changes the totals by the difference of its queues.
pub proof fn lemma_queued_update(ns: Seq<NeighborV>, j: int, n: NeighborV)
    requires
        0 <= j < ns.len(),
    ensures
        queued_packets(ns.update(j, n)) == queued_packets(ns) - ns[j].queue.len() + n.queue.len(),
        queued_bytes(ns.update(j, n)) == queued_bytes(ns) - total_len(ns[j].queue) + total_len(n.queue),
{
    let a = ns.take(j);
    let c = ns.skip(j + 1);
    assert(ns =~= a + seq![ns[j]] + c);
    assert(ns.update(j, n) =~= a + seq![n] + c);
    lemma_queued_concat(a + seq![ns[j]], c);
    lemma_queued_concat(a, seq![ns[j]]);
    lemma_queued_concat(a + seq![n], c);
    lemma_queued_concat(a, seq![n]);
    lemma_queued_one(ns[j]);
    lemma_queued_one(n);
}

/// Inserting an entry adds its queue to the totals.
pub proof fn lemma_queued_insert(ns: Seq<NeighborV>, k: int, n: NeighborV)
    requires
        0 <= k <= ns.len(),
    ensures
        queued_packets(ns.insert(k, n)) == queued_packets(ns) + n.queue.len(),
        queued_bytes(ns.insert(k, n)) == queued_bytes(ns) + total_len(n.queue),
{
    let a = ns.take(k);
    let c = ns.skip(k);
    assert(ns =~= a + c);
    assert(ns.insert(k, n) =~= a + seq![n] + c);
    lemma_queued_concat(a, c);
    lemma_queued_concat(a + seq![n], c);
    lemma_queued_concat(a, seq![n]);
    lemma_queued_one(n);
}

pub proof fn lemma_queued_nonneg(ns: Seq<NeighborV>)
    ensures
        queued_packets(ns) >= 0,
        queued_bytes(ns) >= 0,
    decreases ns.len(),
{
    if ns.len() > 0 {
        lemma_queued_nonneg(ns.drop_last());
        lemma_total_len_nonneg(ns.last().queue);
    }
}

/// Four-octet addresses with the same number are the same.
pub proof fn lemma_addr32_injective(a: Seq<u8>, b: Seq<u8>)
    requires
        a.len() == 4,
        b.len() == 4,
        addr32(a) == addr32(b),
    ensures
        a == b,
{
    lemma_be32_bytes(a[0], a[1], a[2], a[3]);
    lemma_be32_bytes(b[0], b[1], b[2], b[3]);
    assert(a =~= seq![a[0], a[1], a[2], a[3]]);
    assert(b =~= seq![b[0], b[1], b[2], b[3]]);
}

pub proof fn lemma_be32_bytes(a: u8, b: u8, c: u8, d: u8)
    ensures
        crate::bytes::be32_bytes(crate::bytes::be32(a, b, c, d)) == seq![a, b, c, d],
{
    let v: int = a * 16777216 + b * 65536 + c * 256 + d;
    assert(0 <= v < 0x1_0000_0000) by (nonlinear_arith)
        requires
            v == a * 16777216 + b * 65536 + c * 256 + d,
            0 <= a < 256,
            0 <= b < 256,
            0 <= c < 256,
            0 <= d < 256,
    ;
    assert(v / 16777216 == a && (v / 65536) % 256 == b && (v / 256) % 256 == c && v % 256 == d) by (nonlinear_arith)
        requires
            v == a * 16777216 + b * 65536 + c * 256 + d,
            0 <= a < 256,
            0 <= b < 256,
            0 <= c < 256,
            0 <= d < 256,
    ;
    assert(crate::bytes::be32(a, b, c, d) == v);
    assert(crate::bytes::be32_bytes(crate::bytes::be32(a, b, c, d)) =~= seq![a, b, c, d]);
}

/// Neighbor entries in increasing address order, one per address.
pub open spec fn neighbors_sorted(ns: Seq<NeighborV>) -> bool {
    forall|i: int, j: int| 0 <= i < j < ns.len() ==> addr32(#[trigger] ns[i].ip) < addr32(#[trigger] ns[j].ip)
}

pub struct Ipv4V {
    pub mac: Seq<u8>,
    pub address: Option<(Seq<u8>, u8)>,
    pub gateway: Option<Seq<u8>>,
    pub neighbors: Seq<NeighborV>,
    pub routes: Seq<RouteV>,
    pub input: Seq<Seq<u8>>,
}

pub open spec fn opt_addr(a: Option<[u8; 4]>) -> Option<Seq<u8>> {
    match a {
        Some(x) => Some(x@),
        None => None,
    }
}

pub open spec fn opt_prefix(a: Option<([u8; 4], u8)>) -> Option<(Seq<u8>, u8)> {
    match a {
        Some((x, l)) => Some((x@, l)),
        None => None,
    }
}

/// IPv4 on the AIL: the address, routes, neighbor cache with queues awaiting resolution,
/// and received packets awaiting the router.
pub struct Ipv4 {
    pub mac: [u8; 6],
    pub address: Option<([u8; 4], u8)>,
    pub gateway: Option<[u8; 4]>,
    neighbors: Vec<Neighbor>,
    routes: Vec<Route>,
    input: Vec<Vec<u8>>,
}

impl View for Ipv4 {
    type V = Ipv4V;

    closed spec fn view(&self) -> Ipv4V {
        Ipv4V {
            mac: self.mac@,
            address: opt_prefix(self.address),
            gateway: opt_addr(self.gateway),
            neighbors: neighbors_view(self.neighbors@),
            routes: routes_view(self.routes@),
            input: packets_view(self.input@),
        }
    }
}

pub(crate) fn copy_routes(routes: &[Route]) -> (r: Vec<Route>)
    ensures
        routes_view(r@) == routes_view(routes@),
{
    let mut out: Vec<Route> = Vec::new();
    let mut i: usize = 0;
    while i < routes.len()
        invariant
            i <= routes@.len(),
            out@ == routes@.take(i as int),
        decreases routes@.len() - i,
    {
        out.push(routes[i]);
        assert(out@ =~= routes@.take(i + 1));
        i = i + 1;
    }
    assert(routes@.take(routes@.len() as int) =~= routes@);
    out
}

impl Ipv4 {
    /// Bounds that the neighbor cache and the input queue keep.
    pub open spec fn wf(&self) -> bool {
        let v = self@;
        &&& v.neighbors.len() <= 256
        &&& neighbors_sorted(v.neighbors)
        &&& queued_packets(v.neighbors) <= 64
        &&& queued_bytes(v.neighbors) <= 256 * 1024
        &&& v.input.len() <= 64
        &&& total_len(v.input) <= 256 * 1024
        &&& v.routes.len() <= 64
        &&& v.address is None ==> v.neighbors.len() == 0
    }

    /// An unconfigured interface with the given link address.
    pub fn new(mac: [u8; 6]) -> (r: Ipv4)
        ensures
            r.wf(),
            r@.mac == mac@,
            r@.address is None,
            r@.gateway is None,
            r@.neighbors.len() == 0,
            r@.routes.len() == 0,
            r@.input.len() == 0,
    {
        let r = Ipv4 { mac, address: None, gateway: None, neighbors: Vec::new(), routes: Vec::new(), input: Vec::new() };
        assert(r@.neighbors =~= Seq::<NeighborV>::empty());
        assert(r@.input =~= Seq::<Seq<u8>>::empty());
        r
    }

    /// Takes an address and prefix, and optionally an on-link gateway; forgets neighbors,
    /// routes and pending input. Refuses, leaving the interface as it was, an address that
    /// is not a unicast host of its prefix or a gateway off the prefix.
    pub fn configure(&mut self, address: [u8; 4], length: u8, gateway: Option<[u8; 4]>) -> (r: Result<(), Error>)
        requires
            old(self).wf(),
        ensures
            final(self).wf(),
            r is Ok <==> configure_ok(address@, length, opt_addr(gateway)),
            r is Err ==> *final(self) == *old(self) && r == Err::<(), Error>(Error::Invalid),
            r is Ok ==> final(self)@ == (Ipv4V {
                address: Some((address@, length)),
                gateway: opt_addr(gateway),
                neighbors: Seq::empty(),
                routes: Seq::empty(),
                input: Seq::empty(),
                ..old(self)@
            }),
    {
        let bad_gateway = match gateway {
            Some(g) => !unicast(g) || !same_prefix(address, g, length),
            None => false,
        };
        if length > 32 || !unicast(address) || !host_address(address, length) || bad_gateway {
            return Err(Error::Invalid);
        }
        self.address = Some((address, length));
        self.gateway = gateway;
        self.neighbors = Vec::new();
        self.routes = Vec::new();
        self.input = Vec::new();
        assert(self@.neighbors =~= Seq::<NeighborV>::empty());
        assert(self@.routes =~= Seq::<RouteV>::empty());
        assert(self@.input =~= Seq::<Seq<u8>>::empty());
        Ok(())
    }

    /// Drops the address, gateway, neighbors, routes and pending input.
    pub fn unavailable(&mut self)
        requires
            old(self).wf(),
        ensures
            final(self).wf(),
            final(self)@ == (Ipv4V {
                address: None,
                gateway: None,
                neighbors: Seq::empty(),
                routes: Seq::empty(),
                input: Seq::empty(),
                ..old(self)@
            }),
    {
        self.address = None;
        self.gateway = None;
        self.neighbors = Vec::new();
        self.routes = Vec::new();
        self.input = Vec::new();
        assert(self@.neighbors =~= Seq::<NeighborV>::empty());
        assert(self@.routes =~= Seq::<RouteV>::empty());
        assert(self@.input =~= Seq::<Seq<u8>>::empty());
    }

    /// Whether an address is configured.
    pub fn ready(&self) -> (r: bool)
        ensures
            r == self@.address is Some,
    {
        self.address.is_some()
    }

    pub fn route_count(&self) -> (r: usize)
        ensures
            r == self@.routes.len(),
    {
        self.routes.len()
    }

    pub fn neighbor_count(&self) -> (r: usize)
        ensures
            r == self@.neighbors.len(),
    {
        self.neighbors.len()
    }

    /// Replaces the routes and forgets neighbors. Refuses, leaving the interface as it was,
    /// without an address, or with more than 64 routes or any that `route_ok` refuses.
    pub fn set_routes(&mut self, routes: &[Route]) -> (r: Result<(), Error>)
        requires
            old(self).wf(),
        ensures
            final(self).wf(),
            r is Ok <==> (old(self)@.address matches Some((a, l)) && routes_ok(routes_view(routes@), a, l)),
            r is Err ==> *final(self) == *old(self) && r == Err::<(), Error>(Error::Invalid),
            r is Ok ==> final(self)@ == (Ipv4V { routes: routes_view(routes@), neighbors: Seq::empty(), ..old(self)@ }),
    {
        let (address, length) = match self.address {
            Some(x) => x,
            None => return Err(Error::Invalid),
        };
        if routes.len() > 64 {
            return Err(Error::Invalid);
        }
        let mut i: usize = 0;
        while i < routes.len()
            invariant
                i <= routes@.len(),
                routes@.len() <= 64,
                self.wf(),
                *self == *old(self),
                self.address == Some((address, length)),
                forall|j: int| 0 <= j < i ==> route_ok(#[trigger] routes_view(routes@)[j], address@, length),
            decreases routes@.len() - i,
        {
            if !route_allowed(&routes[i], address, length) {
                assert(!route_ok(routes_view(routes@)[i as int], address@, length));
                return Err(Error::Invalid);
            }
            i = i + 1;
        }
        self.routes = copy_routes(routes);
        self.neighbors = Vec::new();
        assert(self@.neighbors =~= Seq::<NeighborV>::empty());
        Ok(())
    }

    /// The number of received packets waiting and their total octets.
    pub fn pending_input(&self) -> (r: (usize, usize))
        requires
            self.wf(),
        ensures
            r.0 == self@.input.len(),
            r.1 == total_len(self@.input),
    {
        let mut bytes: usize = 0;
        let mut i: usize = 0;
        let ghost all = packets_view(self.input@);
        while i < self.input.len()
            invariant
                i <= self.input@.len(),
                all == packets_view(self.input@),
                total_len(all) <= 256 * 1024,
                bytes == total_len(all.take(i as int)),
            decreases self.input@.len() - i,
        {
            proof {
                assert(all.take(i + 1).drop_last() =~= all.take(i as int));
                lemma_total_len_prefix(all, i + 1);
                lemma_total_len_nonneg(all.take(i as int));
            }
            bytes = bytes + self.input[i].len();
            i = i + 1;
        }
        assert(all.take(all.len() as int) =~= all);
        (self.input.len(), bytes)
    }

    /// The oldest received packet, if any.
    pub fn take_packet(&mut self) -> (r: Option<Vec<u8>>)
        requires
            old(self).wf(),
        ensures
            final(self).wf(),
            old(self)@.input.len() == 0 ==> r is None && *final(self) == *old(self),
            old(self)@.input.len() > 0 ==> (r matches Some(p) && p@ == old(self)@.input[0]
                && final(self)@ == (Ipv4V { input: old(self)@.input.drop_first(), ..old(self)@ })),
    {
        if self.input.len() == 0 {
            return None;
        }
        let ghost before = packets_view(self.input@);
        let p = self.input.remove(0);
        assert(packets_view(self.input@) =~= before.drop_first());
        proof {
            lemma_total_len_drop_first(before);
            lemma_total_len_nonneg(before.drop_first());
        }
        Some(p)
    }
}

/// The total of a prefix bounds the next prefix's total.
pub proof fn lemma_total_len_prefix(s: Seq<Seq<u8>>, i: int)
    requires
        0 < i <= s.len(),
    ensures
        total_len(s.take(i)) == total_len(s.take(i - 1)) + s[i - 1].len(),
        total_len(s.take(i)) <= total_len(s),
    decreases s.len() - i,
{
    assert(s.take(i).drop_last() =~= s.take(i - 1));
    if i < s.len() {
        lemma_total_len_prefix(s, i + 1);
        lemma_total_len_nonneg(s.take(i));
    } else {
        assert(s.take(i) =~= s);
    }
}

/// The route that covers `d` with the longest prefix; of equally long ones, the last.
pub open spec fn best_route(rs: Seq<RouteV>, d: Seq<u8>) -> Option<RouteV>
    decreases rs.len(),
{
    if rs.len() == 0 {
        None
    } else {
        let b = best_route(rs.drop_last(), d);
        let r = rs.last();
        if spec_same_prefix(r.network, d, r.length) && (match b {
            None => true,
            Some(x) => r.length >= x.length,
        }) {
            Some(r)
        } else {
            b
        }
    }
}

/// Where a packet to `d` goes next: nowhere for a non-unicast destination or the network or
/// broadcast address of the own prefix; else through the best route if it is more specific
/// than the own prefix or `d` is off-link (directly, for an on-link route); else directly
/// when on-link, else to the gateway.
pub open spec fn spec_next_hop(v: Ipv4V, d: Seq<u8>) -> Option<Seq<u8>> {
    match v.address {
        None => None,
        Some((address, length)) => if !spec_unicast(d) {
            None
        } else if length < 31 && spec_same_prefix(address, d, length) && (addr32(d) & host_mask(length) == host_mask(length)
            || addr32(d) & host_mask(length) == 0) {
            None
        } else {
            match best_route(v.routes, d) {
                Some(r) if r.length > length || !spec_same_prefix(address, d, length) => Some(
                    if all_zero4(r.gateway) {
                        d
                    } else {
                        r.gateway
                    },
                ),
                _ => if spec_same_prefix(address, d, length) {
                    Some(d)
                } else {
                    v.gateway
                },
            }
        },
    }
}

/// The best route, when there is one, is one of the routes and covers the destination.
proof fn lemma_best_route_member(rs: Seq<RouteV>, d: Seq<u8>)
    ensures
        best_route(rs, d) matches Some(r) ==> exists|i: int|
            0 <= i < rs.len() && #[trigger] rs[i] == r && spec_same_prefix(r.network, d, r.length),
        best_route(rs, d) is None ==> forall|i: int|
            0 <= i < rs.len() ==> !spec_same_prefix(#[trigger] rs[i].network, d, rs[i].length),
    decreases rs.len(),
{
    if rs.len() > 0 {
        let p = rs.drop_last();
        lemma_best_route_member(p, d);
        if let Some(r) = best_route(rs, d) {
            if r != rs.last() || !spec_same_prefix(rs.last().network, d, rs.last().length) {
                let i = choose|i: int| 0 <= i < p.len() && #[trigger] p[i] == r && spec_same_prefix(r.network, d, r.length);
                assert(rs[i] == p[i]);
            } else {
                assert(rs[rs.len() - 1] == r);
            }
        } else {
            assert forall|i: int| 0 <= i < rs.len() implies !spec_same_prefix(#[trigger] rs[i].network, d, rs[i].length) by {
                if i < p.len() {
                    assert(rs[i] == p[i]);
                }
            }
        }
    }
}

/// A unicast destination inside the interface's own prefix, that is neither the network nor
/// the broadcast address of it, is reached directly unless a route more specific than the
/// own prefix covers it: routes no longer than the own prefix (the default route among them)
/// never take on-link traffic away from the link.
pub proof fn lemma_on_link_direct(v: Ipv4V, d: Seq<u8>)
    requires
        v.address matches Some((address, length)) && {
            &&& spec_unicast(d)
            &&& spec_same_prefix(address, d, length)
            &&& (length >= 31 || (addr32(d) & host_mask(length) != 0 && addr32(d) & host_mask(length) != host_mask(length)))
            &&& forall|i: int|
                0 <= i < v.routes.len() && spec_same_prefix(#[trigger] v.routes[i].network, d, v.routes[i].length)
                    ==> v.routes[i].length <= length
        },
    ensures
        spec_next_hop(v, d) == Some(d),
{
    lemma_best_route_member(v.routes, d);
}

/// The best route is the last of the longest routes that cover the destination.
proof fn lemma_best_route_longest(rs: Seq<RouteV>, d: Seq<u8>)
    ensures
        best_route(rs, d) matches Some(r) ==> exists|i: int|
            0 <= i < rs.len() && #[trigger] rs[i] == r && spec_same_prefix(r.network, d, r.length) && (forall|j: int|
                0 <= j < rs.len() && spec_same_prefix(#[trigger] rs[j].network, d, rs[j].length) ==> rs[j].length
                    <= r.length) && (forall|j: int|
                i < j < rs.len() && spec_same_prefix(#[trigger] rs[j].network, d, rs[j].length) ==> rs[j].length
                    < r.length),
    decreases rs.len(),
{
    if rs.len() > 0 {
        let p = rs.drop_last();
        let l = rs.len() - 1;
        lemma_best_route_longest(p, d);
        lemma_best_route_member(p, d);
        assert(rs[l] == rs.last());
        let b = best_route(p, d);
        let last = rs.last();
        if spec_same_prefix(last.network, d, last.length) && (match b {
            None => true,
            Some(x) => last.length >= x.length,
        }) {
            assert forall|j: int| 0 <= j < rs.len() && spec_same_prefix(#[trigger] rs[j].network, d, rs[j].length) implies rs[j].length
                <= last.length by {
                if j < l {
                    assert(rs[j] == p[j]);
                }
            }
        } else if let Some(r) = b {
            let i = choose|i: int|
                0 <= i < p.len() && #[trigger] p[i] == r && spec_same_prefix(r.network, d, r.length) && (forall|j: int|
                    0 <= j < p.len() && spec_same_prefix(#[trigger] p[j].network, d, p[j].length) ==> p[j].length
                        <= r.length) && (forall|j: int|
                    i < j < p.len() && spec_same_prefix(#[trigger] p[j].network, d, p[j].length) ==> p[j].length
                        < r.length);
            assert(rs[i] == p[i]);
            assert forall|j: int| 0 <= j < rs.len() && spec_same_prefix(#[trigger] rs[j].network, d, rs[j].length) implies rs[j].length
                <= r.length by {
                if j < l {
                    assert(rs[j] == p[j]);
                }
            }
            assert forall|j: int| i < j < rs.len() && spec_same_prefix(#[trigger] rs[j].network, d, rs[j].length) implies rs[j].length
                < r.length by {
                if j < l {
                    assert(rs[j] == p[j]);
                }
            }
        }
    }
}

/// When a route more specific than the own prefix covers a unicast destination that is not
/// the network or broadcast address of the own prefix, the packet follows the last of the
/// longest covering routes: to its gateway, or directly for an on-link route.
pub proof fn lemma_longest_route_wins(v: Ipv4V, d: Seq<u8>, k: int)
    requires
        v.address matches Some((address, length)) && {
            &&& spec_unicast(d)
            &&& !(length < 31 && spec_same_prefix(address, d, length) && (addr32(d) & host_mask(length) == host_mask(length)
                || addr32(d) & host_mask(length) == 0))
            &&& 0 <= k < v.routes.len()
            &&& spec_same_prefix(v.routes[k].network, d, v.routes[k].length)
            &&& v.routes[k].length > length
        },
    ensures
        exists|i: int|
            0 <= i < v.routes.len() && spec_same_prefix(#[trigger] v.routes[i].network, d, v.routes[i].length) && (forall|j: int|
                0 <= j < v.routes.len() && spec_same_prefix(#[trigger] v.routes[j].network, d, v.routes[j].length)
                    ==> v.routes[j].length <= v.routes[i].length) && (forall|j: int|
                i < j < v.routes.len() && spec_same_prefix(#[trigger] v.routes[j].network, d, v.routes[j].length)
                    ==> v.routes[j].length < v.routes[i].length) && spec_next_hop(v, d) == Some(
                if all_zero4(v.routes[i].gateway) {
                    d
                } else {
                    v.routes[i].gateway
                },
            ),
{
    lemma_best_route_member(v.routes, d);
    lemma_best_route_longest(v.routes, d);
    let r = best_route(v.routes, d)->0;
    let i = choose|i: int|
        0 <= i < v.routes.len() && #[trigger] v.routes[i] == r && spec_same_prefix(r.network, d, r.length) && (forall|j: int|
            0 <= j < v.routes.len() && spec_same_prefix(#[trigger] v.routes[j].network, d, v.routes[j].length) ==> v.routes[j].length
                <= r.length) && (forall|j: int|
            i < j < v.routes.len() && spec_same_prefix(#[trigger] v.routes[j].network, d, v.routes[j].length) ==> v.routes[j].length
                < r.length);
    assert(v.routes[k].length <= r.length);
}

/// A unicast destination outside the own prefix that no route covers goes to the default
/// gateway, or nowhere without one.
pub proof fn lemma_off_link_gateway(v: Ipv4V, d: Seq<u8>)
    requires
        v.address matches Some((address, length)) && {
            &&& spec_unicast(d)
            &&& !spec_same_prefix(address, d, length)
            &&& forall|i: int| 0 <= i < v.routes.len() ==> !spec_same_prefix(#[trigger] v.routes[i].network, d, v.routes[i].length)
        },
    ensures
        spec_next_hop(v, d) == v.gateway,
{
    lemma_best_route_member(v.routes, d);
    if let Some(r) = best_route(v.routes, d) {
        let i = choose|i: int| 0 <= i < v.routes.len() && #[trigger] v.routes[i] == r && spec_same_prefix(r.network, d, r.length);
        assert(!spec_same_prefix(v.routes[i].network, d, v.routes[i].length));
    }
}

/// An Ethernet frame carrying IPv4.
pub open spec fn ethernet_frame(source: Seq<u8>, destination: Seq<u8>, payload: Seq<u8>) -> Seq<u8> {
    destination + source + seq![8u8, 0u8] + payload
}

/// An ARP request from this interface for `target`, broadcast.
pub open spec fn probe_frame(mac: Seq<u8>, sender: Seq<u8>, target: Seq<u8>) -> Seq<u8> {
    seq![255u8, 255u8, 255u8, 255u8, 255u8, 255u8] + mac + seq![8u8, 6u8, 0u8, 1u8, 8u8, 0u8, 6u8, 4u8]
        + crate::bytes::be16_bytes(1) + mac + sender + seq![0u8, 0u8, 0u8, 0u8, 0u8, 0u8] + target
}

fn ethernet(source: [u8; 6], destination: [u8; 6], payload: &[u8]) -> (r: Vec<u8>)
    ensures
        r@ == ethernet_frame(source@, destination@, payload@),
{
    let mut b: Vec<u8> = Vec::new();
    crate::bytes::push_bytes(&mut b, destination.as_slice());
    crate::bytes::push_bytes(&mut b, source.as_slice());
    b.push(8);
    b.push(0);
    crate::bytes::push_bytes(&mut b, payload);
    assert(b@ =~= ethernet_frame(source@, destination@, payload@));
    b
}

impl Ipv4 {
    /// The next hop towards `destination`.
    pub fn next_hop(&self, destination: [u8; 4]) -> (r: Option<[u8; 4]>)
        ensures
            opt_addr(r) == spec_next_hop(self@, destination@),
    {
        let (address, length) = match self.address {
            Some(x) => x,
            None => return None,
        };
        if !unicast(destination) {
            return None;
        }
        let on_link = same_prefix(address, destination, length);
        if length < 31 {
            let mask = host_mask_exec(length);
            let d = addr_u32(destination);
            if on_link && (d & mask == mask || d & mask == 0) {
                return None;
            }
        }
        let mut best: Option<Route> = None;
        let mut i: usize = 0;
        let ghost rs = routes_view(self.routes@);
        while i < self.routes.len()
            invariant
                i <= self.routes@.len(),
                rs == routes_view(self.routes@),
                match best {
                    None => best_route(rs.take(i as int), destination@) is None,
                    Some(b) => best_route(rs.take(i as int), destination@) == Some(route_view(b)),
                },
            decreases self.routes@.len() - i,
        {
            let r = self.routes[i];
            assert(rs.take(i + 1).drop_last() =~= rs.take(i as int));
            assert(rs.take(i + 1).last() == route_view(r));
            if same_prefix(r.network, destination, r.length) {
                let better = match best {
                    None => true,
                    Some(b) => r.length >= b.length,
                };
                if better {
                    best = Some(r);
                }
            }
            i = i + 1;
        }
        assert(rs.take(self.routes@.len() as int) =~= rs);
        if let Some(r) = best {
            if r.length > length || !on_link {
                let g = r.gateway;
                if g[0] == 0 && g[1] == 0 && g[2] == 0 && g[3] == 0 {
                    return Some(destination);
                }
                return Some(g);
            }
        }
        if on_link {
            Some(destination)
        } else {
            self.gateway
        }
    }
}

/// Saturating `a + b`.
pub open spec fn sat_add(a: u64, b: int) -> u64 {
    if a + b > u64::MAX {
        u64::MAX
    } else {
        (a + b) as u64
    }
}

/// Entries that may still be used: unresolved, or resolved and not expired.
pub open spec fn live_at(now: u64) -> spec_fn(NeighborV) -> bool {
    |n: NeighborV| n.mac is None || n.deadline > now
}

pub open spec fn unchanged_entry() -> spec_fn(NeighborV) -> NeighborV {
    |n: NeighborV| n
}

pub open spec fn keep_live(ns: Seq<NeighborV>, now: u64) -> Seq<NeighborV> {
    sift(ns, live_at(now), unchanged_entry())
}

/// Where an entry for address number `key` goes in a sorted cache.
pub open spec fn lower_bound(ns: Seq<NeighborV>, key: u32) -> int
    decreases ns.len(),
{
    if ns.len() == 0 {
        0
    } else if addr32(ns.last().ip) < key {
        ns.len() as int
    } else {
        lower_bound(ns.drop_last(), key)
    }
}

pub proof fn lemma_lower_bound(ns: Seq<NeighborV>, key: u32)
    requires
        neighbors_sorted(ns),
    ensures
        0 <= lower_bound(ns, key) <= ns.len(),
        forall|i: int| 0 <= i < lower_bound(ns, key) ==> addr32(#[trigger] ns[i].ip) < key,
        forall|i: int| lower_bound(ns, key) <= i < ns.len() ==> addr32(#[trigger] ns[i].ip) >= key,
    decreases ns.len(),
{
    if ns.len() > 0 {
        let d = ns.drop_last();
        assert(neighbors_sorted(d)) by {
            assert forall|i: int, j: int| 0 <= i < j < d.len() implies addr32(#[trigger] d[i].ip) < addr32(
                #[trigger] d[j].ip,
            ) by {
                assert(d[i] == ns[i] && d[j] == ns[j]);
            }
        }
        lemma_lower_bound(d, key);
        if addr32(ns.last().ip) < key {
            assert forall|i: int| 0 <= i < ns.len() implies addr32(#[trigger] ns[i].ip) < key by {
                if i < ns.len() - 1 {
                    assert(addr32(ns[i].ip) < addr32(ns[ns.len() - 1].ip));
                }
            }
        } else {
            assert forall|i: int| lower_bound(ns, key) <= i < ns.len() implies addr32(#[trigger] ns[i].ip) >= key by {
                if i < ns.len() - 1 {
                    assert(d[i] == ns[i]);
                }
            }
            assert forall|i: int| 0 <= i < lower_bound(ns, key) implies addr32(#[trigger] ns[i].ip) < key by {
                assert(d[i] == ns[i]);
            }
        }
    }
}

/// Inserting an entry for a new address at its place keeps the cache sorted.
pub proof fn lemma_insert_sorted(ns: Seq<NeighborV>, n: NeighborV)
    requires
        neighbors_sorted(ns),
        forall|i: int| 0 <= i < ns.len() ==> addr32(#[trigger] ns[i].ip) != addr32(n.ip),
    ensures
        neighbors_sorted(ns.insert(lower_bound(ns, addr32(n.ip)), n)),
{
    let k = lower_bound(ns, addr32(n.ip));
    lemma_lower_bound(ns, addr32(n.ip));
    let out = ns.insert(k, n);
    assert forall|i: int, j: int| 0 <= i < j < out.len() implies addr32(#[trigger] out[i].ip) < addr32(
        #[trigger] out[j].ip,
    ) by {
        if i < k {
            assert(out[i] == ns[i]);
        } else if i > k {
            assert(out[i] == ns[i - 1]);
        }
        if j < k {
            assert(out[j] == ns[j]);
        } else if j > k {
            assert(out[j] == ns[j - 1]);
        }
        if i > k {
            assert(addr32(ns[i - 1].ip) < addr32(ns[j - 1].ip));
        }
    }
}

/// What sending a packet does: the frames to transmit, or the error, and the neighbor cache
/// after. A resolved, unexpired next hop gets the packet at once; otherwise expired entries
/// are dropped and the packet waits in its next hop's queue (at most four per neighbor, 64
/// and 256 KiB over all, 256 neighbors), with an ARP request when the entry is new.
pub open spec fn spec_send(v: Ipv4V, packet: Seq<u8>, now: u64) -> (Result<Seq<Seq<u8>>, Error>, Seq<NeighborV>) {
    match parse_ipv4(packet, false) {
        None => (Err(Error::Invalid), v.neighbors),
        Some(p) => match spec_next_hop(v, p.destination) {
            None => (Err(Error::Invalid), v.neighbors),
            Some(next) => {
                let hit = match find(v.neighbors, next) {
                    Some(i) => v.neighbors[i].deadline > now && v.neighbors[i].mac is Some,
                    None => false,
                };
                if hit {
                    (
                        Ok(seq![ethernet_frame(v.mac, v.neighbors[find(v.neighbors, next)->0].mac->0, p.bytes)]),
                        v.neighbors,
                    )
                } else {
                    let ns = keep_live(v.neighbors, now);
                    let j = find(ns, next);
                    if (j is None && ns.len() >= 256) || queued_packets(ns) >= 64 || queued_bytes(ns) + packet.len() > 256
                        * 1024 || (j matches Some(k) && ns[k].queue.len() >= 4) {
                        (Err(Error::Capacity), ns)
                    } else {
                        match j {
                            Some(k) => (Ok(Seq::empty()), ns.update(k, NeighborV { queue: ns[k].queue.push(p.bytes), ..ns[k] })),
                            None => (
                                Ok(seq![probe_frame(v.mac, (v.address->0).0, next)]),
                                ns.insert(
                                    lower_bound(ns, addr32(next)),
                                    NeighborV {
                                        ip: next,
                                        mac: None,
                                        deadline: sat_add(now, 1000),
                                        attempts: 1,
                                        queue: seq![p.bytes],
                                    },
                                ),
                            ),
                        }
                    }
                }
            },
        },
    }
}

fn find_exec(ns: &Vec<Neighbor>, ip: [u8; 4]) -> (r: Option<usize>)
    ensures
        match find(neighbors_view(ns@), ip@) {
            None => r is None,
            Some(i) => r == Some(i as usize),
        },
{
    let mut i: usize = 0;
    while i < ns.len()
        invariant
            i <= ns@.len(),
            find(neighbors_view(ns@), ip@) == find_from(neighbors_view(ns@), ip@, i as int),
        decreases ns@.len() - i,
    {
        let n = &ns[i];
        let same = n.ip[0] == ip[0] && n.ip[1] == ip[1] && n.ip[2] == ip[2] && n.ip[3] == ip[3];
        proof {
            if same {
                assert(n.ip@ =~= ip@);
            } else {
                assert(n.ip@ != ip@) by {
                    if n.ip@ == ip@ {
                        assert(n.ip@[0] == ip@[0] && n.ip@[1] == ip@[1] && n.ip@[2] == ip@[2] && n.ip@[3] == ip@[3]);
                    }
                }
            }
        }
        if same {
            return Some(i);
        }
        i = i + 1;
    }
    None
}

impl Ipv4 {
    /// The number of packets waiting for address resolution and their total octets.
    pub fn queued(&self) -> (r: (usize, usize))
        requires
            self.wf(),
        ensures
            r.0 == queued_packets(self@.neighbors),
            r.1 == queued_bytes(self@.neighbors),
    {
        let ghost all = self@.neighbors;
        let mut packets: usize = 0;
        let mut bytes: usize = 0;
        let mut i: usize = 0;
        while i < self.neighbors.len()
            invariant
                i <= self.neighbors@.len(),
                all == neighbors_view(self.neighbors@),
                queued_packets(all) <= 64,
                queued_bytes(all) <= 256 * 1024,
                packets == queued_packets(all.take(i as int)),
                bytes == queued_bytes(all.take(i as int)),
            decreases self.neighbors@.len() - i,
        {
            let q = &self.neighbors[i].queue;
            let mut sum: usize = 0;
            let mut j: usize = 0;
            proof {
                assert(all.take(i + 1).drop_last() =~= all.take(i as int));
                assert(all =~= all.take(i + 1) + all.skip(i + 1));
                lemma_queued_concat(all.take(i + 1), all.skip(i + 1));
                lemma_queued_nonneg(all.skip(i + 1));
                lemma_queued_nonneg(all.take(i as int));
            }
            let ghost qv = packets_view(q@);
            assert(qv == all[i as int].queue);
            while j < q.len()
                invariant
                    j <= q@.len(),
                    qv == packets_view(q@),
                    total_len(qv) <= 256 * 1024,
                    sum == total_len(qv.take(j as int)),
                decreases q@.len() - j,
            {
                proof {
                    lemma_total_len_prefix(qv, j + 1);
                    lemma_total_len_nonneg(qv.take(j as int));
                }
                sum = sum + q[j].len();
                j = j + 1;
            }
            assert(qv.take(q@.len() as int) =~= qv);
            packets = packets + q.len();
            bytes = bytes + sum;
            i = i + 1;
        }
        assert(all.take(all.len() as int) =~= all);
        (packets, bytes)
    }

    /// Drops resolved entries that have expired.
    fn retain_live(&mut self, now: u64)
        requires
            old(self).wf(),
        ensures
            final(self).wf(),
            final(self)@ == (Ipv4V { neighbors: keep_live(old(self)@.neighbors, now), ..old(self)@ }),
    {
        let ghost orig = self@.neighbors;
        let mut rest: Vec<Neighbor> = Vec::new();
        std::mem::swap(&mut rest, &mut self.neighbors);
        let mut kept: Vec<Neighbor> = Vec::new();
        let ghost keep = live_at(now);
        let ghost f = unchanged_entry();
        assert(neighbors_view(kept@) =~= sift(orig.take(0), keep, f));
        assert(neighbors_view(rest@) =~= orig.skip(0));
        while rest.len() > 0
            invariant
                orig.len() >= rest@.len(),
                neighbors_view(kept@) == sift(orig.take(orig.len() - rest@.len()), keep, f),
                neighbors_view(rest@) == orig.skip(orig.len() - rest@.len()),
                keep == live_at(now),
                f == unchanged_entry(),
            decreases rest@.len(),
        {
            let ghost k = orig.len() - rest@.len();
            let ghost rv = neighbors_view(rest@);
            let ghost r0 = rest@[0];
            assert(rv[0] == neighbor_view(r0));
            assert(rv[0] == orig[k]);
            let n = rest.remove(0);
            assert(n == r0);
            assert(neighbors_view(rest@) =~= rv.drop_first());
            assert(orig.take(k + 1).drop_last() =~= orig.take(k));
            assert(orig.take(k + 1).last() == neighbor_view(n));
            assert(orig.skip(k + 1) =~= orig.skip(k).drop_first());
            let alive = n.mac.is_none() || n.deadline > now;
            if alive {
                let ghost kv = neighbors_view(kept@);
                kept.push(n);
                assert(neighbors_view(kept@) =~= kv.push(neighbor_view(n)));
            }
        }
        assert(orig.take(orig.len() as int) =~= orig);
        self.neighbors = kept;
        proof {
            lemma_sift_from(orig, keep, f);
            lemma_sift_sorted(orig, keep, f);
        }
    }

    fn probe(&self, destination: [u8; 4]) -> (r: Vec<u8>)
        requires
            self.address is Some,
        ensures
            r@ == probe_frame(self.mac@, (self.address->0).0@, destination@),
    {
        let (address, _) = self.address.unwrap();
        let a = crate::ipv4::wire::Arp {
            operation: 1,
            sender_mac: self.mac,
            sender: address,
            target_mac: [0, 0, 0, 0, 0, 0],
            target: destination,
        };
        let r = a.encode([255, 255, 255, 255, 255, 255]);
        assert(r@ =~= probe_frame(self.mac@, (self.address->0).0@, destination@));
        r
    }
}

impl Ipv4 {
    /// Sends an IPv4 packet: the Ethernet frames to transmit now.
    #[verifier::rlimit(60)]
    pub fn send(&mut self, packet: &[u8], now: u64) -> (r: Result<Vec<Vec<u8>>, Error>)
        requires
            old(self).wf(),
        ensures
            final(self).wf(),
            final(self)@ == (Ipv4V { neighbors: spec_send(old(self)@, packet@, now).1, ..old(self)@ }),
            match spec_send(old(self)@, packet@, now).0 {
                Ok(frames) => r matches Ok(x) && packets_view(x@) == frames,
                Err(e) => r == Err::<Vec<Vec<u8>>, Error>(e),
            },
    {
        let ghost v0 = self@;
        let p = match crate::ipv4::wire::Packet::parse(packet) {
            Ok(p) => p,
            Err(_) => return Err(Error::Invalid),
        };
        let next = match self.next_hop(p.destination) {
            Some(n) => n,
            None => return Err(Error::Invalid),
        };
        proof {
            lemma_find_from(v0.neighbors, next@, 0);
        }
        match find_exec(&self.neighbors, next) {
            Some(i) => {
                let n = &self.neighbors[i];
                assert(neighbor_view(*n) == v0.neighbors[i as int]);
                if n.deadline > now {
                    if let Some(mac) = n.mac {
                        let frame = ethernet(self.mac, mac, p.bytes);
                        let out = vec![frame];
                        assert(packets_view(out@) =~= seq![frame@]);
                        return Ok(out);
                    }
                }
            },
            None => {},
        }
        self.retain_live(now);
        let ghost ns = self@.neighbors;
        let (packets, bytes) = self.queued();
        let j = find_exec(&self.neighbors, next);
        proof {
            lemma_find_from(ns, next@, 0);
        }
        let full = match j {
            Some(k) => self.neighbors[k].queue.len() >= 4,
            None => self.neighbors.len() >= 256,
        };
        if full || packets >= 64 || packet.len() > 256 * 1024 - bytes {
            return Err(Error::Capacity);
        }
        let copy = crate::bytes::copy_range(p.bytes, 0, p.bytes.len());
        assert(p.bytes@.subrange(0, p.bytes@.len() as int) =~= p.bytes@);
        match j {
            Some(k) => {
                let mut n = self.neighbors.remove(k);
                let ghost qv = packets_view(n.queue@);
                n.queue.push(copy);
                assert(packets_view(n.queue@) =~= qv.push(p.bytes@));
                self.neighbors.insert(k, n);
                proof {
                    let nv = neighbor_view(n);
                    assert(self@.neighbors =~= ns.update(k as int, nv));
                    lemma_queued_update(ns, k as int, nv);
                    lemma_total_len_push(qv, p.bytes@);
                    assert(neighbors_sorted(self@.neighbors)) by {
                        let out = self@.neighbors;
                        assert forall|a: int, b: int| 0 <= a < b < out.len() implies addr32(#[trigger] out[a].ip) < addr32(
                            #[trigger] out[b].ip,
                        ) by {
                            assert(out[a].ip == ns[a].ip && out[b].ip == ns[b].ip);
                        }
                    }
                }
                let out: Vec<Vec<u8>> = Vec::new();
                assert(packets_view(out@) =~= Seq::<Seq<u8>>::empty());
                Ok(out)
            },
            None => {
                let k = self.sorted_place(addr_u32(next));
                let probe = self.probe(next);
                let mut q: Vec<Vec<u8>> = Vec::new();
                q.push(copy);
                let n = Neighbor { ip: next, mac: None, deadline: now.saturating_add(1000), attempts: 1, queue: q };
                self.neighbors.insert(k, n);
                proof {
                    let nv = neighbor_view(n);
                    assert(nv.queue =~= seq![p.bytes@]);
                    assert(self@.neighbors =~= ns.insert(k as int, nv));
                    lemma_queued_insert(ns, k as int, nv);
                    assert(seq![p.bytes@] =~= Seq::<Seq<u8>>::empty().push(p.bytes@));
                    lemma_total_len_push(Seq::<Seq<u8>>::empty(), p.bytes@);
                    assert(total_len(nv.queue) == p.bytes@.len());
                    assert forall|i: int| 0 <= i < ns.len() implies addr32(#[trigger] ns[i].ip) != addr32(nv.ip) by {
                        assert(ns[i].ip != next@);
                        if addr32(ns[i].ip) == addr32(nv.ip) {
                            lemma_addr32_injective(ns[i].ip, nv.ip);
                        }
                    }
                    lemma_insert_sorted(ns, nv);
                }
                let out = vec![probe];
                assert(packets_view(out@) =~= seq![probe@]);
                Ok(out)
            },
        }
    }
}

/// An ARP reply from this interface to the asker.
pub open spec fn reply_frame(mac: Seq<u8>, address: Seq<u8>, to_mac: Seq<u8>, to: Seq<u8>) -> Seq<u8> {
    to_mac + mac + seq![8u8, 6u8, 0u8, 1u8, 8u8, 0u8, 6u8, 4u8] + crate::bytes::be16_bytes(2) + mac + address + to_mac + to
}

pub open spec fn flush_frames(mac: Seq<u8>, to: Seq<u8>, q: Seq<Seq<u8>>) -> Seq<Seq<u8>> {
    q.map_values(|p: Seq<u8>| ethernet_frame(mac, to, p))
}

/// What receiving a frame does: the frames to transmit and the interface after. Unicast
/// IPv4 for the own address from a unicast source joins the input (at most 64 packets and
/// 256 KiB); an ARP message about the own address answers a request, and learns or
/// refreshes the sender, flushing its queue, when the sender is known or asks.
pub open spec fn spec_receive(v: Ipv4V, f: Seq<u8>, now: u64) -> (Seq<Seq<u8>>, Ipv4V) {
    match v.address {
        None => (Seq::empty(), v),
        Some((address, length)) => if f.len() < 14 || f.subrange(6, 12) == v.mac || (f[0] % 2 == 0 && f.subrange(0, 6)
            != v.mac) {
            (Seq::empty(), v)
        } else if f[12] == 8 && f[13] == 0 {
            match parse_ipv4(f.skip(14), false) {
                Some(p) => if p.destination == address && spec_unicast(p.source) && p.ttl > 0 && f.subrange(0, 6) == v.mac
                    && v.input.len() < 64 && total_len(v.input) + p.bytes.len() <= 256 * 1024 {
                    (Seq::empty(), Ipv4V { input: v.input.push(p.bytes), ..v })
                } else {
                    (Seq::empty(), v)
                },
                None => (Seq::empty(), v),
            }
        } else {
            match crate::ipv4::wire::parse_arp(f) {
                None => (Seq::empty(), v),
                Some(a) => if a.sender_mac == v.mac || a.sender == address || a.target != address || (!all_zero4(a.sender)
                    && !spec_same_prefix(address, a.sender, length)) {
                    (Seq::empty(), v)
                } else {
                    let reply: Seq<Seq<u8>> = if a.operation == 1 {
                        seq![reply_frame(v.mac, address, a.sender_mac, a.sender)]
                    } else {
                        Seq::empty()
                    };
                    let j = find(v.neighbors, a.sender);
                    if !all_zero4(a.sender) && (j is Some || a.operation == 1) && (j is Some || v.neighbors.len() < 256) {
                        let entry = NeighborV {
                            ip: a.sender,
                            mac: Some(a.sender_mac),
                            deadline: sat_add(now, 60000),
                            attempts: 0,
                            queue: Seq::empty(),
                        };
                        match j {
                            Some(k) => (
                                flush_frames(v.mac, a.sender_mac, v.neighbors[k].queue) + reply,
                                Ipv4V { neighbors: v.neighbors.update(k, entry), ..v },
                            ),
                            None => (
                                reply,
                                Ipv4V {
                                    neighbors: v.neighbors.insert(lower_bound(v.neighbors, addr32(a.sender)), entry),
                                    ..v
                                },
                            ),
                        }
                    } else {
                        (reply, v)
                    }
                },
            }
        },
    }
}

impl Ipv4 {
    fn sorted_place(&self, key: u32) -> (k: usize)
        ensures
            k == lower_bound(self@.neighbors, key),
            k <= self@.neighbors.len(),
    {
        let ghost ns = self@.neighbors;
        let mut k: usize = self.neighbors.len();
        assert(ns.take(k as int) =~= ns);
        while k > 0 && addr_u32(self.neighbors[k - 1].ip) >= key
            invariant
                k <= self.neighbors@.len(),
                ns == neighbors_view(self.neighbors@),
                lower_bound(ns, key) == lower_bound(ns.take(k as int), key),
            decreases k,
        {
            assert(ns.take(k as int).drop_last() =~= ns.take(k - 1));
            k = k - 1;
        }
        proof {
            if k > 0 {
                assert(ns.take(k as int).last() == ns[k - 1]);
            }
        }
        k
    }

    /// Receives an Ethernet frame: the frames to transmit in answer.
    #[verifier::rlimit(80)]
    pub fn receive(&mut self, frame: &[u8], now: u64) -> (r: Result<Vec<Vec<u8>>, Error>)
        requires
            old(self).wf(),
        ensures
            final(self).wf(),
            final(self)@ == spec_receive(old(self)@, frame@, now).1,
            r matches Ok(x) && packets_view(x@) == spec_receive(old(self)@, frame@, now).0,
    {
        let ghost v0 = self@;
        let mut out: Vec<Vec<u8>> = Vec::new();
        assert(packets_view(out@) =~= Seq::<Seq<u8>>::empty());
        let (address, length) = match self.address {
            Some(x) => x,
            None => return Ok(out),
        };
        let fl = frame.len();
        if fl < 14 {
            return Ok(out);
        }
        let m = self.mac;
        let from_self = frame[6] == m[0] && frame[7] == m[1] && frame[8] == m[2] && frame[9] == m[3] && frame[10] == m[4]
            && frame[11] == m[5];
        let to_self = frame[0] == m[0] && frame[1] == m[1] && frame[2] == m[2] && frame[3] == m[3] && frame[4] == m[4]
            && frame[5] == m[5];
        proof {
            if from_self {
                assert(frame@.subrange(6, 12) =~= m@);
            } else if frame@.subrange(6, 12) == m@ {
                assert(frame@.subrange(6, 12)[0] == frame@[6] && frame@.subrange(6, 12)[5] == frame@[11]);
                assert(frame@.subrange(6, 12)[1] == frame@[7] && frame@.subrange(6, 12)[2] == frame@[8]);
                assert(frame@.subrange(6, 12)[3] == frame@[9] && frame@.subrange(6, 12)[4] == frame@[10]);
            }
            if to_self {
                assert(frame@.subrange(0, 6) =~= m@);
            } else if frame@.subrange(0, 6) == m@ {
                assert(frame@.subrange(0, 6)[0] == frame@[0] && frame@.subrange(0, 6)[5] == frame@[5]);
                assert(frame@.subrange(0, 6)[1] == frame@[1] && frame@.subrange(0, 6)[2] == frame@[2]);
                assert(frame@.subrange(0, 6)[3] == frame@[3] && frame@.subrange(0, 6)[4] == frame@[4]);
            }
        }
        if from_self || (frame[0] % 2 == 0 && !to_self) {
            return Ok(out);
        }
        if frame[12] == 8 && frame[13] == 0 {
            let body = &frame[14..fl];
            assert(body@ =~= frame@.skip(14));
            if let Ok(p) = crate::ipv4::wire::Packet::parse(body) {
                let (count, bytes) = self.pending_input();
                let d = p.destination;
                let for_self = d[0] == address[0] && d[1] == address[1] && d[2] == address[2] && d[3] == address[3];
                proof {
                    if for_self {
                        assert(d@ =~= address@);
                    } else if d@ == address@ {
                        assert(d@[0] == address@[0] && d@[1] == address@[1] && d@[2] == address@[2]);
                    }
                }
                if for_self && unicast(p.source) && p.ttl > 0 && to_self && count < 64 && p.bytes.len()
                    <= 256 * 1024 - bytes {
                    let copy = crate::bytes::copy_range(p.bytes, 0, p.bytes.len());
                    assert(p.bytes@.subrange(0, p.bytes@.len() as int) =~= p.bytes@);
                    let ghost iv = packets_view(self.input@);
                    self.input.push(copy);
                    assert(packets_view(self.input@) =~= iv.push(p.bytes@));
                    proof {
                        lemma_total_len_push(iv, p.bytes@);
                    }
                }
            }
            return Ok(out);
        }
        let a = match crate::ipv4::wire::Arp::parse(frame) {
            Ok(a) => a,
            Err(_) => return Ok(out),
        };
        let sm = a.sender_mac;
        let same_mac = sm[0] == m[0] && sm[1] == m[1] && sm[2] == m[2] && sm[3] == m[3] && sm[4] == m[4] && sm[5] == m[5];
        let sender_is_self = a.sender[0] == address[0] && a.sender[1] == address[1] && a.sender[2] == address[2]
            && a.sender[3] == address[3];
        let target_is_self = a.target[0] == address[0] && a.target[1] == address[1] && a.target[2] == address[2]
            && a.target[3] == address[3];
        let sender_unspecified = a.sender[0] == 0 && a.sender[1] == 0 && a.sender[2] == 0 && a.sender[3] == 0;
        proof {
            if same_mac {
                assert(sm@ =~= m@);
            } else if sm@ == m@ {
                assert(sm@[0] == m@[0] && sm@[1] == m@[1] && sm@[2] == m@[2] && sm@[3] == m@[3] && sm@[4] == m@[4]);
            }
            if sender_is_self {
                assert(a.sender@ =~= address@);
            } else if a.sender@ == address@ {
                assert(a.sender@[0] == address@[0] && a.sender@[1] == address@[1] && a.sender@[2] == address@[2]);
            }
            if target_is_self {
                assert(a.target@ =~= address@);
            } else if a.target@ == address@ {
                assert(a.target@[0] == address@[0] && a.target@[1] == address@[1] && a.target@[2] == address@[2]);
            }
        }
        if same_mac || sender_is_self || !target_is_self || (!sender_unspecified && !same_prefix(address, a.sender, length)) {
            return Ok(out);
        }
        proof {
            lemma_find_from(v0.neighbors, a.sender@, 0);
        }
        let j = find_exec(&self.neighbors, a.sender);
        if !sender_unspecified && (j.is_some() || a.operation == 1) && (j.is_some() || self.neighbors.len() < 256) {
            match j {
                Some(k) => {
                    let mut n = self.neighbors.remove(k);
                    let mut q: Vec<Vec<u8>> = Vec::new();
                    std::mem::swap(&mut q, &mut n.queue);
                    let ghost qv = packets_view(q@);
                    assert(qv == v0.neighbors[k as int].queue);
                    let mut i: usize = 0;
                    while i < q.len()
                        invariant
                            i <= q@.len(),
                            qv == packets_view(q@),
                            packets_view(out@) == flush_frames(m@, sm@, qv.take(i as int)),
                        decreases q@.len() - i,
                    {
                        let fr = ethernet(m, sm, q[i].as_slice());
                        let ghost ov = packets_view(out@);
                        out.push(fr);
                        assert(packets_view(out@) =~= ov.push(fr@));
                        assert(flush_frames(m@, sm@, qv.take(i + 1)) =~= flush_frames(m@, sm@, qv.take(i as int)).push(
                            ethernet_frame(m@, sm@, qv[i as int]),
                        ));
                        i = i + 1;
                    }
                    assert(qv.take(q@.len() as int) =~= qv);
                    n.mac = Some(sm);
                    n.deadline = now.saturating_add(60000);
                    n.attempts = 0;
                    self.neighbors.insert(k, n);
                    proof {
                        let nv = neighbor_view(n);
                        assert(nv.queue =~= Seq::<Seq<u8>>::empty());
                        assert(self@.neighbors =~= v0.neighbors.update(k as int, nv));
                        lemma_queued_update(v0.neighbors, k as int, nv);
                        lemma_total_len_nonneg(v0.neighbors[k as int].queue);
                        assert(queued_packets(Seq::<NeighborV>::empty().push(nv)) == 0) by {
                            lemma_queued_one(nv);
                            assert(seq![nv] =~= Seq::<NeighborV>::empty().push(nv));
                        }
                        assert(total_len(nv.queue) == 0);
                        assert(neighbors_sorted(self@.neighbors)) by {
                            let o = self@.neighbors;
                            assert forall|x: int, y: int| 0 <= x < y < o.len() implies addr32(#[trigger] o[x].ip) < addr32(
                                #[trigger] o[y].ip,
                            ) by {
                                assert(o[x].ip == v0.neighbors[x].ip && o[y].ip == v0.neighbors[y].ip);
                            }
                        }
                    }
                },
                None => {
                    let k = self.sorted_place(addr_u32(a.sender));
                    let n = Neighbor {
                        ip: a.sender,
                        mac: Some(sm),
                        deadline: now.saturating_add(60000),
                        attempts: 0,
                        queue: Vec::new(),
                    };
                    self.neighbors.insert(k, n);
                    proof {
                        let nv = neighbor_view(n);
                        assert(nv.queue =~= Seq::<Seq<u8>>::empty());
                        assert(self@.neighbors =~= v0.neighbors.insert(k as int, nv));
                        lemma_queued_insert(v0.neighbors, k as int, nv);
                        assert forall|i: int| 0 <= i < v0.neighbors.len() implies addr32(#[trigger] v0.neighbors[i].ip)
                            != addr32(nv.ip) by {
                            assert(v0.neighbors[i].ip != a.sender@);
                            if addr32(v0.neighbors[i].ip) == addr32(nv.ip) {
                                lemma_addr32_injective(v0.neighbors[i].ip, nv.ip);
                            }
                        }
                        lemma_insert_sorted(v0.neighbors, nv);
                    }
                },
            }
        }
        if a.operation == 1 {
            let reply = crate::ipv4::wire::Arp {
                operation: 2,
                sender_mac: m,
                sender: address,
                target_mac: sm,
                target: a.sender,
            }.encode(sm);
            assert(reply@ =~= reply_frame(m@, address@, sm@, a.sender@));
            let ghost ov = packets_view(out@);
            out.push(reply);
            assert(packets_view(out@) =~= ov + seq![reply@]);
        } else {
            assert(packets_view(out@) =~= packets_view(out@) + Seq::<Seq<u8>>::empty());
        }
        Ok(out)
    }
}

/// Entries that survive a poll: not yet due, or unresolved with probes left.
pub open spec fn poll_keep(now: u64) -> spec_fn(NeighborV) -> bool {
    |n: NeighborV| now < n.deadline || (n.mac is None && n.attempts < 3)
}

/// A due entry that survives is probed again and due a second later.
pub open spec fn poll_step(now: u64) -> spec_fn(NeighborV) -> NeighborV {
    |n: NeighborV|
        if now < n.deadline {
            n
        } else {
            NeighborV { attempts: (n.attempts + 1) as u8, deadline: sat_add(now, 1000), ..n }
        }
}

/// The addresses that a poll probes, in cache order.
pub open spec fn poll_targets(ns: Seq<NeighborV>, now: u64) -> Seq<Seq<u8>>
    decreases ns.len(),
{
    if ns.len() == 0 {
        Seq::empty()
    } else {
        let sub = poll_targets(ns.drop_last(), now);
        let n = ns.last();
        if !(now < n.deadline) && n.mac is None && n.attempts < 3 {
            sub.push(n.ip)
        } else {
            sub
        }
    }
}

impl Ipv4 {
    /// Expires entries and retries address resolution: the ARP requests to transmit.
    pub fn poll(&mut self, now: u64) -> (r: Vec<Vec<u8>>)
        requires
            old(self).wf(),
        ensures
            final(self).wf(),
            final(self)@ == (Ipv4V { neighbors: sift(old(self)@.neighbors, poll_keep(now), poll_step(now)), ..old(self)@ }),
            packets_view(r@) == poll_targets(old(self)@.neighbors, now).map_values(
                |ip: Seq<u8>| probe_frame(old(self)@.mac, (old(self)@.address->0).0, ip),
            ),
    {
        let ghost orig = self@.neighbors;
        let ghost keep = poll_keep(now);
        let ghost f = poll_step(now);
        let mut rest: Vec<Neighbor> = Vec::new();
        std::mem::swap(&mut rest, &mut self.neighbors);
        let mut kept: Vec<Neighbor> = Vec::new();
        let mut targets: Vec<[u8; 4]> = Vec::new();
        assert(neighbors_view(kept@) =~= sift(orig.take(0), keep, f));
        assert(neighbors_view(rest@) =~= orig.skip(0));
        assert(targets@.map_values(|a: [u8; 4]| a@) =~= poll_targets(orig.take(0), now));
        while rest.len() > 0
            invariant
                orig.len() >= rest@.len(),
                neighbors_view(kept@) == sift(orig.take(orig.len() - rest@.len()), keep, f),
                neighbors_view(rest@) == orig.skip(orig.len() - rest@.len()),
                targets@.map_values(|a: [u8; 4]| a@) == poll_targets(orig.take(orig.len() - rest@.len()), now),
                keep == poll_keep(now),
                f == poll_step(now),
            decreases rest@.len(),
        {
            let ghost k = orig.len() - rest@.len();
            let ghost rv = neighbors_view(rest@);
            let ghost r0 = rest@[0];
            assert(rv[0] == neighbor_view(r0));
            assert(rv[0] == orig[k]);
            let mut n = rest.remove(0);
            assert(n == r0);
            assert(neighbors_view(rest@) =~= rv.drop_first());
            assert(orig.take(k + 1).drop_last() =~= orig.take(k));
            assert(orig.take(k + 1).last() == neighbor_view(n));
            assert(orig.skip(k + 1) =~= orig.skip(k).drop_first());
            let ghost nv = neighbor_view(n);
            let ghost tv = targets@.map_values(|a: [u8; 4]| a@);
            if now < n.deadline {
                kept.push(n);
                assert(neighbors_view(kept@) =~= sift(orig.take(k), keep, f).push(nv));
                assert(targets@.map_values(|a: [u8; 4]| a@) =~= poll_targets(orig.take(k + 1), now));
            } else if n.mac.is_none() && n.attempts < 3 {
                n.attempts = n.attempts + 1;
                n.deadline = now.saturating_add(1000);
                targets.push(n.ip);
                assert(targets@.map_values(|a: [u8; 4]| a@) =~= tv.push(nv.ip));
                let ghost before = neighbors_view(kept@);
                kept.push(n);
                assert(neighbor_view(n) == f(nv));
                assert(neighbors_view(kept@) =~= before.push(f(nv)));
            } else {
                assert(targets@.map_values(|a: [u8; 4]| a@) =~= poll_targets(orig.take(k + 1), now));
            }
        }
        assert(orig.take(orig.len() as int) =~= orig);
        self.neighbors = kept;
        proof {
            assert(keeps_identity(f));
            lemma_sift_from(orig, keep, f);
            lemma_sift_sorted(orig, keep, f);
        }
        let ghost tv = targets@.map_values(|a: [u8; 4]| a@);
        let ghost v0 = self@;
        let mut out: Vec<Vec<u8>> = Vec::new();
        let mut i: usize = 0;
        proof {
            lemma_poll_targets_len(orig, now);
        }
        while i < targets.len()
            invariant
                i <= targets@.len(),
                tv == targets@.map_values(|a: [u8; 4]| a@),
                self@ == v0,
                targets@.len() > 0 ==> self.address is Some,
                packets_view(out@) == tv.take(i as int).map_values(
                    |ip: Seq<u8>| probe_frame(v0.mac, (v0.address->0).0, ip),
                ),
            decreases targets@.len() - i,
        {
            let fr = self.probe(targets[i]);
            let ghost ov = packets_view(out@);
            out.push(fr);
            assert(packets_view(out@) =~= ov.push(fr@));
            assert(tv.take(i + 1) =~= tv.take(i as int).push(tv[i as int]));
            i = i + 1;
        }
        assert(tv.take(tv.len() as int) =~= tv);
        out
    }
}

proof fn lemma_poll_targets_len(ns: Seq<NeighborV>, now: u64)
    ensures
        poll_targets(ns, now).len() <= ns.len(),
    decreases ns.len(),
{
    if ns.len() > 0 {
        lemma_poll_targets_len(ns.drop_last(), now);
    }
}

impl Default for Ipv4 {
    /// An unconfigured interface with a locally administered link address.
    fn default() -> (r: Ipv4)
        ensures
            r.wf(),
            r@.mac == seq![2u8, 0u8, 0u8, 0u8, 0u8, 1u8],
            r@.address is None,
            r@.gateway is None,
            r@.neighbors.len() == 0,
            r@.routes.len() == 0,
            r@.input.len() == 0,
    {
        let r = Ipv4::new([2, 0, 0, 0, 0, 1]);
        assert(r@.mac =~= seq![2u8, 0u8, 0u8, 0u8, 0u8, 1u8]);
        r
    }
}

} // verus!
