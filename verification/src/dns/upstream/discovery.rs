//! Resolver discovery on the AIL: the resolver addresses and search domains learned from
//! each advertiser, each kept until its own lifetime ends, and the resolvers configured by
//! hand, which take precedence.
use crate::dns::name::{canonical_wire, Name};
use crate::dns::privacy::policy::{contains_socket, origin_ok, sock_key, sock_key_exec};
use crate::dns::privacy::{origin_usable, IpAddress, SocketAddress};
use crate::dns::upstream::learned::{
    keep_fn, keep_where, lemma_keep_where, lemma_remove_key, lemma_upsert, list_view, remove_exec, remove_key,
    retain_learned, set_all, sorted, upsert, upsert_exec, Learned, LearnedV, Origin, origin_bytes,
};
use crate::bytes::be32;
use crate::dns::upstream::{deadline, names, names_view, spec_deadline, spec_names, spec_valid6, valid6, DhcpConfiguration};
use crate::error::Error;
use vstd::prelude::*;

verus! {

/// The key of a learned resolver: its origin, then its address.
pub open spec fn server_key(o: Origin, a: SocketAddress) -> Seq<u8> {
    origin_bytes(o) + sock_key(a)
}

/// The key of a learned search domain: its origin, then its lowercased wire form.
pub open spec fn domain_key(o: Origin, n: Seq<Seq<u8>>) -> Seq<u8> {
    origin_bytes(o) + canonical_wire(n)
}

/// Each entry sits under the key of its origin and item.
pub open spec fn keyed<V>(es: Seq<LearnedV<V>>, kf: spec_fn(Origin, V) -> Seq<u8>) -> bool {
    forall|i: int| 0 <= i < es.len() ==> (#[trigger] es[i]).key == kf(es[i].origin, es[i].item)
}

pub open spec fn server_kf() -> spec_fn(Origin, SocketAddress) -> Seq<u8> {
    |o: Origin, a: SocketAddress| server_key(o, a)
}

pub open spec fn domain_kf() -> spec_fn(Origin, Seq<Seq<u8>>) -> Seq<u8> {
    |o: Origin, n: Seq<Seq<u8>>| domain_key(o, n)
}

/// The resolvers offered by one advertisement, as entries.
pub open spec fn server_items(o: Origin, v: Seq<(SocketAddress, u64)>) -> Seq<LearnedV<SocketAddress>> {
    v.map_values(|p: (SocketAddress, u64)| LearnedV { key: server_key(o, p.0), origin: o, item: p.0, until: p.1 })
}

/// The search domains offered by one advertisement, as entries.
pub open spec fn domain_items(o: Origin, v: Seq<(Seq<Seq<u8>>, u64)>) -> Seq<LearnedV<Seq<Seq<u8>>>> {
    v.map_values(|p: (Seq<Seq<u8>>, u64)| LearnedV { key: domain_key(o, p.0), origin: o, item: p.0, until: p.1 })
}

pub open spec fn pairs_view(v: Seq<(Name, u64)>) -> Seq<(Seq<Seq<u8>>, u64)> {
    v.map_values(|p: (Name, u64)| (p.0@, p.1))
}

/// Adds `x` unless it is already there.
pub open spec fn push_new<V>(acc: Seq<V>, x: V) -> Seq<V> {
    if acc.contains(x) {
        acc
    } else {
        acc.push(x)
    }
}

/// The live resolvers in key order, each once.
pub open spec fn live_servers(es: Seq<LearnedV<SocketAddress>>, now: u64) -> Seq<SocketAddress>
    decreases es.len(),
{
    if es.len() == 0 {
        Seq::empty()
    } else {
        let prev = live_servers(es.drop_last(), now);
        if es.last().until > now {
            push_new(prev, es.last().item)
        } else {
            prev
        }
    }
}

/// Adds the name `n` unless one equal to it but for case is already there.
pub open spec fn push_new_name(acc: Seq<Seq<Seq<u8>>>, n: Seq<Seq<u8>>) -> Seq<Seq<Seq<u8>>> {
    if exists|i: int| 0 <= i < acc.len() && canonical_wire(acc[i]) == canonical_wire(n) {
        acc
    } else {
        acc.push(n)
    }
}

/// The live search domains in key order, each once regardless of case.
pub open spec fn live_domains(es: Seq<LearnedV<Seq<Seq<u8>>>>, now: u64) -> Seq<Seq<Seq<u8>>>
    decreases es.len(),
{
    if es.len() == 0 {
        Seq::empty()
    } else {
        let prev = live_domains(es.drop_last(), now);
        if es.last().until > now {
            push_new_name(prev, es.last().item)
        } else {
            prev
        }
    }
}

/// The earliest expiry among the entries.
pub open spec fn min_until<V>(es: Seq<LearnedV<V>>) -> Option<u64>
    decreases es.len(),
{
    if es.len() == 0 {
        None
    } else {
        let u = es.last().until;
        match min_until(es.drop_last()) {
            None => Some(u),
            Some(m) => Some(if m <= u { m } else { u }),
        }
    }
}

pub open spec fn min_option(a: Option<u64>, b: Option<u64>) -> Option<u64> {
    match (a, b) {
        (None, _) => b,
        (_, None) => a,
        (Some(x), Some(y)) => Some(if x <= y { x } else { y }),
    }
}

/// An entry that is still live at `now`.
pub open spec fn live_at<V>(now: u64) -> spec_fn(LearnedV<V>) -> bool {
    |e: LearnedV<V>| e.until > now
}

pub proof fn lemma_keep_keyed<V>(es: Seq<LearnedV<V>>, keep: spec_fn(LearnedV<V>) -> bool, kf: spec_fn(Origin, V) -> Seq<u8>)
    requires
        sorted(es),
        keyed(es, kf),
    ensures
        sorted(keep_where(es, keep)),
        keyed(keep_where(es, keep), kf),
        keep_where(es, keep).len() <= es.len(),
{
    lemma_keep_where(es, keep);
    let out = keep_where(es, keep);
    assert forall|i: int| 0 <= i < out.len() implies (#[trigger] out[i]).key == kf(out[i].origin, out[i].item) by {
        let j = choose|j: int| 0 <= j < es.len() && out[i] == es[j];
        assert(es[j].key == kf(es[j].origin, es[j].item));
    }
}

pub proof fn lemma_set_all_keyed<V>(es: Seq<LearnedV<V>>, items: Seq<LearnedV<V>>, now: u64, kf: spec_fn(Origin, V) -> Seq<u8>)
    requires
        sorted(es),
        keyed(es, kf),
        keyed(items, kf),
    ensures
        sorted(set_all(es, items, now)),
        keyed(set_all(es, items, now), kf),
    decreases items.len(),
{
    if items.len() > 0 {
        let d = items.drop_last();
        assert(keyed(d, kf)) by {
            assert forall|i: int| 0 <= i < d.len() implies (#[trigger] d[i]).key == kf(d[i].origin, d[i].item) by {
                assert(d[i] == items[i]);
            }
        }
        lemma_set_all_keyed(es, d, now, kf);
        let prev = set_all(es, d, now);
        let e = items.last();
        assert(e == items[items.len() - 1]);
        if e.until <= now {
            lemma_remove_key(prev, e.key);
            let out = remove_key(prev, e.key);
            assert forall|i: int| 0 <= i < out.len() implies (#[trigger] out[i]).key == kf(out[i].origin, out[i].item) by {
                let j = choose|j: int| 0 <= j < prev.len() && prev[j] == out[i];
                assert(prev[j].key == kf(prev[j].origin, prev[j].item));
            }
        } else {
            lemma_upsert(prev, e);
            let out = upsert(prev, e);
            assert forall|i: int| 0 <= i < out.len() implies (#[trigger] out[i]).key == kf(out[i].origin, out[i].item) by {
                if out[i] != e {
                    let j = choose|j: int| 0 <= j < prev.len() && out[i].key == prev[j].key && out[i].origin == prev[j].origin
                        && out[i].item == prev[j].item;
                    assert(prev[j].key == kf(prev[j].origin, prev[j].item));
                }
            }
        }
    }
}

/// What discovery knows: resolvers and search domains learned per origin, in key order, and
/// the resolvers configured by hand.
pub struct Discovery {
    servers: Vec<Learned<SocketAddress>>,
    domains: Vec<Learned<Name>>,
    configured: Vec<SocketAddress>,
}

pub struct DiscoveryV {
    pub servers: Seq<LearnedV<SocketAddress>>,
    pub domains: Seq<LearnedV<Seq<Seq<u8>>>>,
    pub configured: Seq<SocketAddress>,
}

impl View for Discovery {
    type V = DiscoveryV;

    closed spec fn view(&self) -> DiscoveryV {
        DiscoveryV { servers: list_view(self.servers@), domains: list_view(self.domains@), configured: self.configured@ }
    }
}

impl DiscoveryV {
    /// Entries sorted and keyed, at most eight resolvers and 64 domains learned, at most
    /// eight usable resolvers configured.
    pub open spec fn wf(self) -> bool {
        &&& sorted(self.servers)
        &&& keyed(self.servers, server_kf())
        &&& sorted(self.domains)
        &&& keyed(self.domains, domain_kf())
        &&& self.servers.len() <= 8
        &&& self.domains.len() <= 64
        &&& self.configured.len() <= 8
        &&& forall|i: int| 0 <= i < self.configured.len() ==> origin_ok(#[trigger] self.configured[i])
    }
}

fn copy_sockets(v: &Vec<SocketAddress>) -> (r: Vec<SocketAddress>)
    ensures
        r@ == v@,
{
    let mut out: Vec<SocketAddress> = Vec::new();
    let mut i: usize = 0;
    while i < v.len()
        invariant
            i <= v@.len(),
            out@ == v@.take(i as int),
        decreases v@.len() - i,
    {
        out.push(v[i]);
        i = i + 1;
        assert(out@ =~= v@.take(i as int));
    }
    assert(v@.take(i as int) =~= v@);
    out
}

impl Default for Discovery {
    fn default() -> (r: Discovery)
        ensures
            r@.servers.len() == 0,
            r@.domains.len() == 0,
            r@.configured.len() == 0,
            r@.wf(),
    {
        let r = Discovery { servers: Vec::new(), domains: Vec::new(), configured: Vec::new() };
        assert(r@.servers =~= Seq::<LearnedV<SocketAddress>>::empty());
        assert(r@.domains =~= Seq::<LearnedV<Seq<Seq<u8>>>>::empty());
        r
    }
}

impl Discovery {
    pub open spec fn wf(&self) -> bool {
        self@.wf()
    }

    /// Configures resolvers by hand (at most eight, each with a port and a unicast address);
    /// an empty list returns to discovery. Anything else is refused and changes nothing.
    pub fn set_configured(&mut self, servers: &[SocketAddress]) -> (r: Result<(), Error>)
        requires
            old(self).wf(),
        ensures
            final(self).wf(),
            r is Ok <==> (servers@.len() <= 8 && forall|i: int| 0 <= i < servers@.len() ==> origin_ok(#[trigger] servers@[i])),
            r is Ok ==> final(self)@ == (DiscoveryV { configured: servers@, ..old(self)@ }),
            r is Err ==> r == Err::<(), Error>(Error::Invalid) && final(self)@ == old(self)@,
    {
        if servers.len() > 8 {
            return Err(Error::Invalid);
        }
        let mut i: usize = 0;
        while i < servers.len()
            invariant
                i <= servers@.len(),
                self.wf(),
                self@ == old(self)@,
                forall|k: int| 0 <= k < i ==> origin_ok(#[trigger] servers@[k]),
            decreases servers@.len() - i,
        {
            if !origin_usable(&servers[i]) {
                return Err(Error::Invalid);
            }
            i = i + 1;
        }
        self.configured = vstd::slice::slice_to_vec(servers);
        Ok(())
    }

    /// Whether resolvers are configured by hand.
    pub fn explicit(&self) -> (r: bool)
        ensures
            r == (self@.configured.len() > 0),
    {
        self.configured.len() > 0
    }

    /// The resolvers to use: those configured by hand if any, else the live learned ones in
    /// key order, each once.
    pub fn endpoints(&self, now: u64) -> (r: Vec<SocketAddress>)
        ensures
            self@.configured.len() > 0 ==> r@ == self@.configured,
            self@.configured.len() == 0 ==> r@ == live_servers(self@.servers, now),
    {
        if self.configured.len() > 0 {
            return copy_sockets(&self.configured);
        }
        let ghost es = self@.servers;
        let mut out: Vec<SocketAddress> = Vec::new();
        let mut i: usize = 0;
        while i < self.servers.len()
            invariant
                i <= self.servers@.len(),
                es == list_view(self.servers@),
                out@ == live_servers(es.take(i as int), now),
            decreases self.servers@.len() - i,
        {
            let e = &self.servers[i];
            proof {
                assert(es.take(i + 1).drop_last() =~= es.take(i as int));
                assert(es[i as int] == crate::dns::upstream::learned::learned_view(self.servers@[i as int]));
            }
            if e.until > now && !contains_socket(out.as_slice(), &e.item) {
                out.push(e.item);
            }
            i = i + 1;
        }
        assert(es.take(i as int) =~= es);
        out
    }
}

fn contains_name(v: &Vec<Name>, n: &Name) -> (r: bool)
    ensures
        r == exists|i: int| 0 <= i < v@.len() && canonical_wire(names_view(v@)[i]) == canonical_wire(n@),
{
    let c = n.canonical();
    let mut i: usize = 0;
    while i < v.len()
        invariant
            i <= v@.len(),
            c@ == canonical_wire(n@),
            forall|k: int| 0 <= k < i ==> canonical_wire(#[trigger] names_view(v@)[k]) != canonical_wire(n@),
        decreases v@.len() - i,
    {
        assert(names_view(v@)[i as int] == v@[i as int]@);
        if crate::mdns::cache::same_bytes(v[i].canonical(), c) {
            return true;
        }
        i = i + 1;
    }
    false
}

fn min_until_exec<T: View>(v: &Vec<Learned<T>>) -> (r: Option<u64>)
    ensures
        r == min_until(list_view(v@)),
{
    let ghost es = list_view(v@);
    let mut m: Option<u64> = None;
    let mut i: usize = 0;
    while i < v.len()
        invariant
            i <= v@.len(),
            es == list_view(v@),
            m == min_until(es.take(i as int)),
        decreases v@.len() - i,
    {
        proof {
            assert(es.take(i + 1).drop_last() =~= es.take(i as int));
            assert(es[i as int] == crate::dns::upstream::learned::learned_view(v@[i as int]));
        }
        let u = v[i].until;
        m = match m {
            None => Some(u),
            Some(x) => Some(if x <= u { x } else { u }),
        };
        i = i + 1;
    }
    assert(es.take(i as int) =~= es);
    m
}

impl Discovery {
    /// The live search domains in key order, each once regardless of case.
    pub fn domains(&self, now: u64) -> (r: Vec<Name>)
        ensures
            names_view(r@) == live_domains(self@.domains, now),
    {
        let ghost es = self@.domains;
        let mut out: Vec<Name> = Vec::new();
        let mut i: usize = 0;
        assert(names_view(out@) =~= Seq::<Seq<Seq<u8>>>::empty());
        while i < self.domains.len()
            invariant
                i <= self.domains@.len(),
                es == list_view(self.domains@),
                names_view(out@) == live_domains(es.take(i as int), now),
            decreases self.domains@.len() - i,
        {
            let e = &self.domains[i];
            proof {
                assert(es.take(i + 1).drop_last() =~= es.take(i as int));
                assert(es[i as int] == crate::dns::upstream::learned::learned_view(self.domains@[i as int]));
            }
            if e.until > now && !contains_name(&out, &e.item) {
                let ghost before = names_view(out@);
                out.push(e.item.clone());
                assert(names_view(out@) =~= before.push(e.item@));
            }
            i = i + 1;
        }
        assert(es.take(i as int) =~= es);
        out
    }

    /// Forgets what has expired.
    pub fn expire(&mut self, now: u64)
        requires
            old(self).wf(),
        ensures
            final(self).wf(),
            final(self)@ == (DiscoveryV {
                servers: keep_where(old(self)@.servers, live_at(now)),
                domains: keep_where(old(self)@.domains, live_at(now)),
                ..old(self)@
            }),
    {
        proof {
            assert(keep_fn::<SocketAddress>(now, false, Origin::Dhcp4) =~= live_at::<SocketAddress>(now));
            assert(keep_fn::<Seq<Seq<u8>>>(now, false, Origin::Dhcp4) =~= live_at::<Seq<Seq<u8>>>(now));
            lemma_keep_keyed(old(self)@.servers, live_at::<SocketAddress>(now), server_kf());
            lemma_keep_keyed(old(self)@.domains, live_at::<Seq<Seq<u8>>>(now), domain_kf());
        }
        retain_learned(&mut self.servers, now, false, Origin::Dhcp4);
        retain_learned(&mut self.domains, now, false, Origin::Dhcp4);
    }

    /// The earliest expiry of anything learned.
    pub fn next_deadline(&self) -> (r: Option<u64>)
        ensures
            r == min_option(min_until(self@.servers), min_until(self@.domains)),
    {
        let a = min_until_exec(&self.servers);
        let b = min_until_exec(&self.domains);
        match (a, b) {
            (None, _) => b,
            (_, None) => a,
            (Some(x), Some(y)) => Some(if x <= y { x } else { y }),
        }
    }

    /// Forgets everything learned; the resolvers configured by hand stay.
    pub fn link_lost(&mut self)
        requires
            old(self).wf(),
        ensures
            final(self).wf(),
            final(self)@.servers.len() == 0,
            final(self)@.domains.len() == 0,
            final(self)@.configured == old(self)@.configured,
    {
        self.servers.clear();
        self.domains.clear();
        assert(self@.servers =~= Seq::<LearnedV<SocketAddress>>::empty());
        assert(self@.domains =~= Seq::<LearnedV<Seq<Seq<u8>>>>::empty());
    }
}

/// Applies one origin's advertisement: keeps the live entries (with `replace`, none from
/// that origin), then records each offered item, forgetting those offered with a lifetime
/// already over. Refused, changing nothing, if more than eight resolvers or 64 domains would
/// result.
pub open spec fn spec_apply(
    d: DiscoveryV,
    origin: Origin,
    servers: Seq<(SocketAddress, u64)>,
    domains: Seq<(Seq<Seq<u8>>, u64)>,
    replace: bool,
    now: u64,
) -> Option<DiscoveryV> {
    let ss = set_all(keep_where(d.servers, keep_fn(now, replace, origin)), server_items(origin, servers), now);
    let dd = set_all(keep_where(d.domains, keep_fn(now, replace, origin)), domain_items(origin, domains), now);
    if ss.len() > 8 || dd.len() > 64 {
        None
    } else {
        Some(DiscoveryV { servers: ss, domains: dd, ..d })
    }
}

fn origin_key_exec(o: &Origin) -> (r: Vec<u8>)
    ensures
        r@ == origin_bytes(*o),
{
    let mut out: Vec<u8> = Vec::new();
    match o {
        Origin::Ra(a) => {
            out.push(0);
            crate::bytes::push_bytes(&mut out, a.as_slice());
        },
        Origin::Dhcp6 => out.push(1),
        Origin::Dhcp4 => out.push(2),
    }
    assert(out@ =~= origin_bytes(*o));
    out
}

fn copy_servers(v: &Vec<Learned<SocketAddress>>) -> (r: Vec<Learned<SocketAddress>>)
    ensures
        list_view(r@) == list_view(v@),
{
    let mut out: Vec<Learned<SocketAddress>> = Vec::new();
    let mut i: usize = 0;
    while i < v.len()
        invariant
            i <= v@.len(),
            list_view(out@) == list_view(v@).take(i as int),
        decreases v@.len() - i,
    {
        let e = &v[i];
        let c = Learned { key: vstd::slice::slice_to_vec(e.key.as_slice()), origin: e.origin, item: e.item, until: e.until };
        let ghost before = list_view(out@);
        out.push(c);
        assert(list_view(out@) =~= before.push(crate::dns::upstream::learned::learned_view(c)));
        i = i + 1;
        assert(list_view(out@) =~= list_view(v@).take(i as int));
    }
    assert(list_view(v@).take(i as int) =~= list_view(v@));
    out
}

fn copy_domains(v: &Vec<Learned<Name>>) -> (r: Vec<Learned<Name>>)
    ensures
        list_view(r@) == list_view(v@),
{
    let mut out: Vec<Learned<Name>> = Vec::new();
    let mut i: usize = 0;
    while i < v.len()
        invariant
            i <= v@.len(),
            list_view(out@) == list_view(v@).take(i as int),
        decreases v@.len() - i,
    {
        let e = &v[i];
        let c = Learned { key: vstd::slice::slice_to_vec(e.key.as_slice()), origin: e.origin, item: e.item.clone(), until: e.until };
        let ghost before = list_view(out@);
        out.push(c);
        assert(list_view(out@) =~= before.push(crate::dns::upstream::learned::learned_view(c)));
        i = i + 1;
        assert(list_view(out@) =~= list_view(v@).take(i as int));
    }
    assert(list_view(v@).take(i as int) =~= list_view(v@));
    out
}

fn set_servers(ss: &mut Vec<Learned<SocketAddress>>, origin: Origin, items: &Vec<(SocketAddress, u64)>, now: u64)
    requires
        sorted(list_view(old(ss)@)),
        keyed(list_view(old(ss)@), server_kf()),
    ensures
        list_view(final(ss)@) == set_all(list_view(old(ss)@), server_items(origin, items@), now),
        sorted(list_view(final(ss)@)),
        keyed(list_view(final(ss)@), server_kf()),
{
    let ghost start = list_view(ss@);
    let ghost all = server_items(origin, items@);
    assert(keyed(all, server_kf()));
    assert(all.take(0) =~= Seq::<LearnedV<SocketAddress>>::empty());
    let mut i: usize = 0;
    while i < items.len()
        invariant
            i <= items@.len(),
            all == server_items(origin, items@),
            keyed(all, server_kf()),
            sorted(start),
            keyed(start, server_kf()),
            list_view(ss@) == set_all(start, all.take(i as int), now),
        decreases items@.len() - i,
    {
        proof {
            assert(keyed(all.take(i as int), server_kf())) by {
                assert forall|k: int| 0 <= k < i implies (#[trigger] all.take(i as int)[k]).key == server_key(all.take(i as int)[k].origin, all.take(i as int)[k].item) by {
                    assert(all.take(i as int)[k] == all[k]);
                    assert(all[k].key == server_kf()(all[k].origin, all[k].item));
                }
            }
            crate::dns::upstream::discovery::lemma_set_all_keyed(start, all.take(i as int), now, server_kf());
            assert(all.take(i + 1).drop_last() =~= all.take(i as int));
            assert(all.take(i + 1).last() == all[i as int]);
        }
        let (a, t) = items[i];
        let mut key = origin_key_exec(&origin);
        let sk = sock_key_exec(&a);
        crate::bytes::push_bytes(&mut key, sk.as_slice());
        assert(key@ == server_key(origin, a));
        if t <= now {
            remove_exec(ss, key.as_slice());
        } else {
            upsert_exec(ss, Learned { key, origin, item: a, until: t });
        }
        i = i + 1;
    }
    proof {
        assert(all.take(i as int) =~= all);
        lemma_set_all_keyed(start, all, now, server_kf());
    }
}

fn set_domains(dd: &mut Vec<Learned<Name>>, origin: Origin, items: &Vec<(Name, u64)>, now: u64)
    requires
        sorted(list_view(old(dd)@)),
        keyed(list_view(old(dd)@), domain_kf()),
    ensures
        list_view(final(dd)@) == set_all(list_view(old(dd)@), domain_items(origin, pairs_view(items@)), now),
        sorted(list_view(final(dd)@)),
        keyed(list_view(final(dd)@), domain_kf()),
{
    let ghost start = list_view(dd@);
    let ghost all = domain_items(origin, pairs_view(items@));
    assert(keyed(all, domain_kf()));
    let mut i: usize = 0;
    while i < items.len()
        invariant
            i <= items@.len(),
            all == domain_items(origin, pairs_view(items@)),
            keyed(all, domain_kf()),
            sorted(start),
            keyed(start, domain_kf()),
            list_view(dd@) == set_all(start, all.take(i as int), now),
        decreases items@.len() - i,
    {
        proof {
            assert(keyed(all.take(i as int), domain_kf())) by {
                assert forall|k: int| 0 <= k < i implies (#[trigger] all.take(i as int)[k]).key == domain_key(all.take(i as int)[k].origin, all.take(i as int)[k].item) by {
                    assert(all.take(i as int)[k] == all[k]);
                    assert(all[k].key == domain_kf()(all[k].origin, all[k].item));
                }
            }
            lemma_set_all_keyed(start, all.take(i as int), now, domain_kf());
            assert(all.take(i + 1).drop_last() =~= all.take(i as int));
            assert(all.take(i + 1).last() == all[i as int]);
        }
        let n = &items[i].0;
        let t = items[i].1;
        let mut key = origin_key_exec(&origin);
        crate::bytes::push_bytes(&mut key, n.canonical());
        assert(key@ == domain_key(origin, n@));
        if t <= now {
            remove_exec(dd, key.as_slice());
        } else {
            upsert_exec(dd, Learned { key, origin, item: n.clone(), until: t });
        }
        i = i + 1;
    }
    proof {
        assert(all.take(i as int) =~= all);
        lemma_set_all_keyed(start, all, now, domain_kf());
    }
}

impl Discovery {
    fn apply(&mut self, origin: Origin, servers: &Vec<(SocketAddress, u64)>, domains: &Vec<(Name, u64)>, replace: bool, now: u64) -> (r: Result<(), Error>)
        requires
            old(self).wf(),
        ensures
            final(self).wf(),
            match spec_apply(old(self)@, origin, servers@, pairs_view(domains@), replace, now) {
                None => r == Err::<(), Error>(Error::Invalid) && final(self)@ == old(self)@,
                Some(n) => r is Ok && final(self)@ == n,
            },
    {
        let ghost d0 = self@;
        let mut ss = copy_servers(&self.servers);
        retain_learned(&mut ss, now, replace, origin);
        proof {
            lemma_keep_keyed(d0.servers, keep_fn(now, replace, origin), server_kf());
        }
        set_servers(&mut ss, origin, servers, now);
        let mut dd = copy_domains(&self.domains);
        retain_learned(&mut dd, now, replace, origin);
        proof {
            lemma_keep_keyed(d0.domains, keep_fn(now, replace, origin), domain_kf());
        }
        set_domains(&mut dd, origin, domains, now);
        if ss.len() > 8 || dd.len() > 64 {
            return Err(Error::Invalid);
        }
        self.servers = ss;
        self.domains = dd;
        Ok(())
    }
}

/// The resolvers of a DHCPv6 reply, on port 53, until its refresh time.
pub open spec fn dhcp6_servers(c: Seq<[u8; 16]>, until: u64) -> Seq<(SocketAddress, u64)> {
    c.map_values(|a: [u8; 16]| (SocketAddress { ip: IpAddress::V6(a), port: 53 }, until))
}

/// The resolvers of a DHCPv4 lease, on port 53, for as long as the lease holds.
pub open spec fn dhcp4_servers(c: Seq<[u8; 4]>) -> Seq<(SocketAddress, u64)> {
    c.map_values(|a: [u8; 4]| (SocketAddress { ip: IpAddress::V4(a), port: 53 }, u64::MAX))
}

pub open spec fn with_until(ns: Seq<Seq<Seq<u8>>>, until: u64) -> Seq<(Seq<Seq<u8>>, u64)> {
    ns.map_values(|n: Seq<Seq<u8>>| (n, until))
}

fn copy_labels(v: &Vec<Vec<u8>>) -> (r: Vec<Vec<u8>>)
    ensures
        crate::dns::name::labels_view(r@) == crate::dns::name::labels_view(v@),
{
    let mut out: Vec<Vec<u8>> = Vec::new();
    let mut i: usize = 0;
    while i < v.len()
        invariant
            i <= v@.len(),
            crate::dns::name::labels_view(out@) == crate::dns::name::labels_view(v@).take(i as int),
        decreases v@.len() - i,
    {
        let c = vstd::slice::slice_to_vec(v[i].as_slice());
        let ghost before = out@;
        out.push(c);
        assert(crate::dns::name::labels_view(out@) =~= crate::dns::name::labels_view(before).push(c@));
        i = i + 1;
        assert(crate::dns::name::labels_view(out@) =~= crate::dns::name::labels_view(v@).take(i as int));
    }
    assert(crate::dns::name::labels_view(v@).take(i as int) =~= crate::dns::name::labels_view(v@));
    out
}

impl Discovery {
    /// Takes a DHCPv6 reply's resolvers and domains in place of the previous DHCPv6 ones,
    /// until the reply's refresh time.
    pub fn dhcp6(&mut self, c: &DhcpConfiguration, now: u64) -> (r: Result<(), Error>)
        requires
            old(self).wf(),
        ensures
            final(self).wf(),
            ({
                let until = spec_deadline(now, c.refresh);
                match spec_apply(old(self)@, Origin::Dhcp6, dhcp6_servers(c.servers@, until), with_until(names_view(c.domains@), until), true, now) {
                    None => r == Err::<(), Error>(Error::Invalid) && final(self)@ == old(self)@,
                    Some(n) => r is Ok && final(self)@ == n,
                }
            }),
    {
        let until = deadline(now, c.refresh);
        let mut servers: Vec<(SocketAddress, u64)> = Vec::new();
        let mut i: usize = 0;
        while i < c.servers.len()
            invariant
                i <= c.servers@.len(),
                servers@ == dhcp6_servers(c.servers@, until).take(i as int),
            decreases c.servers@.len() - i,
        {
            servers.push((SocketAddress { ip: IpAddress::V6(c.servers[i]), port: 53 }, until));
            i = i + 1;
            assert(servers@ =~= dhcp6_servers(c.servers@, until).take(i as int));
        }
        assert(dhcp6_servers(c.servers@, until).take(i as int) =~= dhcp6_servers(c.servers@, until));
        let mut domains: Vec<(Name, u64)> = Vec::new();
        let mut k: usize = 0;
        while k < c.domains.len()
            invariant
                k <= c.domains@.len(),
                pairs_view(domains@) == with_until(names_view(c.domains@), until).take(k as int),
            decreases c.domains@.len() - k,
        {
            let n = c.domains[k].clone();
            let ghost before = pairs_view(domains@);
            domains.push((n, until));
            assert(pairs_view(domains@) =~= before.push((n@, until)));
            k = k + 1;
            assert(pairs_view(domains@) =~= with_until(names_view(c.domains@), until).take(k as int));
        }
        assert(with_until(names_view(c.domains@), until).take(k as int) =~= with_until(names_view(c.domains@), until));
        self.apply(Origin::Dhcp6, &servers, &domains, true, now)
    }

    /// Takes a DHCPv4 lease's resolvers and search domains in place of the previous DHCPv4
    /// ones (none without a lease). A search domain that is not a valid name is refused and
    /// changes nothing.
    pub fn dhcp4(&mut self, c: Option<&crate::ipv4::dhcp::Configuration>, now: u64) -> (r: Result<(), Error>)
        requires
            old(self).wf(),
        ensures
            final(self).wf(),
            (match c {
                None => match spec_apply(old(self)@, Origin::Dhcp4, Seq::empty(), Seq::empty(), true, now) {
                    None => r == Err::<(), Error>(Error::Invalid) && final(self)@ == old(self)@,
                    Some(n) => r is Ok && final(self)@ == n,
                },
                Some(c) => if exists|i: int| 0 <= i < c@.search.len() && !crate::dns::name::valid_labels(#[trigger] c@.search[i]) {
                    r == Err::<(), Error>(Error::Invalid) && final(self)@ == old(self)@
                } else {
                    match spec_apply(old(self)@, Origin::Dhcp4, dhcp4_servers(c.dns@), with_until(c@.search, u64::MAX), true, now) {
                        None => r == Err::<(), Error>(Error::Invalid) && final(self)@ == old(self)@,
                        Some(n) => r is Ok && final(self)@ == n,
                    }
                },
            }),
    {
        let mut servers: Vec<(SocketAddress, u64)> = Vec::new();
        let mut domains: Vec<(Name, u64)> = Vec::new();
        if let Some(cfg) = c {
            let mut i: usize = 0;
            while i < cfg.dns.len()
                invariant
                    i <= cfg.dns@.len(),
                    servers@ == dhcp4_servers(cfg.dns@).take(i as int),
                decreases cfg.dns@.len() - i,
            {
                servers.push((SocketAddress { ip: IpAddress::V4(cfg.dns[i]), port: 53 }, u64::MAX));
                i = i + 1;
                assert(servers@ =~= dhcp4_servers(cfg.dns@).take(i as int));
            }
            assert(dhcp4_servers(cfg.dns@).take(i as int) =~= dhcp4_servers(cfg.dns@));
            let mut k: usize = 0;
            assert(pairs_view(domains@) =~= with_until(cfg@.search, u64::MAX).take(0));
            while k < cfg.search.len()
                invariant
                    k <= cfg.search@.len(),
                    c == Some(cfg),
                    self@ == old(self)@,
                    old(self).wf(),
                    pairs_view(domains@) == with_until(cfg@.search, u64::MAX).take(k as int),
                    forall|j: int| 0 <= j < k ==> crate::dns::name::valid_labels(#[trigger] cfg@.search[j]),
                decreases cfg.search@.len() - k,
            {
                let labels = copy_labels(&cfg.search[k]);
                assert(cfg@.search[k as int] == crate::dns::name::labels_view(cfg.search@[k as int]@));
                let n = match Name::from_labels(labels) {
                    Ok(n) => n,
                    Err(_) => return Err(Error::Invalid),
                };
                let ghost before = pairs_view(domains@);
                domains.push((n, u64::MAX));
                assert(pairs_view(domains@) =~= before.push((n@, u64::MAX)));
                k = k + 1;
                assert(pairs_view(domains@) =~= with_until(cfg@.search, u64::MAX).take(k as int));
            }
            assert(with_until(cfg@.search, u64::MAX).take(k as int) =~= with_until(cfg@.search, u64::MAX));
        } else {
            assert(servers@ =~= Seq::<(SocketAddress, u64)>::empty());
            assert(pairs_view(domains@) =~= Seq::<(Seq<Seq<u8>>, u64)>::empty());
        }
        self.apply(Origin::Dhcp4, &servers, &domains, true, now)
    }
}

/// The 16-octet address with the given octets.
pub open spec fn arr16(s: Seq<u8>) -> [u8; 16] {
    choose|a: [u8; 16]| a@ == s
}

/// When what an option carries expires: its lifetime (octets 4..8, in seconds) from now.
pub open spec fn option_until(b: Seq<u8>, now: u64) -> u64 {
    spec_deadline(now, be32(b[4], b[5], b[6], b[7]))
}

pub open spec fn rdnss_chunk(b: Seq<u8>, k: int) -> Seq<u8> {
    b.subrange(8 + 16 * k, 24 + 16 * k)
}

/// A recursive DNS server option (its octets from the type on): at least one address, each a
/// usable IPv6 address, as resolvers on port 53 for the option's lifetime.
pub open spec fn spec_rdnss(b: Seq<u8>, now: u64) -> Option<Seq<(SocketAddress, u64)>> {
    if b.len() < 24 || (b.len() - 8) % 16 != 0 {
        None
    } else if forall|k: int| 0 <= k < (b.len() - 8) / 16 ==> spec_valid6(#[trigger] rdnss_chunk(b, k)) {
        Some(
            Seq::new(
                ((b.len() - 8) / 16) as nat,
                |k: int| (SocketAddress { ip: IpAddress::V6(arr16(rdnss_chunk(b, k))), port: 53 }, option_until(b, now)),
            ),
        )
    } else {
        None
    }
}

/// A DNS search list option (its octets from the type on): its names, padded with zero
/// octets, for the option's lifetime.
pub open spec fn spec_dnssl(b: Seq<u8>, now: u64) -> Option<Seq<(Seq<Seq<u8>>, u64)>> {
    if b.len() < 16 {
        None
    } else {
        match spec_names(b.subrange(8, b.len() as int), true) {
            None => None,
            Some(ns) => Some(with_until(ns, option_until(b, now))),
        }
    }
}

/// The resolvers and search domains that a router advertisement's options carry, in order;
/// `None` if one of those options is malformed. Other options are ignored.
pub open spec fn ra_offers(opts: Seq<(u8, Seq<u8>)>, now: u64) -> Option<(Seq<(SocketAddress, u64)>, Seq<(Seq<Seq<u8>>, u64)>)>
    decreases opts.len(),
{
    if opts.len() == 0 {
        Some((Seq::empty(), Seq::empty()))
    } else {
        match ra_offers(opts.drop_last(), now) {
            None => None,
            Some((s, d)) => {
                let o = opts.last();
                if o.0 == 25 {
                    match spec_rdnss(o.1, now) {
                        None => None,
                        Some(x) => Some((s + x, d)),
                    }
                } else if o.0 == 31 {
                    match spec_dnssl(o.1, now) {
                        None => None,
                        Some(x) => Some((s, d + x)),
                    }
                } else {
                    Some((s, d))
                }
            },
        }
    }
}

pub open spec fn options_view(v: Seq<(u8, Vec<u8>)>) -> Seq<(u8, Seq<u8>)> {
    v.map_values(|o: (u8, Vec<u8>)| (o.0, o.1@))
}

fn rdnss_exec(b: &[u8], now: u64, servers: &mut Vec<(SocketAddress, u64)>) -> (ok: bool)
    ensures
        match spec_rdnss(b@, now) {
            None => !ok,
            Some(x) => ok && final(servers)@ == old(servers)@ + x,
        },
{
    let l = b.len();
    if l < 24 || (l - 8) % 16 != 0 {
        return false;
    }
    let until = deadline(now, crate::bytes::read_u32(b, 4));
    let n = (l - 8) / 16;
    let ghost s0 = servers@;
    let ghost all = Seq::new(
        n as nat,
        |k: int| (SocketAddress { ip: IpAddress::V6(arr16(rdnss_chunk(b@, k))), port: 53 }, option_until(b@, now)),
    );
    let mut k: usize = 0;
    while k < n
        invariant
            l == b@.len(),
            l >= 24,
            (l - 8) % 16 == 0,
            n == (l - 8) / 16,
            k <= n,
            until == option_until(b@, now),
            all == Seq::new(
                n as nat,
                |k: int| (SocketAddress { ip: IpAddress::V6(arr16(rdnss_chunk(b@, k))), port: 53 }, option_until(b@, now)),
            ),
            servers@ == s0 + all.take(k as int),
            forall|j: int| 0 <= j < k ==> spec_valid6(#[trigger] rdnss_chunk(b@, j)),
        decreases n - k,
    {
        let j = 8 + 16 * k;
        let a: [u8; 16] = [
            b[j], b[j + 1], b[j + 2], b[j + 3], b[j + 4], b[j + 5], b[j + 6], b[j + 7],
            b[j + 8], b[j + 9], b[j + 10], b[j + 11], b[j + 12], b[j + 13], b[j + 14], b[j + 15],
        ];
        assert(a@ =~= rdnss_chunk(b@, k as int));
        if valid6(a).is_err() {
            return false;
        }
        proof {
            let c = arr16(rdnss_chunk(b@, k as int));
            assert(c@ == rdnss_chunk(b@, k as int));
            assert(c@ =~= a@);
            assert(c =~= a);
        }
        servers.push((SocketAddress { ip: IpAddress::V6(a), port: 53 }, until));
        k = k + 1;
        assert(servers@ =~= s0 + all.take(k as int));
    }
    assert(all.take(k as int) =~= all);
    true
}

fn dnssl_exec(b: &[u8], now: u64, domains: &mut Vec<(Name, u64)>) -> (ok: bool)
    ensures
        match spec_dnssl(b@, now) {
            None => !ok,
            Some(x) => ok && pairs_view(final(domains)@) == pairs_view(old(domains)@) + x,
        },
{
    let l = b.len();
    if l < 16 {
        return false;
    }
    let until = deadline(now, crate::bytes::read_u32(b, 4));
    let rest = crate::bytes::copy_range(b, 8, l);
    let ns = match names(rest.as_slice(), true) {
        Ok(v) => v,
        Err(_) => return false,
    };
    let ghost d0 = pairs_view(domains@);
    let ghost want = with_until(names_view(ns@), until);
    let mut k: usize = 0;
    while k < ns.len()
        invariant
            k <= ns@.len(),
            want == with_until(names_view(ns@), until),
            pairs_view(domains@) == d0 + want.take(k as int),
        decreases ns@.len() - k,
    {
        let n = ns[k].clone();
        let ghost before = pairs_view(domains@);
        domains.push((n, until));
        assert(pairs_view(domains@) =~= before.push((n@, until)));
        k = k + 1;
        assert(pairs_view(domains@) =~= d0 + want.take(k as int));
    }
    assert(want.take(k as int) =~= want);
    true
}

impl Discovery {
    /// Takes what a router advertisement from `source` offers, given its options as type and
    /// octets (from the type on): recursive DNS server options (type 25) and DNS search list
    /// options (type 31), each kept for its own lifetime beside what that router offered
    /// before; a lifetime of zero withdraws. A malformed option refuses the whole
    /// advertisement and changes nothing.
    pub fn receive_ra_options(&mut self, source: [u8; 16], options: &Vec<(u8, Vec<u8>)>, now: u64) -> (r: Result<(), Error>)
        requires
            old(self).wf(),
        ensures
            final(self).wf(),
            match ra_offers(options_view(options@), now) {
                None => r == Err::<(), Error>(Error::Invalid) && final(self)@ == old(self)@,
                Some((s, d)) => match spec_apply(old(self)@, Origin::Ra(source), s, d, false, now) {
                    None => r == Err::<(), Error>(Error::Invalid) && final(self)@ == old(self)@,
                    Some(n) => r is Ok && final(self)@ == n,
                },
            },
    {
        let ghost ov = options_view(options@);
        let mut servers: Vec<(SocketAddress, u64)> = Vec::new();
        let mut domains: Vec<(Name, u64)> = Vec::new();
        let mut i: usize = 0;
        assert(ov.take(0) =~= Seq::<(u8, Seq<u8>)>::empty());
        assert(servers@ =~= Seq::<(SocketAddress, u64)>::empty());
        assert(pairs_view(domains@) =~= Seq::<(Seq<Seq<u8>>, u64)>::empty());
        while i < options.len()
            invariant
                i <= options@.len(),
                ov == options_view(options@),
                self@ == old(self)@,
                old(self).wf(),
                ra_offers(ov.take(i as int), now) == Some((servers@, pairs_view(domains@))),
            decreases options@.len() - i,
        {
            proof {
                assert(ov.take(i + 1).drop_last() =~= ov.take(i as int));
                assert(ov.take(i + 1).last() == ov[i as int]);
                assert(ov[i as int] == (options@[i as int].0, options@[i as int].1@));
            }
            let kind = options[i].0;
            let b = options[i].1.as_slice();
            if kind == 25 {
                if !rdnss_exec(b, now, &mut servers) {
                    proof {
                        lemma_ra_offers_none(ov, i as int + 1, now);
                    }
                    return Err(Error::Invalid);
                }
            } else if kind == 31 {
                if !dnssl_exec(b, now, &mut domains) {
                    proof {
                        lemma_ra_offers_none(ov, i as int + 1, now);
                    }
                    return Err(Error::Invalid);
                }
            }
            i = i + 1;
        }
        assert(ov.take(i as int) =~= ov);
        self.apply(Origin::Ra(source), &servers, &domains, false, now)
    }
}

/// Once the options so far are malformed, the whole list is.
proof fn lemma_ra_offers_none(opts: Seq<(u8, Seq<u8>)>, k: int, now: u64)
    requires
        0 <= k <= opts.len(),
        ra_offers(opts.take(k), now) is None,
    ensures
        ra_offers(opts, now) is None,
    decreases opts.len() - k,
{
    if k < opts.len() {
        assert(opts.take(k + 1).drop_last() =~= opts.take(k));
        lemma_ra_offers_none(opts, k + 1, now);
    } else {
        assert(opts.take(k) =~= opts);
    }
}

} // verus!
