//! NAT64 prefix selection: announce an infrastructure PREF64 that has a return route, defer
//! to a reachable stub peer, or announce the local /96 while the translator and IPv4 path
//! are up; and withdraw what was announced before and is no longer chosen.
use crate::error::Error;
use crate::mdns::cache::store::{bytes_less, bytes_lt, lemma_bytes_lt_irreflexive, lemma_bytes_lt_total, lemma_bytes_lt_transitive};
use crate::nat64::{Mode, Readiness, Source};
use crate::Link;
use vstd::prelude::*;

verus! {

/// An IPv6 prefix: an address and a length in bits.
#[derive(Clone, Copy, Debug)]
pub struct Prefix {
    pub address: [u8; 16],
    pub length: u8,
}

/// A NAT64 prefix option: the prefix and its lifetime in seconds.
#[derive(Clone, Copy, Debug)]
pub struct Pref64 {
    pub prefix: Prefix,
    pub lifetime: u16,
}

/// Route preference of a route information option.
#[derive(Clone, Copy, Debug, PartialEq, Eq, Structural)]
pub enum Preference {
    Low,
    Medium,
    High,
}

/// A route information option: the prefix, its preference and lifetime in seconds.
#[derive(Clone, Copy, Debug)]
pub struct Rio {
    pub prefix: Prefix,
    pub preference: Preference,
    pub lifetime: u32,
}

/// A PREF64 to announce on the stub link, and where it came from.
#[derive(Clone, Copy, Debug)]
pub struct Announcement {
    pub pref64: Pref64,
    pub source: Source,
}

/// Why the selector chose what it chose.
#[derive(Clone, Copy, Debug, PartialEq, Eq, Structural)]
pub enum Reason {
    Disabled,
    NotReady,
    Suppressed,
    Infrastructure,
    PeerProvides,
    LocalReady,
    NoPath,
}

/// What to announce and route now.
#[derive(Debug)]
pub struct Decision {
    pub mode: Mode,
    pub announcements: Vec<Announcement>,
    pub routes: Vec<Rio>,
    pub reason: Reason,
}

pub struct DecisionV {
    pub mode: Mode,
    pub announcements: Seq<Announcement>,
    pub routes: Seq<Rio>,
    pub reason: Reason,
}

impl View for Decision {
    type V = DecisionV;

    open spec fn view(&self) -> DecisionV {
        DecisionV { mode: self.mode, announcements: self.announcements@, routes: self.routes@, reason: self.reason }
    }
}

/// The operator's NAT64 policy.
#[derive(Clone, Copy, Debug)]
pub struct Policy {
    pub enabled: bool,
    pub infrastructure: Option<Prefix>,
    pub allow_without_pd: bool,
}

/// A PREF64 seen from a router on a link, kept until `until`.
#[derive(Clone, Copy, Debug)]
pub struct Observation {
    pub link: Link,
    pub router: [u8; 16],
    pub prefix: Prefix,
    pub until: u64,
}

/// A prefix announced before: where it came from, until when it was promised, and whether
/// it was withdrawn.
#[derive(Clone, Copy, Debug)]
pub struct Promise {
    pub prefix: Prefix,
    pub source: Source,
    pub until: u64,
    pub withdrawn: bool,
}

/// The selector: policy, observations, the local /96, what was promised (ordered by
/// prefix), and whether infrastructure announcements are held back after a failure.
pub struct Selector {
    policy: Policy,
    observations: Vec<Observation>,
    local: Prefix,
    promised: Vec<Promise>,
    suppressed: bool,
}

pub struct SelectorV {
    pub policy: Policy,
    pub observations: Seq<Observation>,
    pub local: Prefix,
    pub promised: Seq<Promise>,
    pub suppressed: bool,
}

impl View for Selector {
    type V = SelectorV;

    closed spec fn view(&self) -> SelectorV {
        SelectorV {
            policy: self.policy,
            observations: self.observations@,
            local: self.local,
            promised: self.promised@,
            suppressed: self.suppressed,
        }
    }
}

/// The order of prefixes: by address, then by length.
pub open spec fn prefix_key(p: Prefix) -> Seq<u8> {
    p.address@.push(p.length)
}

pub open spec fn prefix_lt(a: Prefix, b: Prefix) -> bool {
    bytes_lt(prefix_key(a), prefix_key(b))
}

proof fn lemma_prefix_key_injective(a: Prefix, b: Prefix)
    requires
        prefix_key(a) == prefix_key(b),
    ensures
        a == b,
{
    assert(a.address@.len() == 16 && b.address@.len() == 16);
    assert forall|i: int| 0 <= i < 16 implies a.address@[i] == b.address@[i] by {
        assert(prefix_key(a)[i] == prefix_key(b)[i]);
        assert(prefix_key(a)[i] == a.address@[i]);
        assert(prefix_key(b)[i] == b.address@[i]);
    }
    assert(a.address@ =~= b.address@);
    assert(a.address =~= b.address);
    assert(prefix_key(a)[16] == prefix_key(b)[16]);
    assert(prefix_key(a)[16] == a.length && prefix_key(b)[16] == b.length);
}

fn prefix_key_exec(p: &Prefix) -> (r: Vec<u8>)
    ensures
        r@ == prefix_key(*p),
{
    let mut v: Vec<u8> = Vec::new();
    let mut i: usize = 0;
    while i < 16
        invariant
            i <= 16,
            v@ == p.address@.take(i as int),
        decreases 16 - i,
    {
        v.push(p.address[i]);
        assert(p.address@.take(i as int + 1) =~= p.address@.take(i as int).push(p.address@[i as int]));
        i = i + 1;
    }
    assert(p.address@.take(16) =~= p.address@);
    v.push(p.length);
    v
}

fn same_address(a: &[u8; 16], b: &[u8; 16]) -> (r: bool)
    ensures
        r == (*a == *b),
{
    let mut i: usize = 0;
    while i < 16
        invariant
            i <= 16,
            forall|k: int| 0 <= k < i ==> a@[k] == b@[k],
        decreases 16 - i,
    {
        if a[i] != b[i] {
            return false;
        }
        i = i + 1;
    }
    assert(a@ =~= b@);
    assert(*a =~= *b);
    true
}

fn same_prefix(a: &Prefix, b: &Prefix) -> (r: bool)
    ensures
        r == (*a == *b),
{
    same_address(&a.address, &b.address) && a.length == b.length
}

pub open spec fn sat_add(a: u64, b: u64) -> u64 {
    if a + b > u64::MAX {
        u64::MAX
    } else {
        (a + b) as u64
    }
}

pub open spec fn sat_sub(a: u64, b: u64) -> u64 {
    if a > b {
        (a - b) as u64
    } else {
        0
    }
}

pub open spec fn min64(a: u64, b: u64) -> u64 {
    if a < b { a } else { b }
}

/// A lifetime in seconds for an announcement ending at `until`: whole seconds left, at most
/// 65528, rounded down to a multiple of eight.
pub open spec fn remaining(until: u64, now: u64) -> u32 {
    let s = sat_sub(until, now) / 1000;
    ((if s < 65528 { s } else { 65528 }) as u32) & !7u32
}

proof fn lemma_remaining_bound_any()
    ensures
        forall|until: u64, now: u64| #[trigger] remaining(until, now) <= 65528,
{
    assert forall|until: u64, now: u64| #[trigger] remaining(until, now) <= 65528 by {
        let s = sat_sub(until, now) / 1000;
        let x: u32 = (if s < 65528 { s } else { 65528 }) as u32;
        assert(x <= 65528);
        assert(x <= 65528 ==> x & !7u32 <= 65528) by (bit_vector);
    }
}

fn remaining_exec(until: u64, now: u64) -> (r: u32)
    ensures
        r == remaining(until, now),
{
    let s = if until > now { (until - now) / 1000 } else { 0 };
    ((if s < 65528 { s } else { 65528 }) as u32) & !7u32
}

/// Whether the router `a` on `l` is reachable, as the caller reports.
pub open spec fn reachable(reach: Seq<(Link, [u8; 16])>, l: Link, a: [u8; 16]) -> bool {
    reach.contains((l, a))
}

/// The return route's end for a prefix, as the caller reports: the first entry for it.
pub open spec fn route_of(routes: Seq<(Prefix, u64)>, p: Prefix) -> Option<u64>
    decreases routes.len(),
{
    if routes.len() == 0 {
        None
    } else {
        match route_of(routes.drop_last(), p) {
            Some(u) => Some(u),
            None => if routes.last().0 == p { Some(routes.last().1) } else { None },
        }
    }
}

pub open spec fn pairs_sorted(out: Seq<(Prefix, u64)>) -> bool {
    forall|a: int, b: int| 0 <= a < b < out.len() ==> prefix_lt(out[a].0, out[b].0)
}

/// How many listed prefixes order before `p`.
pub open spec fn pair_place(out: Seq<(Prefix, u64)>, p: Prefix) -> int
    decreases out.len(),
{
    if out.len() == 0 {
        0
    } else if prefix_lt(out.last().0, p) {
        out.len() as int
    } else {
        pair_place(out.drop_last(), p)
    }
}

/// One observation taken into the list of live prefixes on `link`: for each prefix the
/// latest end among reachable routers.
pub open spec fn live_step(out: Seq<(Prefix, u64)>, o: Observation, link: Link, now: u64, reach: Seq<(Link, [u8; 16])>) -> Seq<(Prefix, u64)> {
    if o.link == link && o.until > now && reachable(reach, link, o.router) {
        let p = pair_place(out, o.prefix);
        if p < out.len() && out[p].0 == o.prefix {
            out.update(p, (o.prefix, if out[p].1 < o.until { o.until } else { out[p].1 }))
        } else {
            out.insert(p, (o.prefix, o.until))
        }
    } else {
        out
    }
}

/// The prefixes live on `link` at `now` from reachable routers, ordered, each with its
/// latest end.
pub open spec fn live(obs: Seq<Observation>, link: Link, now: u64, reach: Seq<(Link, [u8; 16])>) -> Seq<(Prefix, u64)>
    decreases obs.len(),
{
    if obs.len() == 0 {
        Seq::empty()
    } else {
        live_step(live(obs.drop_last(), link, now, reach), obs.last(), link, now, reach)
    }
}

proof fn lemma_pair_place(out: Seq<(Prefix, u64)>, p: Prefix)
    requires
        pairs_sorted(out),
    ensures
        0 <= pair_place(out, p) <= out.len(),
        forall|j: int| 0 <= j < pair_place(out, p) ==> prefix_lt(out[j].0, p),
        pair_place(out, p) < out.len() ==> !prefix_lt(out[pair_place(out, p)].0, p),
    decreases out.len(),
{
    if out.len() > 0 {
        if prefix_lt(out.last().0, p) {
            assert forall|j: int| 0 <= j < out.len() implies prefix_lt(out[j].0, p) by {
                if j < out.len() - 1 {
                    assert(prefix_lt(out[j].0, out[out.len() - 1].0));
                    lemma_bytes_lt_transitive(prefix_key(out[j].0), prefix_key(out.last().0), prefix_key(p));
                }
            }
        } else {
            let d = out.drop_last();
            assert forall|a: int, b: int| 0 <= a < b < d.len() implies prefix_lt(d[a].0, d[b].0) by {
                assert(d[a] == out[a] && d[b] == out[b]);
            }
            lemma_pair_place(d, p);
            let q = pair_place(d, p);
            assert forall|j: int| 0 <= j < q implies prefix_lt(out[j].0, p) by {
                assert(d[j] == out[j]);
            }
            if q < d.len() {
                assert(d[q] == out[q]);
            }
        }
    }
}

proof fn lemma_live_step_sorted(out: Seq<(Prefix, u64)>, o: Observation, link: Link, now: u64, reach: Seq<(Link, [u8; 16])>)
    requires
        pairs_sorted(out),
    ensures
        pairs_sorted(live_step(out, o, link, now, reach)),
{
    if o.link == link && o.until > now && reachable(reach, link, o.router) {
        let p = pair_place(out, o.prefix);
        lemma_pair_place(out, o.prefix);
        if p < out.len() && out[p].0 == o.prefix {
        } else {
            let x = o.prefix;
            let w = out.insert(p, (x, o.until));
            if p < out.len() {
                lemma_bytes_lt_total(prefix_key(out[p].0), prefix_key(x));
                if prefix_key(out[p].0) == prefix_key(x) {
                    lemma_prefix_key_injective(out[p].0, x);
                }
            }
            assert forall|a: int, b: int| 0 <= a < b < w.len() implies prefix_lt(w[a].0, w[b].0) by {
                if b < p {
                } else if b == p {
                } else if a < p {
                    if b - 1 > p {
                        assert(prefix_lt(out[p].0, out[b - 1].0));
                        lemma_bytes_lt_transitive(prefix_key(x), prefix_key(out[p].0), prefix_key(out[b - 1].0));
                    }
                    lemma_bytes_lt_transitive(prefix_key(out[a].0), prefix_key(x), prefix_key(out[b - 1].0));
                } else if a == p {
                    if b - 1 > p {
                        assert(prefix_lt(out[p].0, out[b - 1].0));
                        lemma_bytes_lt_transitive(prefix_key(x), prefix_key(out[p].0), prefix_key(out[b - 1].0));
                    }
                } else {
                    assert(prefix_lt(out[a - 1].0, out[b - 1].0));
                }
            }
        }
    }
}


pub open spec fn alive_obs(obs: Seq<Observation>, now: u64) -> Seq<Observation>
    decreases obs.len(),
{
    if obs.len() == 0 {
        obs
    } else if obs.last().until > now {
        alive_obs(obs.drop_last(), now).push(obs.last())
    } else {
        alive_obs(obs.drop_last(), now)
    }
}

pub open spec fn alive_promises(ps: Seq<Promise>, now: u64) -> Seq<Promise>
    decreases ps.len(),
{
    if ps.len() == 0 {
        ps
    } else if ps.last().until > now {
        alive_promises(ps.drop_last(), now).push(ps.last())
    } else {
        alive_promises(ps.drop_last(), now)
    }
}

/// Whether any PREF64 is seen on the stub link.
pub open spec fn stub_seen(obs: Seq<Observation>) -> bool {
    exists|i: int| 0 <= i < obs.len() && obs[i].link == Link::Stub
}

/// Whether a reachable stub peer announces a live PREF64.
pub open spec fn peer_seen(obs: Seq<Observation>, now: u64, reach: Seq<(Link, [u8; 16])>) -> bool {
    exists|i: int| 0 <= i < obs.len() && obs[i].link == Link::Stub && obs[i].until > now && reachable(reach, Link::Stub, obs[i].router)
}

pub open spec fn promised_has(ps: Seq<Promise>, p: Prefix) -> bool {
    exists|i: int| 0 <= i < ps.len() && ps[i].prefix == p
}

/// Whether the local /96 is announced and still promised.
pub open spec fn local_active(ps: Seq<Promise>, local: Prefix, now: u64) -> bool {
    exists|i: int| 0 <= i < ps.len() && ps[i].prefix == local && ps[i].source == Source::Local && ps[i].until > now && !ps[i].withdrawn
}

/// The selector at `now` before it decides: expired observations and promises dropped, and
/// the hold on announcements released once no stub PREF64 is seen.
pub open spec fn prepared(s: SelectorV, now: u64) -> SelectorV {
    let obs = alive_obs(s.observations, now);
    SelectorV {
        observations: obs,
        promised: alive_promises(s.promised, now),
        suppressed: if stub_seen(obs) { s.suppressed } else { false },
        ..s
    }
}

pub open spec fn empty_decision(mode: Mode, reason: Reason) -> DecisionV {
    DecisionV { mode, announcements: Seq::empty(), routes: Seq::empty(), reason }
}

/// The infrastructure candidates: the configured prefix, or the live reachable PREF64s of
/// the infrastructure link in order.
pub open spec fn candidates(q: SelectorV, now: u64, reach: Seq<(Link, [u8; 16])>) -> Seq<(Prefix, u64, Source)> {
    match q.policy.infrastructure {
        Some(p) => seq![(p, u64::MAX, Source::Configured)],
        None => live(q.observations, Link::Ail, now, reach).map_values(|e: (Prefix, u64)| (e.0, e.1, Source::Infrastructure)),
    }
}

/// One candidate considered: with a return route and time left it is announced, a prefix
/// not promised before taking one of the free slots; at most eight are announced.
pub open spec fn cand_step(
    st: (Seq<Announcement>, int),
    c: (Prefix, u64, Source),
    promised: Seq<Promise>,
    routes: Seq<(Prefix, u64)>,
    stub: u64,
    cap: u64,
    now: u64,
) -> (Seq<Announcement>, int) {
    if st.0.len() >= 8 {
        st
    } else {
        match route_of(routes, c.0) {
            None => st,
            Some(r) => {
                let lt = remaining(min64(min64(min64(c.1, r), stub), cap), now);
                let a = Announcement { pref64: Pref64 { prefix: c.0, lifetime: lt as u16 }, source: c.2 };
                if lt == 0 {
                    st
                } else if !promised_has(promised, c.0) {
                    if st.1 == 0 { st } else { (st.0.push(a), st.1 - 1) }
                } else {
                    (st.0.push(a), st.1)
                }
            },
        }
    }
}

pub open spec fn cand_fold(
    cs: Seq<(Prefix, u64, Source)>,
    slots: int,
    promised: Seq<Promise>,
    routes: Seq<(Prefix, u64)>,
    stub: u64,
    cap: u64,
    now: u64,
) -> (Seq<Announcement>, int)
    decreases cs.len(),
{
    if cs.len() == 0 {
        (Seq::empty(), slots)
    } else {
        cand_step(cand_fold(cs.drop_last(), slots, promised, routes, stub, cap, now), cs.last(), promised, routes, stub, cap, now)
    }
}

/// The route information for announced prefixes.
pub open spec fn routes_for(anns: Seq<Announcement>) -> Seq<Rio> {
    anns.map_values(|a: Announcement| Rio { prefix: a.pref64.prefix, preference: Preference::Medium, lifetime: a.pref64.lifetime as u32 })
}

/// What to announce now, before withdrawals (see `spec_select`).
pub open spec fn spec_select_active(
    s: SelectorV,
    now: u64,
    ready: Readiness,
    reach: Seq<(Link, [u8; 16])>,
    routes: Seq<(Prefix, u64)>,
) -> (SelectorV, DecisionV) {
    let q = prepared(s, now);
    if !q.policy.enabled {
        (q, empty_decision(Mode::Disabled, Reason::Disabled))
    } else {
        match ready.stub {
            None => (q, empty_decision(Mode::NoService, Reason::NotReady)),
            Some(st) => if st <= now {
                (q, empty_decision(Mode::NoService, Reason::NotReady))
            } else if q.suppressed {
                (q, empty_decision(Mode::Peer, Reason::Suppressed))
            } else {
                let pd_live = match ready.pd {
                    Some(t) => t > now,
                    None => false,
                };
                let infra = if pd_live || q.policy.allow_without_pd {
                    let cap = if q.policy.allow_without_pd { u64::MAX } else { ready.pd->0 };
                    cand_fold(candidates(q, now, reach), 8 - q.promised.len(), q.promised, routes, st, cap, now).0
                } else {
                    Seq::empty()
                };
                if infra.len() > 0 {
                    (q, DecisionV { mode: Mode::Infrastructure, announcements: infra, routes: routes_for(infra), reason: Reason::Infrastructure })
                } else if peer_seen(q.observations, now, reach) && !local_active(q.promised, q.local, now) {
                    (q, empty_decision(Mode::Peer, Reason::PeerProvides))
                } else {
                    match ready.ipv4 {
                        Some(v4) => if ready.translator && v4 > now {
                            let lt = remaining(min64(min64(v4, st), sat_add(now, 1800000)), now);
                            if lt > 0 && (promised_has(q.promised, q.local) || q.promised.len() < 8) {
                                let a = Announcement { pref64: Pref64 { prefix: q.local, lifetime: lt as u16 }, source: Source::Local };
                                (q, DecisionV {
                                    mode: Mode::Local,
                                    announcements: seq![a],
                                    routes: seq![Rio { prefix: q.local, preference: Preference::Medium, lifetime: lt }],
                                    reason: Reason::LocalReady,
                                })
                            } else {
                                (q, empty_decision(Mode::NoService, Reason::NoPath))
                            }
                        } else {
                            (q, empty_decision(Mode::NoService, Reason::NoPath))
                        },
                        None => (q, empty_decision(Mode::NoService, Reason::NoPath)),
                    }
                }
            },
        }
    }
}

pub open spec fn announced(anns: Seq<Announcement>, p: Prefix) -> bool {
    exists|i: int| 0 <= i < anns.len() && anns[i].pref64.prefix == p
}

pub open spec fn opt_or(o: Option<u64>, d: u64) -> u64 {
    match o {
        Some(v) => v,
        None => d,
    }
}

/// A promise not chosen again: withdrawn with a zero lifetime unless it was already, and its
/// route kept for what the local translator can still serve of it.
pub open spec fn withdraw_step(d: DecisionV, pr: Promise, enabled: bool, ready: Readiness, now: u64) -> DecisionV {
    if announced(d.announcements, pr.prefix) {
        d
    } else {
        let anns = if !pr.withdrawn {
            d.announcements.push(Announcement { pref64: Pref64 { prefix: pr.prefix, lifetime: 0 }, source: pr.source })
        } else {
            d.announcements
        };
        let life: u64 = if enabled && pr.source == Source::Local && ready.translator {
            sat_sub(min64(min64(pr.until, opt_or(ready.ipv4, now)), opt_or(ready.stub, now)), now) / 1000
        } else {
            0
        };
        DecisionV {
            announcements: anns,
            routes: d.routes.push(Rio { prefix: pr.prefix, preference: Preference::Medium, lifetime: if life < u32::MAX { life as u32 } else { u32::MAX } }),
            ..d
        }
    }
}

pub open spec fn withdraw_fold(d: DecisionV, ps: Seq<Promise>, enabled: bool, ready: Readiness, now: u64) -> DecisionV
    decreases ps.len(),
{
    if ps.len() == 0 {
        d
    } else {
        withdraw_step(withdraw_fold(d, ps.drop_last(), enabled, ready, now), ps.last(), enabled, ready, now)
    }
}

/// The selection at `now`: what `spec_select_active` chooses, then every earlier promise not
/// chosen again, in prefix order (see `withdraw_step`).
pub open spec fn spec_select(
    s: SelectorV,
    now: u64,
    ready: Readiness,
    reach: Seq<(Link, [u8; 16])>,
    routes: Seq<(Prefix, u64)>,
) -> (SelectorV, DecisionV) {
    let (q, d) = spec_select_active(s, now, ready, reach, routes);
    (q, withdraw_fold(d, q.promised, q.policy.enabled, ready, now))
}

pub open spec fn promises_sorted(ps: Seq<Promise>) -> bool {
    forall|a: int, b: int| 0 <= a < b < ps.len() ==> prefix_lt(ps[a].prefix, ps[b].prefix)
}

impl SelectorV {
    /// At most eight promises, ordered by prefix.
    pub open spec fn inv(self) -> bool {
        &&& self.promised.len() <= 8
        &&& promises_sorted(self.promised)
    }
}


/// A prefix length a PREF64 can have.
pub open spec fn pref64_length(l: u8) -> bool {
    l == 32 || l == 40 || l == 48 || l == 56 || l == 64 || l == 96
}

/// An IPv4-mapped address, `::ffff:a.b.c.d`.
pub open spec fn v4_mapped(a: [u8; 16]) -> bool {
    &&& forall|i: int| 0 <= i < 10 ==> a@[i] == 0
    &&& a@[10] == 0xff
    &&& a@[11] == 0xff
}

/// No address bits set beyond the prefix length (a multiple of eight here).
pub open spec fn host_bits_clear(p: Prefix) -> bool {
    forall|i: int| p.length / 8 <= i < 16 ==> p.address@[i] == 0
}

/// A prefix this selector takes as a PREF64: a PREF64 length, not IPv4-mapped, with no
/// host bits.
pub open spec fn usable(p: Prefix) -> bool {
    pref64_length(p.length) && !v4_mapped(p.address) && host_bits_clear(p)
}

/// The observations without those of `link` from `router` for `p`.
pub open spec fn drop_key(obs: Seq<Observation>, link: Link, router: [u8; 16], p: Prefix) -> Seq<Observation>
    decreases obs.len(),
{
    if obs.len() == 0 {
        obs
    } else if obs.last().link == link && obs.last().router == router && obs.last().prefix == p {
        drop_key(obs.drop_last(), link, router, p)
    } else {
        drop_key(obs.drop_last(), link, router, p).push(obs.last())
    }
}

/// One PREF64 option from `router` on `link`: an unusable prefix is ignored, a zero
/// lifetime forgets the prefix, any other sets when it ends.
pub open spec fn observe_step(obs: Seq<Observation>, link: Link, router: [u8; 16], o: Pref64, now: u64) -> Seq<Observation> {
    if !usable(o.prefix) {
        obs
    } else {
        let rest = drop_key(obs, link, router, o.prefix);
        if o.lifetime == 0 {
            rest
        } else {
            rest.push(Observation { link, router, prefix: o.prefix, until: sat_add(now, (o.lifetime as u64 * 1000) as u64) })
        }
    }
}

pub open spec fn observe_fold(obs: Seq<Observation>, link: Link, router: [u8; 16], os: Seq<Pref64>, now: u64) -> Seq<Observation>
    decreases os.len(),
{
    if os.len() == 0 {
        obs
    } else {
        observe_step(observe_fold(obs, link, router, os.drop_last(), now), link, router, os.last(), now)
    }
}

pub open spec fn link_count(obs: Seq<Observation>, link: Link) -> int
    decreases obs.len(),
{
    if obs.len() == 0 {
        0
    } else {
        link_count(obs.drop_last(), link) + if obs.last().link == link { 1int } else { 0int }
    }
}

pub open spec fn drop_link(obs: Seq<Observation>, link: Link) -> Seq<Observation>
    decreases obs.len(),
{
    if obs.len() == 0 {
        obs
    } else if obs.last().link == link {
        drop_link(obs.drop_last(), link)
    } else {
        drop_link(obs.drop_last(), link).push(obs.last())
    }
}

/// The earliest end among the observations and promises.
pub open spec fn obs_min(obs: Seq<Observation>, acc: Option<u64>) -> Option<u64>
    decreases obs.len(),
{
    if obs.len() == 0 {
        acc
    } else {
        let m = obs_min(obs.drop_last(), acc);
        let u = obs.last().until;
        Some(match m { Some(x) => if x < u { x } else { u }, None => u })
    }
}

pub open spec fn promise_min(ps: Seq<Promise>, acc: Option<u64>) -> Option<u64>
    decreases ps.len(),
{
    if ps.len() == 0 {
        acc
    } else {
        let m = promise_min(ps.drop_last(), acc);
        let u = ps.last().until;
        Some(match m { Some(x) => if x < u { x } else { u }, None => u })
    }
}

/// How many promises order before `p`.
pub open spec fn promise_place(ps: Seq<Promise>, p: Prefix) -> int
    decreases ps.len(),
{
    if ps.len() == 0 {
        0
    } else if prefix_lt(ps.last().prefix, p) {
        ps.len() as int
    } else {
        promise_place(ps.drop_last(), p)
    }
}

/// How long an announcement of `lifetime` seconds is promised, in milliseconds.
pub open spec fn promise_ms(lifetime: u16) -> u64 {
    ((((if lifetime < 65528 { lifetime } else { 65528u16 }) & !7u16) as u64) * 1000) as u64
}

/// One announcement that went out: a withdrawal marks the promise withdrawn, anything else
/// promises the prefix from `now` for its lifetime; an unusable prefix is an error.
pub open spec fn advertise_step(ps: Seq<Promise>, a: Announcement, now: u64) -> Option<Seq<Promise>> {
    if !usable(a.pref64.prefix) {
        None
    } else {
        let p = promise_place(ps, a.pref64.prefix);
        let found = p < ps.len() && ps[p].prefix == a.pref64.prefix;
        if a.pref64.lifetime == 0 {
            Some(if found { ps.update(p, Promise { withdrawn: true, ..ps[p] }) } else { ps })
        } else {
            let pr = Promise { prefix: a.pref64.prefix, source: a.source, until: sat_add(now, promise_ms(a.pref64.lifetime)), withdrawn: false };
            Some(if found { ps.update(p, pr) } else { ps.insert(p, pr) })
        }
    }
}

pub open spec fn advertise_fold(ps: Seq<Promise>, anns: Seq<Announcement>, now: u64) -> Option<Seq<Promise>>
    decreases anns.len(),
{
    if anns.len() == 0 {
        Some(ps)
    } else {
        match advertise_fold(ps, anns.drop_last(), now) {
            Some(q) => advertise_step(q, anns.last(), now),
            None => None,
        }
    }
}


proof fn lemma_promise_place(ps: Seq<Promise>, p: Prefix)
    requires
        promises_sorted(ps),
    ensures
        0 <= promise_place(ps, p) <= ps.len(),
        forall|j: int| 0 <= j < promise_place(ps, p) ==> prefix_lt(ps[j].prefix, p),
        promise_place(ps, p) < ps.len() ==> !prefix_lt(ps[promise_place(ps, p)].prefix, p),
    decreases ps.len(),
{
    if ps.len() > 0 {
        if prefix_lt(ps.last().prefix, p) {
            assert forall|j: int| 0 <= j < ps.len() implies prefix_lt(ps[j].prefix, p) by {
                if j < ps.len() - 1 {
                    assert(prefix_lt(ps[j].prefix, ps[ps.len() - 1].prefix));
                    lemma_bytes_lt_transitive(prefix_key(ps[j].prefix), prefix_key(ps.last().prefix), prefix_key(p));
                }
            }
        } else {
            let d = ps.drop_last();
            assert forall|a: int, b: int| 0 <= a < b < d.len() implies prefix_lt(d[a].prefix, d[b].prefix) by {
                assert(d[a] == ps[a] && d[b] == ps[b]);
            }
            lemma_promise_place(d, p);
            let q = promise_place(d, p);
            assert forall|j: int| 0 <= j < q implies prefix_lt(ps[j].prefix, p) by {
                assert(d[j] == ps[j]);
            }
            if q < d.len() {
                assert(d[q] == ps[q]);
            }
        }
    }
}

proof fn lemma_advertise_step_sorted(ps: Seq<Promise>, a: Announcement, now: u64)
    requires
        promises_sorted(ps),
    ensures
        advertise_step(ps, a, now) matches Some(q) ==> promises_sorted(q),
{
    if usable(a.pref64.prefix) {
        let p = promise_place(ps, a.pref64.prefix);
        lemma_promise_place(ps, a.pref64.prefix);
        let found = p < ps.len() && ps[p].prefix == a.pref64.prefix;
        if !found && a.pref64.lifetime != 0 {
            let x = a.pref64.prefix;
            let pr = Promise { prefix: x, source: a.source, until: sat_add(now, promise_ms(a.pref64.lifetime)), withdrawn: false };
            let w = ps.insert(p, pr);
            if p < ps.len() {
                lemma_bytes_lt_total(prefix_key(ps[p].prefix), prefix_key(x));
                if prefix_key(ps[p].prefix) == prefix_key(x) {
                    lemma_prefix_key_injective(ps[p].prefix, x);
                }
            }
            assert forall|i: int, j: int| 0 <= i < j < w.len() implies prefix_lt(w[i].prefix, w[j].prefix) by {
                if j < p {
                } else if j == p {
                } else if i < p {
                    if j - 1 > p {
                        assert(prefix_lt(ps[p].prefix, ps[j - 1].prefix));
                        lemma_bytes_lt_transitive(prefix_key(x), prefix_key(ps[p].prefix), prefix_key(ps[j - 1].prefix));
                    }
                    lemma_bytes_lt_transitive(prefix_key(ps[i].prefix), prefix_key(x), prefix_key(ps[j - 1].prefix));
                } else if i == p {
                    if j - 1 > p {
                        assert(prefix_lt(ps[p].prefix, ps[j - 1].prefix));
                        lemma_bytes_lt_transitive(prefix_key(x), prefix_key(ps[p].prefix), prefix_key(ps[j - 1].prefix));
                    }
                } else {
                    assert(prefix_lt(ps[i - 1].prefix, ps[j - 1].prefix));
                }
            }
        } else if found {
            let q = advertise_step(ps, a, now)->0;
            assert forall|i: int, j: int| 0 <= i < j < q.len() implies prefix_lt(q[i].prefix, q[j].prefix) by {
                assert(q[i].prefix == ps[i].prefix && q[j].prefix == ps[j].prefix);
            }
        }
    }
}

fn usable_exec(p: &Prefix) -> (r: bool)
    ensures
        r == usable(*p),
{
    let l = p.length;
    if !(l == 32 || l == 40 || l == 48 || l == 56 || l == 64 || l == 96) {
        return false;
    }
    let a = &p.address;
    let mut mapped = a[10] == 0xff && a[11] == 0xff;
    let mut i: usize = 0;
    while i < 10
        invariant
            i <= 10,
            mapped == (a@[10] == 0xff && a@[11] == 0xff && forall|k: int| 0 <= k < i ==> a@[k] == 0),
        decreases 10 - i,
    {
        if a[i] != 0 {
            mapped = false;
        }
        i = i + 1;
    }
    if mapped {
        assert(v4_mapped(p.address));
        return false;
    }
    let mut j: usize = (l / 8) as usize;
    while j < 16
        invariant
            l == p.length,
            a@ == p.address@,
            pref64_length(l),
            !v4_mapped(p.address),
            l / 8 <= j <= 16,
            forall|k: int| l / 8 <= k < j ==> a@[k] == 0,
        decreases 16 - j,
    {
        if a[j] != 0 {
            assert(p.address@[j as int] != 0);
            return false;
        }
        j = j + 1;
    }
    true
}


pub open spec fn routed(rs: Seq<Rio>, p: Prefix) -> bool {
    exists|i: int| 0 <= i < rs.len() && rs[i].prefix == p
}

proof fn lemma_withdraw_fold(d: DecisionV, ps: Seq<Promise>, enabled: bool, ready: Readiness, now: u64)
    ensures
        ({
            let r = withdraw_fold(d, ps, enabled, ready, now);
            &&& r.announcements.len() >= d.announcements.len()
            &&& forall|j: int| 0 <= j < d.announcements.len() ==> r.announcements[j] == d.announcements[j]
            &&& r.routes.len() >= d.routes.len()
            &&& forall|j: int| 0 <= j < d.routes.len() ==> r.routes[j] == d.routes[j]
            &&& forall|i: int| 0 <= i < ps.len() ==> announced(r.announcements, #[trigger] ps[i].prefix) || routed(r.routes, ps[i].prefix)
        }),
    decreases ps.len(),
{
    if ps.len() > 0 {
        let dl = ps.drop_last();
        lemma_withdraw_fold(d, dl, enabled, ready, now);
        let r0 = withdraw_fold(d, dl, enabled, ready, now);
        let r = withdraw_fold(d, ps, enabled, ready, now);
        assert(r == withdraw_step(r0, ps.last(), enabled, ready, now));
        assert(r.announcements.len() >= r0.announcements.len());
        assert forall|j: int| 0 <= j < r0.announcements.len() implies r.announcements[j] == r0.announcements[j] by {}
        assert forall|j: int| 0 <= j < r0.routes.len() implies r.routes[j] == r0.routes[j] by {}
        assert forall|i: int| 0 <= i < ps.len() implies announced(r.announcements, #[trigger] ps[i].prefix) || routed(r.routes, ps[i].prefix) by {
            if i < ps.len() - 1 {
                assert(ps[i] == dl[i]);
                if announced(r0.announcements, dl[i].prefix) {
                    let j = choose|j: int| 0 <= j < r0.announcements.len() && r0.announcements[j].pref64.prefix == dl[i].prefix;
                    assert(r.announcements[j] == r0.announcements[j]);
                } else {
                    let j = choose|j: int| 0 <= j < r0.routes.len() && r0.routes[j].prefix == dl[i].prefix;
                    assert(r.routes[j] == r0.routes[j]);
                }
            } else {
                if !announced(r0.announcements, ps.last().prefix) {
                    assert(r.routes[r.routes.len() - 1].prefix == ps.last().prefix);
                }
            }
        }
    }
}

/// Nothing promised is forgotten: after a selection, every prefix still promised is either
/// announced again or carried in a route (withdrawn, or kept for what the local translator
/// can still serve).
pub proof fn lemma_select_accounts_promises(
    s: SelectorV,
    now: u64,
    ready: Readiness,
    reach: Seq<(Link, [u8; 16])>,
    routes: Seq<(Prefix, u64)>,
)
    requires
        s.inv(),
    ensures
        ({
            let (q, d) = spec_select(s, now, ready, reach, routes);
            forall|i: int| 0 <= i < q.promised.len() ==> announced(d.announcements, #[trigger] q.promised[i].prefix)
                || routed(d.routes, q.promised[i].prefix)
        }),
{
    let (q, d0) = spec_select_active(s, now, ready, reach, routes);
    lemma_withdraw_fold(d0, q.promised, q.policy.enabled, ready, now);
}

fn reachable_exec(reach: &[(Link, [u8; 16])], l: Link, a: &[u8; 16]) -> (r: bool)
    ensures
        r == reachable(reach@, l, *a),
{
    let mut i: usize = 0;
    while i < reach.len()
        invariant
            i <= reach@.len(),
            forall|k: int| 0 <= k < i ==> reach@[k] != (l, *a),
        decreases reach@.len() - i,
    {
        if reach[i].0 == l && same_address(&reach[i].1, a) {
            assert(reach@[i as int] == (l, *a));
            return true;
        }
        i = i + 1;
    }
    false
}

fn route_exec(routes: &[(Prefix, u64)], p: &Prefix) -> (r: Option<u64>)
    ensures
        r == route_of(routes@, *p),
{
    let ghost rs = routes@;
    let mut i: usize = 0;
    while i < routes.len()
        invariant
            rs == routes@,
            i <= rs.len(),
            route_of(rs.take(i as int), *p) is None,
        decreases rs.len() - i,
    {
        proof {
            assert(rs.take(i as int + 1).drop_last() =~= rs.take(i as int));
            assert(rs.take(i as int + 1).last() == rs[i as int]);
        }
        if same_prefix(&routes[i].0, p) {
            proof {
                lemma_route_prefix(rs, i as int + 1, *p);
            }
            return Some(routes[i].1);
        }
        i = i + 1;
    }
    assert(rs.take(rs.len() as int) =~= rs);
    None
}

proof fn lemma_route_prefix(rs: Seq<(Prefix, u64)>, k: int, p: Prefix)
    requires
        0 <= k <= rs.len(),
        route_of(rs.take(k), p) is Some,
    ensures
        route_of(rs, p) == route_of(rs.take(k), p),
    decreases rs.len() - k,
{
    if k == rs.len() {
        assert(rs.take(k) =~= rs);
    } else {
        assert(rs.drop_last().take(k) =~= rs.take(k));
        lemma_route_prefix(rs.drop_last(), k, p);
    }
}

/// The live prefixes on `link` (see `live`).
fn live_exec(obs: &Vec<Observation>, link: Link, now: u64, reach: &[(Link, [u8; 16])]) -> (r: Vec<(Prefix, u64)>)
    ensures
        r@ == live(obs@, link, now, reach@),
        pairs_sorted(r@),
{
    let ghost os = obs@;
    let mut out: Vec<(Prefix, u64)> = Vec::new();
    let mut i: usize = 0;
    assert(os.take(0) =~= Seq::<Observation>::empty());
    while i < obs.len()
        invariant
            os == obs@,
            i <= os.len(),
            out@ == live(os.take(i as int), link, now, reach@),
            pairs_sorted(out@),
        decreases os.len() - i,
    {
        let ghost u = out@;
        let o = obs[i];
        proof {
            assert(os.take(i as int + 1).drop_last() =~= os.take(i as int));
            assert(os.take(i as int + 1).last() == o);
            lemma_live_step_sorted(u, o, link, now, reach@);
        }
        if o.link == link && o.until > now && reachable_exec(reach, link, &o.router) {
            proof {
                lemma_pair_place(u, o.prefix);
            }
            let kx = prefix_key_exec(&o.prefix);
            let mut k: usize = 0;
            while k < out.len() && bytes_less(prefix_key_exec(&out[k].0).as_slice(), kx.as_slice())
                invariant
                    u == out@,
                    k <= u.len(),
                    kx@ == prefix_key(o.prefix),
                    forall|j: int| 0 <= j < k ==> prefix_lt(u[j].0, o.prefix),
                decreases u.len() - k,
            {
                k = k + 1;
            }
            proof {
                let p = pair_place(u, o.prefix);
                if k < p {
                    assert(prefix_lt(u[k as int].0, o.prefix));
                }
                if p < k {
                    assert(prefix_lt(u[p].0, o.prefix));
                }
                assert(k == p);
            }
            if k < out.len() && same_prefix(&out[k].0, &o.prefix) {
                let old = out[k].1;
                out.set(k, (o.prefix, if old < o.until { o.until } else { old }));
            } else {
                out.insert(k, (o.prefix, o.until));
            }
        }
        i = i + 1;
    }
    assert(os.take(os.len() as int) =~= os);
    out
}


fn has_promise(ps: &Vec<Promise>, p: &Prefix) -> (r: bool)
    ensures
        r == promised_has(ps@, *p),
{
    let mut i: usize = 0;
    while i < ps.len()
        invariant
            i <= ps@.len(),
            forall|k: int| 0 <= k < i ==> ps@[k].prefix != *p,
        decreases ps@.len() - i,
    {
        if same_prefix(&ps[i].prefix, p) {
            return true;
        }
        i = i + 1;
    }
    false
}

fn has_announcement(anns: &Vec<Announcement>, p: &Prefix) -> (r: bool)
    ensures
        r == announced(anns@, *p),
{
    let mut i: usize = 0;
    while i < anns.len()
        invariant
            i <= anns@.len(),
            forall|k: int| 0 <= k < i ==> anns@[k].pref64.prefix != *p,
        decreases anns@.len() - i,
    {
        if same_prefix(&anns[i].pref64.prefix, p) {
            return true;
        }
        i = i + 1;
    }
    false
}

fn min_u64(a: u64, b: u64) -> (r: u64)
    ensures
        r == min64(a, b),
{
    if a < b { a } else { b }
}

/// The announcements the candidates give (see `cand_fold`).
fn cand_exec(
    cs: &Vec<(Prefix, u64, Source)>,
    slots: usize,
    promised: &Vec<Promise>,
    routes: &[(Prefix, u64)],
    stub: u64,
    cap: u64,
    now: u64,
) -> (r: Vec<Announcement>)
    ensures
        r@ == cand_fold(cs@, slots as int, promised@, routes@, stub, cap, now).0,
{
    let ghost v = cs@;
    let mut out: Vec<Announcement> = Vec::new();
    let mut free = slots;
    let mut i: usize = 0;
    assert(v.take(0) =~= Seq::<(Prefix, u64, Source)>::empty());
    while i < cs.len()
        invariant
            v == cs@,
            i <= v.len(),
            (out@, free as int) == cand_fold(v.take(i as int), slots as int, promised@, routes@, stub, cap, now),
        decreases v.len() - i,
    {
        proof {
            assert(v.take(i as int + 1).drop_last() =~= v.take(i as int));
            assert(v.take(i as int + 1).last() == v[i as int]);
        }
        let c = cs[i];
        if out.len() < 8 {
            match route_exec(routes, &c.0) {
                None => {},
                Some(r) => {
                    let lt = remaining_exec(min_u64(min_u64(min_u64(c.1, r), stub), cap), now);
                    if lt != 0 {
                        proof { lemma_remaining_bound_any(); }
                        let a = Announcement { pref64: Pref64 { prefix: c.0, lifetime: lt as u16 }, source: c.2 };
                        if !has_promise(promised, &c.0) {
                            if free > 0 {
                                out.push(a);
                                free = free - 1;
                            }
                        } else {
                            out.push(a);
                        }
                    }
                },
            }
        }
        i = i + 1;
    }
    assert(v.take(v.len() as int) =~= v);
    out
}

impl Selector {
    pub open spec fn wf(&self) -> bool {
        self@.inv()
    }

    /// Drops what expired and releases the hold once no stub PREF64 is seen (see `prepared`).
    fn prepare(&mut self, now: u64)
        requires
            old(self).wf(),
        ensures
            final(self).wf(),
            final(self)@ == prepared(old(self)@, now),
    {
        let ghost os = self@.observations;
        let mut obs: Vec<Observation> = Vec::new();
        let mut i: usize = 0;
        assert(os.take(0) =~= Seq::<Observation>::empty());
        while i < self.observations.len()
            invariant
                os == self@.observations,
                i <= os.len(),
                obs@ == alive_obs(os.take(i as int), now),
            decreases os.len() - i,
        {
            proof {
                assert(os.take(i as int + 1).drop_last() =~= os.take(i as int));
                assert(os.take(i as int + 1).last() == os[i as int]);
            }
            if self.observations[i].until > now {
                obs.push(self.observations[i]);
            }
            i = i + 1;
        }
        assert(os.take(os.len() as int) =~= os);
        let ghost ps = self@.promised;
        let mut kept: Vec<Promise> = Vec::new();
        let mut j: usize = 0;
        assert(ps.take(0) =~= Seq::<Promise>::empty());
        while j < self.promised.len()
            invariant
                ps == self@.promised,
                self@.inv(),
                j <= ps.len(),
                kept@ == alive_promises(ps.take(j as int), now),
                kept@.len() <= j,
                promises_sorted(kept@),
                forall|a: int| 0 <= a < kept@.len() ==> exists|k: int| 0 <= k < j && #[trigger] kept@[a] == ps[k],
            decreases ps.len() - j,
        {
            proof {
                assert(ps.take(j as int + 1).drop_last() =~= ps.take(j as int));
                assert(ps.take(j as int + 1).last() == ps[j as int]);
            }
            let pr = self.promised[j];
            if pr.until > now {
                proof {
                    assert forall|a: int| 0 <= a < kept@.len() implies prefix_lt(kept@[a].prefix, pr.prefix) by {
                        let k = choose|k: int| 0 <= k < j && #[trigger] kept@[a] == ps[k];
                    }
                }
                kept.push(pr);
                proof {
                    assert(kept@[kept@.len() - 1] == ps[j as int]);
                }
            }
            j = j + 1;
        }
        assert(ps.take(ps.len() as int) =~= ps);
        let mut seen = false;
        let mut k: usize = 0;
        while k < obs.len()
            invariant
                k <= obs@.len(),
                seen == exists|m: int| 0 <= m < k && obs@[m].link == Link::Stub,
            decreases obs@.len() - k,
        {
            if obs[k].link == Link::Stub {
                seen = true;
            }
            k = k + 1;
        }
        self.observations = obs;
        self.promised = kept;
        if !seen {
            self.suppressed = false;
        }
    }

    /// Decides what to announce before withdrawals (see `spec_select_active`).
    fn select_active(&mut self, now: u64, ready: Readiness, reach: &[(Link, [u8; 16])], routes: &[(Prefix, u64)]) -> (d: Decision)
        requires
            old(self).wf(),
        ensures
            final(self).wf(),
            (final(self)@, d@) == spec_select_active(old(self)@, now, ready, reach@, routes@),
    {
        self.prepare(now);
        let ghost q = self@;
        if !self.policy.enabled {
            return Decision { mode: Mode::Disabled, announcements: Vec::new(), routes: Vec::new(), reason: Reason::Disabled };
        }
        let st = match ready.stub {
            Some(t) => t,
            None => {
                return Decision { mode: Mode::NoService, announcements: Vec::new(), routes: Vec::new(), reason: Reason::NotReady };
            },
        };
        if st <= now {
            return Decision { mode: Mode::NoService, announcements: Vec::new(), routes: Vec::new(), reason: Reason::NotReady };
        }
        if self.suppressed {
            return Decision { mode: Mode::Peer, announcements: Vec::new(), routes: Vec::new(), reason: Reason::Suppressed };
        }
        let pd_live = match ready.pd {
            Some(t) => t > now,
            None => false,
        };
        let mut infra: Vec<Announcement> = Vec::new();
        if pd_live || self.policy.allow_without_pd {
            let cap = if self.policy.allow_without_pd {
                u64::MAX
            } else {
                match ready.pd {
                    Some(t) => t,
                    None => u64::MAX,
                }
            };
            let cs: Vec<(Prefix, u64, Source)> = match self.policy.infrastructure {
                Some(p) => {
                    let v = vec![(p, u64::MAX, Source::Configured)];
                    assert(v@ =~= seq![(p, u64::MAX, Source::Configured)]);
                    v
                },
                None => {
                    let l = live_exec(&self.observations, Link::Ail, now, reach);
                    let mut v: Vec<(Prefix, u64, Source)> = Vec::new();
                    let mut i: usize = 0;
                    while i < l.len()
                        invariant
                            i <= l@.len(),
                            v@ == l@.take(i as int).map_values(|e: (Prefix, u64)| (e.0, e.1, Source::Infrastructure)),
                        decreases l@.len() - i,
                    {
                        v.push((l[i].0, l[i].1, Source::Infrastructure));
                        assert(l@.take(i as int + 1).map_values(|e: (Prefix, u64)| (e.0, e.1, Source::Infrastructure))
                            =~= l@.take(i as int).map_values(|e: (Prefix, u64)| (e.0, e.1, Source::Infrastructure)).push(
                            (l@[i as int].0, l@[i as int].1, Source::Infrastructure)));
                        i = i + 1;
                    }
                    assert(l@.take(l@.len() as int) =~= l@);
                    v
                },
            };
            assert(cs@ == candidates(q, now, reach@));
            infra = cand_exec(&cs, 8 - self.promised.len(), &self.promised, routes, st, cap, now);
        }
        if infra.len() > 0 {
            let mut rs: Vec<Rio> = Vec::new();
            let mut i: usize = 0;
            while i < infra.len()
                invariant
                    i <= infra@.len(),
                    rs@ == routes_for(infra@.take(i as int)),
                decreases infra@.len() - i,
            {
                rs.push(Rio { prefix: infra[i].pref64.prefix, preference: Preference::Medium, lifetime: infra[i].pref64.lifetime as u32 });
                assert(routes_for(infra@.take(i as int + 1)) =~= routes_for(infra@.take(i as int)).push(
                    Rio { prefix: infra@[i as int].pref64.prefix, preference: Preference::Medium, lifetime: infra@[i as int].pref64.lifetime as u32 }));
                i = i + 1;
            }
            assert(infra@.take(infra@.len() as int) =~= infra@);
            return Decision { mode: Mode::Infrastructure, announcements: infra, routes: rs, reason: Reason::Infrastructure };
        }
        assert(infra@ =~= Seq::<Announcement>::empty());
        let mut peer = false;
        let mut k: usize = 0;
        while k < self.observations.len()
            invariant
                q == self@,
                k <= q.observations.len(),
                peer == exists|m: int| 0 <= m < k && q.observations[m].link == Link::Stub && q.observations[m].until > now
                    && reachable(reach@, Link::Stub, q.observations[m].router),
            decreases q.observations.len() - k,
        {
            let o = self.observations[k];
            if o.link == Link::Stub && o.until > now && reachable_exec(reach, Link::Stub, &o.router) {
                peer = true;
            }
            k = k + 1;
        }
        let mut active = false;
        let mut m: usize = 0;
        while m < self.promised.len()
            invariant
                q == self@,
                m <= q.promised.len(),
                active == exists|x: int| 0 <= x < m && q.promised[x].prefix == q.local && q.promised[x].source == Source::Local
                    && q.promised[x].until > now && !q.promised[x].withdrawn,
            decreases q.promised.len() - m,
        {
            let pr = self.promised[m];
            if same_prefix(&pr.prefix, &self.local) && pr.source == Source::Local && pr.until > now && !pr.withdrawn {
                active = true;
            }
            m = m + 1;
        }
        if peer && !active {
            return Decision { mode: Mode::Peer, announcements: Vec::new(), routes: Vec::new(), reason: Reason::PeerProvides };
        }
        if let Some(v4) = ready.ipv4 {
            if ready.translator && v4 > now {
                let later = if now > u64::MAX - 1800000 { u64::MAX } else { now + 1800000 };
                let lt = remaining_exec(min_u64(min_u64(v4, st), later), now);
                if lt > 0 && (has_promise(&self.promised, &self.local) || self.promised.len() < 8) {
                    proof { lemma_remaining_bound_any(); }
                    let a = Announcement { pref64: Pref64 { prefix: self.local, lifetime: lt as u16 }, source: Source::Local };
                    let anns = vec![a];
                    let rs = vec![Rio { prefix: self.local, preference: Preference::Medium, lifetime: lt }];
                    assert(anns@ =~= seq![a]);
                    assert(rs@ =~= seq![Rio { prefix: self.local, preference: Preference::Medium, lifetime: lt }]);
                    assert(later == sat_add(now, 1800000));
                    return Decision { mode: Mode::Local, announcements: anns, routes: rs, reason: Reason::LocalReady };
                }
            }
        }
        Decision { mode: Mode::NoService, announcements: Vec::new(), routes: Vec::new(), reason: Reason::NoPath }
    }

    /// What to announce and route at `now` (see `spec_select`): reachability of routers and
    /// the return routes of prefixes are the caller's, as lists of reachable routers and of
    /// route ends.
    pub fn select(&mut self, now: u64, ready: Readiness, reach: &[(Link, [u8; 16])], routes: &[(Prefix, u64)]) -> (d: Decision)
        requires
            old(self).wf(),
        ensures
            final(self).wf(),
            (final(self)@, d@) == spec_select(old(self)@, now, ready, reach@, routes@),
    {
        let mut d = self.select_active(now, ready, reach, routes);
        let ghost d0 = d@;
        let ghost ps = self@.promised;
        let mut i: usize = 0;
        assert(ps.take(0) =~= Seq::<Promise>::empty());
        while i < self.promised.len()
            invariant
                ps == self@.promised,
                i <= ps.len(),
                d@ == withdraw_fold(d0, ps.take(i as int), self@.policy.enabled, ready, now),
            decreases ps.len() - i,
        {
            proof {
                assert(ps.take(i as int + 1).drop_last() =~= ps.take(i as int));
                assert(ps.take(i as int + 1).last() == ps[i as int]);
            }
            let pr = self.promised[i];
            if !has_announcement(&d.announcements, &pr.prefix) {
                if !pr.withdrawn {
                    d.announcements.push(Announcement { pref64: Pref64 { prefix: pr.prefix, lifetime: 0 }, source: pr.source });
                }
                let life: u64 = if self.policy.enabled && pr.source == Source::Local && ready.translator {
                    let a = min_u64(min_u64(pr.until, match ready.ipv4 { Some(v) => v, None => now }), match ready.stub { Some(v) => v, None => now });
                    (if a > now { a - now } else { 0 }) / 1000
                } else {
                    0
                };
                d.routes.push(Rio { prefix: pr.prefix, preference: Preference::Medium, lifetime: if life < 0xffff_ffff { life as u32 } else { 0xffff_ffff } });
            }
            i = i + 1;
        }
        assert(ps.take(ps.len() as int) =~= ps);
        d
    }
}


/// The local /96 of a site /48: the site prefix with `ffff` in its fourth group.
pub open spec fn local_of(l: Prefix, site: Prefix) -> bool {
    &&& l.length == 96
    &&& forall|i: int| 0 <= i < 16 ==> l.address@[i] == (if i == 6 || i == 7 { 0xffu8 } else { site.address@[i] })
}

/// A site prefix a selector can start from: a unique local /48 with no host bits.
pub open spec fn site_ok(site: Prefix) -> bool {
    &&& site.length == 48
    &&& site.address@[0] & 0xfe == 0xfc
    &&& forall|i: int| 6 <= i < 16 ==> site.address@[i] == 0
}

/// The default policy: enabled, no configured prefix, and prefix delegation required.
pub open spec fn default_policy() -> Policy {
    Policy { enabled: true, infrastructure: None, allow_without_pd: false }
}

impl Selector {
    /// A selector for the site /48 (see `site_ok`), with the default policy and nothing seen
    /// or promised.
    pub fn new(site: Prefix) -> (r: Result<Selector, Error>)
        ensures
            r is Ok <==> site_ok(site),
            r matches Err(e) ==> e == Error::Invalid,
            r matches Ok(s) ==> s.wf() && s@.policy == default_policy() && s@.observations.len() == 0
                && s@.promised.len() == 0 && !s@.suppressed && local_of(s@.local, site),
    {
        if site.length != 48 || site.address[0] & 0xfe != 0xfc {
            return Err(Error::Invalid);
        }
        let mut i: usize = 6;
        while i < 16
            invariant
                6 <= i <= 16,
                forall|k: int| 6 <= k < i ==> site.address@[k] == 0,
            decreases 16 - i,
        {
            if site.address[i] != 0 {
                return Err(Error::Invalid);
            }
            i = i + 1;
        }
        let mut address = site.address;
        address[6] = 0xff;
        address[7] = 0xff;
        let s = Selector {
            policy: Policy { enabled: true, infrastructure: None, allow_without_pd: false },
            observations: Vec::new(),
            local: Prefix { address, length: 96 },
            promised: Vec::new(),
            suppressed: false,
        };
        assert(s@.promised.len() == 0);
        Ok(s)
    }

    /// The local /96.
    pub fn local_prefix(&self) -> (r: Prefix)
        ensures
            r == self@.local,
    {
        self.local
    }

    /// The policy in force.
    pub fn policy(&self) -> (r: Policy)
        ensures
            r == self@.policy,
    {
        self.policy
    }

    /// Takes a new policy; a configured prefix must be usable. A changed policy forgets the
    /// observations and the hold on announcements.
    pub fn configure(&mut self, policy: Policy, now: u64) -> (r: Result<(), Error>)
        requires
            old(self).wf(),
        ensures
            final(self).wf(),
            r is Err <==> (policy.infrastructure matches Some(p) && !usable(p)),
            r matches Err(e) ==> e == Error::Invalid && final(self)@ == old(self)@,
            r is Ok ==> final(self)@ == (if old(self)@.policy == policy {
                SelectorV { policy, ..old(self)@ }
            } else {
                SelectorV { policy, observations: Seq::empty(), suppressed: false, ..old(self)@ }
            }),
    {
        if let Some(p) = &policy.infrastructure {
            if !usable_exec(p) {
                return Err(Error::Invalid);
            }
        }
        let same_infra = match (&self.policy.infrastructure, &policy.infrastructure) {
            (Some(a), Some(b)) => same_prefix(a, b),
            (None, None) => true,
            _ => false,
        };
        let same = self.policy.enabled == policy.enabled && self.policy.allow_without_pd == policy.allow_without_pd && same_infra;
        if !same {
            self.observations = Vec::new();
            self.suppressed = false;
        }
        self.policy = policy;
        proof {
            assert(self@.observations =~= if same { old(self)@.observations } else { Seq::empty() });
        }
        Ok(())
    }

    /// Takes the PREF64 options of a router advertisement from `router` on `link` (see
    /// `observe_step`); ignored while disabled, and refused with nothing changed when a
    /// link would hold more than 32 observations.
    pub fn observe(&mut self, link: Link, router: [u8; 16], options: &[Pref64], now: u64) -> (r: Result<(), Error>)
        requires
            old(self).wf(),
        ensures
            final(self).wf(),
            !old(self)@.policy.enabled ==> r is Ok && final(self)@ == old(self)@,
            old(self)@.policy.enabled ==> {
                let next = observe_fold(alive_obs(old(self)@.observations, now), link, router, options@, now);
                if link_count(next, link) > 32 {
                    r == Err::<(), Error>(Error::Capacity) && final(self)@ == old(self)@
                } else {
                    r is Ok && final(self)@ == (SelectorV { observations: next, ..old(self)@ })
                }
            },
    {
        if !self.policy.enabled {
            return Ok(());
        }
        let ghost os = self@.observations;
        let mut next: Vec<Observation> = Vec::new();
        let mut i: usize = 0;
        assert(os.take(0) =~= Seq::<Observation>::empty());
        while i < self.observations.len()
            invariant
                os == self@.observations,
                i <= os.len(),
                next@ == alive_obs(os.take(i as int), now),
            decreases os.len() - i,
        {
            proof {
                assert(os.take(i as int + 1).drop_last() =~= os.take(i as int));
                assert(os.take(i as int + 1).last() == os[i as int]);
            }
            if self.observations[i].until > now {
                next.push(self.observations[i]);
            }
            i = i + 1;
        }
        assert(os.take(os.len() as int) =~= os);
        let ghost start = next@;
        let ghost ov = options@;
        let mut j: usize = 0;
        assert(ov.take(0) =~= Seq::<Pref64>::empty());
        while j < options.len()
            invariant
                ov == options@,
                j <= ov.len(),
                next@ == observe_fold(start, link, router, ov.take(j as int), now),
            decreases ov.len() - j,
        {
            proof {
                assert(ov.take(j as int + 1).drop_last() =~= ov.take(j as int));
                assert(ov.take(j as int + 1).last() == ov[j as int]);
            }
            let o = options[j];
            if usable_exec(&o.prefix) {
                let ghost before = next@;
                let mut rest: Vec<Observation> = Vec::new();
                let mut k: usize = 0;
                assert(before.take(0) =~= Seq::<Observation>::empty());
                while k < next.len()
                    invariant
                        before == next@,
                        k <= before.len(),
                        rest@ == drop_key(before.take(k as int), link, router, o.prefix),
                    decreases before.len() - k,
                {
                    proof {
                        assert(before.take(k as int + 1).drop_last() =~= before.take(k as int));
                        assert(before.take(k as int + 1).last() == before[k as int]);
                    }
                    let e = next[k];
                    if !(e.link == link && same_address(&e.router, &router) && same_prefix(&e.prefix, &o.prefix)) {
                        rest.push(e);
                    }
                    k = k + 1;
                }
                assert(before.take(before.len() as int) =~= before);
                if o.lifetime != 0 {
                    let ms: u64 = o.lifetime as u64 * 1000;
                    let until = if now > u64::MAX - ms { u64::MAX } else { now + ms };
                    rest.push(Observation { link, router, prefix: o.prefix, until });
                }
                next = rest;
            }
            j = j + 1;
        }
        assert(ov.take(ov.len() as int) =~= ov);
        let ghost nv = next@;
        let mut count: usize = 0;
        let mut m: usize = 0;
        assert(nv.take(0) =~= Seq::<Observation>::empty());
        while m < next.len()
            invariant
                nv == next@,
                m <= nv.len(),
                count == link_count(nv.take(m as int), link),
                count <= m,
            decreases nv.len() - m,
        {
            proof {
                assert(nv.take(m as int + 1).drop_last() =~= nv.take(m as int));
                assert(nv.take(m as int + 1).last() == nv[m as int]);
            }
            if next[m].link == link {
                count = count + 1;
            }
            m = m + 1;
        }
        assert(nv.take(nv.len() as int) =~= nv);
        if count > 32 {
            return Err(Error::Capacity);
        }
        self.observations = next;
        Ok(())
    }

    /// Forgets what was seen on `link`.
    pub fn link_lost(&mut self, link: Link)
        requires
            old(self).wf(),
        ensures
            final(self).wf(),
            final(self)@ == (SelectorV { observations: drop_link(old(self)@.observations, link), ..old(self)@ }),
    {
        let ghost os = self@.observations;
        let mut next: Vec<Observation> = Vec::new();
        let mut i: usize = 0;
        assert(os.take(0) =~= Seq::<Observation>::empty());
        while i < self.observations.len()
            invariant
                os == self@.observations,
                i <= os.len(),
                next@ == drop_link(os.take(i as int), link),
            decreases os.len() - i,
        {
            proof {
                assert(os.take(i as int + 1).drop_last() =~= os.take(i as int));
                assert(os.take(i as int + 1).last() == os[i as int]);
            }
            if self.observations[i].link != link {
                next.push(self.observations[i]);
            }
            i = i + 1;
        }
        assert(os.take(os.len() as int) =~= os);
        self.observations = next;
    }

    /// When an observation or a promise next ends.
    pub fn next_deadline(&self) -> (r: Option<u64>)
        ensures
            r == promise_min(self@.promised, obs_min(self@.observations, None)),
    {
        let ghost os = self@.observations;
        let mut m: Option<u64> = None;
        let mut i: usize = 0;
        while i < self.observations.len()
            invariant
                os == self@.observations,
                i <= os.len(),
                m == obs_min(os.take(i as int), None),
            decreases os.len() - i,
        {
            proof {
                assert(os.take(i as int + 1).drop_last() =~= os.take(i as int));
                assert(os.take(i as int + 1).last() == os[i as int]);
            }
            let u = self.observations[i].until;
            m = Some(match m { Some(x) => if x < u { x } else { u }, None => u });
            i = i + 1;
        }
        assert(os.take(os.len() as int) =~= os);
        let ghost om = m;
        let ghost ps = self@.promised;
        let mut j: usize = 0;
        while j < self.promised.len()
            invariant
                ps == self@.promised,
                j <= ps.len(),
                m == promise_min(ps.take(j as int), om),
            decreases ps.len() - j,
        {
            proof {
                assert(ps.take(j as int + 1).drop_last() =~= ps.take(j as int));
                assert(ps.take(j as int + 1).last() == ps[j as int]);
            }
            let u = self.promised[j].until;
            m = Some(match m { Some(x) => if x < u { x } else { u }, None => u });
            j = j + 1;
        }
        assert(ps.take(ps.len() as int) =~= ps);
        m
    }

    /// An infrastructure announcement could not be admitted: while a stub PREF64 is seen,
    /// infrastructure announcements are held back.
    pub fn announcement_failed(&mut self, mode: Mode, now: u64)
        requires
            old(self).wf(),
        ensures
            final(self).wf(),
            final(self)@ == (if mode == Mode::Infrastructure && exists|i: int|
                0 <= i < old(self)@.observations.len() && old(self)@.observations[i].link == Link::Stub
                    && old(self)@.observations[i].until > now {
                SelectorV { suppressed: true, ..old(self)@ }
            } else {
                old(self)@
            }),
    {
        if mode != Mode::Infrastructure {
            return;
        }
        let mut i: usize = 0;
        while i < self.observations.len()
            invariant
                self@ == old(self)@,
                old(self)@.inv(),
                mode == Mode::Infrastructure,
                i <= self@.observations.len(),
                forall|k: int| 0 <= k < i ==> !(self@.observations[k].link == Link::Stub && self@.observations[k].until > now),
            decreases self@.observations.len() - i,
        {
            if self.observations[i].link == Link::Stub && self.observations[i].until > now {
                assert(old(self)@.observations[i as int].link == Link::Stub && old(self)@.observations[i as int].until > now);
                self.suppressed = true;
                return;
            }
            i = i + 1;
        }
    }

    /// Records the announcements that went out (see `advertise_step`): at most eight at once,
    /// each usable, and at most eight promises kept; refused with nothing changed otherwise.
    pub fn advertised(&mut self, announcements: &[Announcement], now: u64) -> (r: Result<(), Error>)
        requires
            old(self).wf(),
        ensures
            final(self).wf(),
            announcements@.len() > 8 ==> r == Err::<(), Error>(Error::Invalid) && final(self)@ == old(self)@,
            announcements@.len() <= 8 ==> match advertise_fold(alive_promises(old(self)@.promised, now), announcements@, now) {
                None => r == Err::<(), Error>(Error::Invalid) && final(self)@ == old(self)@,
                Some(q) => if q.len() > 8 {
                    r == Err::<(), Error>(Error::Capacity) && final(self)@ == old(self)@
                } else {
                    r is Ok && final(self)@ == (SelectorV { promised: q, ..old(self)@ })
                },
            },
    {
        if announcements.len() > 8 {
            return Err(Error::Invalid);
        }
        let ghost ps = self@.promised;
        let mut kept: Vec<Promise> = Vec::new();
        let mut j: usize = 0;
        assert(ps.take(0) =~= Seq::<Promise>::empty());
        while j < self.promised.len()
            invariant
                self@ == old(self)@,
                ps == self@.promised,
                self@.inv(),
                j <= ps.len(),
                kept@ == alive_promises(ps.take(j as int), now),
                kept@.len() <= j,
                promises_sorted(kept@),
                forall|a: int| 0 <= a < kept@.len() ==> exists|k: int| 0 <= k < j && #[trigger] kept@[a] == ps[k],
            decreases ps.len() - j,
        {
            proof {
                assert(ps.take(j as int + 1).drop_last() =~= ps.take(j as int));
                assert(ps.take(j as int + 1).last() == ps[j as int]);
            }
            let pr = self.promised[j];
            if pr.until > now {
                proof {
                    assert forall|a: int| 0 <= a < kept@.len() implies prefix_lt(kept@[a].prefix, pr.prefix) by {
                        let k = choose|k: int| 0 <= k < j && #[trigger] kept@[a] == ps[k];
                    }
                }
                kept.push(pr);
                proof {
                    assert(kept@[kept@.len() - 1] == ps[j as int]);
                }
            }
            j = j + 1;
        }
        assert(ps.take(ps.len() as int) =~= ps);
        let ghost start = kept@;
        let ghost av = announcements@;
        let mut i: usize = 0;
        assert(av.take(0) =~= Seq::<Announcement>::empty());
        while i < announcements.len()
            invariant
                self@ == old(self)@,
                old(self)@.inv(),
                av == announcements@,
                av.len() <= 8,
                i <= av.len(),
                start == alive_promises(old(self)@.promised, now),
                advertise_fold(start, av.take(i as int), now) == Some(kept@),
                promises_sorted(kept@),
                kept@.len() <= 8 + i,
            decreases av.len() - i,
        {
            proof {
                assert(av.take(i as int + 1).drop_last() =~= av.take(i as int));
                assert(av.take(i as int + 1).last() == av[i as int]);
            }
            let a = announcements[i];
            if !usable_exec(&a.pref64.prefix) {
                proof {
                    lemma_advertise_none(start, av, i as int + 1, now);
                }
                return Err(Error::Invalid);
            }
            proof {
                lemma_promise_place(kept@, a.pref64.prefix);
                lemma_advertise_step_sorted(kept@, a, now);
            }
            let ghost u = kept@;
            let kx = prefix_key_exec(&a.pref64.prefix);
            let mut k: usize = 0;
            while k < kept.len() && bytes_less(prefix_key_exec(&kept[k].prefix).as_slice(), kx.as_slice())
                invariant
                    u == kept@,
                    k <= u.len(),
                    kx@ == prefix_key(a.pref64.prefix),
                    forall|m: int| 0 <= m < k ==> prefix_lt(u[m].prefix, a.pref64.prefix),
                decreases u.len() - k,
            {
                k = k + 1;
            }
            proof {
                let p = promise_place(u, a.pref64.prefix);
                if k < p {
                    assert(prefix_lt(u[k as int].prefix, a.pref64.prefix));
                }
                if p < k {
                    assert(prefix_lt(u[p].prefix, a.pref64.prefix));
                }
                assert(k == p);
            }
            let found = k < kept.len() && same_prefix(&kept[k].prefix, &a.pref64.prefix);
            if a.pref64.lifetime == 0 {
                if found {
                    let old_p = kept[k];
                    kept.set(k, Promise { withdrawn: true, ..old_p });
                }
            } else {
                let l = if a.pref64.lifetime < 65528 { a.pref64.lifetime } else { 65528u16 };
                let ms: u64 = ((l & !7u16) as u64) * 1000;
                let until = if now > u64::MAX - ms { u64::MAX } else { now + ms };
                let pr = Promise { prefix: a.pref64.prefix, source: a.source, until, withdrawn: false };
                if found {
                    kept.set(k, pr);
                } else {
                    kept.insert(k, pr);
                }
            }
            i = i + 1;
        }
        assert(av.take(av.len() as int) =~= av);
        if kept.len() > 8 {
            return Err(Error::Capacity);
        }
        self.promised = kept;
        Ok(())
    }
}

proof fn lemma_advertise_none(ps: Seq<Promise>, anns: Seq<Announcement>, k: int, now: u64)
    requires
        0 <= k <= anns.len(),
        advertise_fold(ps, anns.take(k), now) is None,
    ensures
        advertise_fold(ps, anns, now) is None,
    decreases anns.len() - k,
{
    if k == anns.len() {
        assert(anns.take(k) =~= anns);
    } else {
        assert(anns.drop_last().take(k) =~= anns.take(k));
        lemma_advertise_none(ps, anns.drop_last(), k, now);
    }
}

} // verus!
