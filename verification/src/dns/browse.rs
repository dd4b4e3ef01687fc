//! Browsing-domain enumeration: each resolver origin is asked, for each query context, which
//! browsing domains it recommends; the answers are kept as evidence until they expire.
use crate::dns::name::{canonical_wire, valid_labels, Name};
use crate::dns::privacy::policy::{same_socket, sock_key, sock_key_exec};
use crate::dns::privacy::{origin_usable, ip_multicast, ip_unspecified, SocketAddress};
use crate::dns::wire::{Message, MessageV, Question, QuestionV, Rdata, RdataV, Record, RecordV};
use crate::dns::name::lower_label;
use crate::dns::privacy::resolver_arpa;
use crate::mdns::advertise::{local_label, spec_within, within};
use crate::error::Error;
use crate::mdns::cache::same_bytes;
use crate::mdns::cache::store::{bytes_less, bytes_lt, lemma_bytes_lt_irreflexive, lemma_bytes_lt_total, lemma_bytes_lt_transitive};
use vstd::prelude::*;

verus! {

/// Most resolver origins browsed.
pub const MAX_ORIGINS: usize = 8;

/// Most query contexts browsed.
pub const MAX_CONTEXTS: usize = 64;

/// Most probes in flight.
pub const MAX_ACTIVE: usize = 8;

/// How long a probe may wait for its answer, in milliseconds.
pub const PROBE_MS: u64 = 3000;

/// How often a full sweep starts, in milliseconds.
pub const SWEEP_MS: u64 = 30000;

/// A question sent to an origin, and until when its answer is taken.
#[derive(Debug)]
pub struct Probe {
    pub id: u64,
    pub origin: SocketAddress,
    pub question: Question,
    pub until: u64,
}

pub struct ProbeV {
    pub id: u64,
    pub origin: SocketAddress,
    pub question: QuestionV,
    pub until: u64,
}

impl View for Probe {
    type V = ProbeV;

    open spec fn view(&self) -> ProbeV {
        ProbeV { id: self.id, origin: self.origin, question: self.question@, until: self.until }
    }
}

impl Clone for Probe {
    fn clone(&self) -> (r: Probe)
        ensures
            r@ == self@,
    {
        Probe {
            id: self.id,
            origin: self.origin,
            question: Question { name: self.question.name.clone(), kind: self.question.kind, class: self.question.class },
            until: self.until,
        }
    }
}

pub open spec fn probes_view(v: Seq<Probe>) -> Seq<ProbeV> {
    v.map_values(|p: Probe| p@)
}

/// A browsing domain `target` that `origin` named under `owner`, kept until `until`.
struct Evidence {
    origin: SocketAddress,
    owner: Name,
    target: Name,
    until: u64,
}

pub struct EvidenceV {
    pub origin: SocketAddress,
    pub owner: Seq<Seq<u8>>,
    pub target: Seq<Seq<u8>>,
    pub until: u64,
}

impl View for Evidence {
    type V = EvidenceV;

    closed spec fn view(&self) -> EvidenceV {
        EvidenceV { origin: self.origin, owner: self.owner@, target: self.target@, until: self.until }
    }
}

pub open spec fn evidence_view(v: Seq<Evidence>) -> Seq<EvidenceV> {
    v.map_values(|e: Evidence| e@)
}

/// The browser: origins ordered by address, contexts by their lowercased wire form, the
/// probes in flight, the evidence, the last probe identifier, the sweep position, and when
/// the next sweep may start.
pub struct Browser {
    origins: Vec<SocketAddress>,
    contexts: Vec<Name>,
    active: Vec<Probe>,
    evidence: Vec<Evidence>,
    sequence: u64,
    cursor: usize,
    next: u64,
}

pub struct BrowserV {
    pub origins: Seq<SocketAddress>,
    pub contexts: Seq<Seq<Seq<u8>>>,
    pub active: Seq<ProbeV>,
    pub evidence: Seq<EvidenceV>,
    pub sequence: u64,
    pub cursor: int,
    pub next: u64,
}

impl View for Browser {
    type V = BrowserV;

    closed spec fn view(&self) -> BrowserV {
        BrowserV {
            origins: self.origins@,
            contexts: self.contexts@.map_values(|n: Name| n@),
            active: probes_view(self.active@),
            evidence: evidence_view(self.evidence@),
            sequence: self.sequence,
            cursor: self.cursor as int,
            next: self.next,
        }
    }
}

pub open spec fn sat_add(a: u64, b: u64) -> u64 {
    if a + b > u64::MAX {
        u64::MAX
    } else {
        (a + b) as u64
    }
}

fn add_sat(a: u64, b: u64) -> (r: u64)
    ensures
        r == sat_add(a, b),
{
    if a > u64::MAX - b {
        u64::MAX
    } else {
        a + b
    }
}

/// The owner name asked under a context: `lb` (legacy) or `b`, then `_dns-sd._udp`, then
/// the context.
pub open spec fn owner_labels(context: Seq<Seq<u8>>, legacy: bool) -> Seq<Seq<u8>> {
    seq![if legacy { seq![108u8, 98] } else { seq![98u8] }, seq![95u8, 100, 110, 115, 45, 115, 100], seq![95u8, 117, 100, 112]]
        + context
}

/// A context that can be browsed: not the root, and both owner names fit.
#[verifier::opaque]
pub open spec fn context_ok(c: Seq<Seq<u8>>) -> bool {
    &&& c.len() > 0
    &&& valid_labels(owner_labels(c, true))
    &&& valid_labels(owner_labels(c, false))
}

/// An origin that can be asked: a port, and an address that is neither unspecified nor
/// multicast.
pub open spec fn usable(o: SocketAddress) -> bool {
    o.port != 0 && !ip_unspecified(o.ip) && !ip_multicast(o.ip)
}

/// The key names are ordered and compared by: the lowercased wire form.
#[verifier::opaque]
pub open spec fn canon_key(a: Seq<Seq<u8>>) -> Seq<u8> {
    canonical_wire(a)
}

pub open spec fn canon_lt(a: Seq<Seq<u8>>, b: Seq<Seq<u8>>) -> bool {
    bytes_lt(canon_key(a), canon_key(b))
}

pub open spec fn same_name(a: Seq<Seq<u8>>, b: Seq<Seq<u8>>) -> bool {
    canon_key(a) == canon_key(b)
}

impl BrowserV {
    /// Origins ascending and usable, contexts ascending and browsable, the bounds on each
    /// table, and the sweep position within the sweep.
    pub open spec fn inv(self) -> bool {
        &&& self.origins.len() <= MAX_ORIGINS
        &&& forall|i: int, j: int| 0 <= i < j < self.origins.len() ==> bytes_lt(sock_key(self.origins[i]), sock_key(self.origins[j]))
        &&& forall|i: int| 0 <= i < self.origins.len() ==> usable(#[trigger] self.origins[i])
        &&& self.contexts.len() <= MAX_CONTEXTS
        &&& forall|i: int, j: int| 0 <= i < j < self.contexts.len() ==> canon_lt(self.contexts[i], self.contexts[j])
        &&& forall|i: int| 0 <= i < self.contexts.len() ==> context_ok(#[trigger] self.contexts[i])
        &&& self.active.len() <= MAX_ACTIVE
        &&& 0 <= self.cursor <= total(self)
    }
}

/// How many probes one sweep sends: one per origin, context and owner kind.
pub open spec fn total(s: BrowserV) -> int {
    (s.origins.len() * s.contexts.len() * 2) as int
}

/// The `n`th probe of the sweep, under identifier `id`.
pub open spec fn probe_at(s: BrowserV, n: int, id: u64, now: u64) -> ProbeV {
    let c = s.contexts.len() as int;
    ProbeV {
        id,
        origin: s.origins[n / (c * 2)],
        question: QuestionV { name: owner_labels(s.contexts[(n / 2) % c], n % 2 == 0), kind: 12, class: 1 },
        until: sat_add(now, PROBE_MS),
    }
}

pub open spec fn live_probes(ps: Seq<ProbeV>, now: u64) -> Seq<ProbeV>
    decreases ps.len(),
{
    if ps.len() == 0 {
        ps
    } else if ps.last().until > now {
        live_probes(ps.drop_last(), now).push(ps.last())
    } else {
        live_probes(ps.drop_last(), now)
    }
}

pub open spec fn live_evidence(es: Seq<EvidenceV>, now: u64) -> Seq<EvidenceV>
    decreases es.len(),
{
    if es.len() == 0 {
        es
    } else if es.last().until > now {
        live_evidence(es.drop_last(), now).push(es.last())
    } else {
        live_evidence(es.drop_last(), now)
    }
}

proof fn lemma_live_probes_len(ps: Seq<ProbeV>, now: u64)
    ensures
        live_probes(ps, now).len() <= ps.len(),
    decreases ps.len(),
{
    if ps.len() > 0 {
        lemma_live_probes_len(ps.drop_last(), now);
    }
}

pub open spec fn min_int(a: int, b: int) -> int {
    if a < b { a } else { b }
}

/// One poll: expired probes and evidence leave; unless the sweep waits, probes go out while
/// fewer than eight are in flight, each under the next identifier; an exhausted identifier
/// space is an error, with the probes sent so far kept.
pub open spec fn spec_poll(s: BrowserV, now: u64) -> (BrowserV, Option<Seq<ProbeV>>) {
    let p = pruned(s, now);
    if !sweeping(p, now) {
        (p, Some(Seq::empty()))
    } else {
        let q = sweep_start(p, now);
        let t = total(q);
        let want = min_int(MAX_ACTIVE - q.active.len(), t - q.cursor);
        let n = min_int(want, u64::MAX - q.sequence);
        let probes = Seq::new(n as nat, |k: int| probe_at(q, q.cursor + k, (q.sequence + k + 1) as u64, now));
        let q3 = BrowserV {
            active: q.active + probes,
            cursor: q.cursor + n,
            sequence: (q.sequence + n) as u64,
            ..q
        };
        if n < want {
            (q3, None)
        } else {
            let next = if q3.cursor < t {
                now
            } else if q3.next < sat_add(now, 1000) {
                sat_add(now, 1000)
            } else {
                q3.next
            };
            (BrowserV { next, ..q3 }, Some(probes))
        }
    }
}

/// The browser without the probes and evidence that expired at `now`.
pub open spec fn pruned(s: BrowserV, now: u64) -> BrowserV {
    BrowserV { active: live_probes(s.active, now), evidence: live_evidence(s.evidence, now), ..s }
}

/// Whether a poll sends anything: there is something to browse, and the sweep is under way
/// or due.
pub open spec fn sweeping(p: BrowserV, now: u64) -> bool {
    let t = total(p);
    !(t == 0 || (p.cursor == 0 && now < p.next) || (p.cursor == t && now < p.next))
}

/// Where the probes of a poll start: a finished sweep starts over, and a new sweep sets
/// when the one after it is due.
pub open spec fn sweep_start(p: BrowserV, now: u64) -> BrowserV {
    let q1 = if p.cursor == total(p) { BrowserV { cursor: 0, ..p } } else { p };
    if q1.cursor == 0 { BrowserV { next: sat_add(now, SWEEP_MS), ..q1 } } else { q1 }
}


/// `o` is `os` ordered by address with each origin once.
pub open spec fn sorted_origins(o: Seq<SocketAddress>, os: Seq<SocketAddress>) -> bool {
    &&& forall|i: int, j: int| 0 <= i < j < o.len() ==> bytes_lt(sock_key(o[i]), sock_key(o[j]))
    &&& forall|x: SocketAddress| o.contains(x) <==> os.contains(x)
}

/// `c` spells its name as it first comes in `cs`.
#[verifier::opaque]
pub open spec fn first_spelling(cs: Seq<Seq<Seq<u8>>>, c: Seq<Seq<u8>>) -> bool {
    exists|j: int| 0 <= j < cs.len() && cs[j] == c && forall|k: int| 0 <= k < j ==> !same_name(#[trigger] cs[k], c)
}

/// `c` is `cs` ordered by lowercased wire form with each name once, in its first spelling.
pub open spec fn sorted_contexts(c: Seq<Seq<Seq<u8>>>, cs: Seq<Seq<Seq<u8>>>) -> bool {
    &&& forall|i: int, j: int| 0 <= i < j < c.len() ==> canon_lt(c[i], c[j])
    &&& forall|i: int| 0 <= i < c.len() ==> first_spelling(cs, #[trigger] c[i])
    &&& covers(c, cs, cs.len() as int)
}

/// Every one of the first `n` names of `cs` has its like in `c`.
pub open spec fn covers(c: Seq<Seq<Seq<u8>>>, cs: Seq<Seq<Seq<u8>>>, n: int) -> bool {
    forall|j: int| #![trigger cs[j]] 0 <= j < n ==> exists|i: int| 0 <= i < c.len() && same_name(#[trigger] c[i], cs[j])
}

/// What `sync` accepts: at most eight usable origins and 64 browsable contexts.
pub open spec fn sync_ok(os: Seq<SocketAddress>, cs: Seq<Seq<Seq<u8>>>) -> bool {
    &&& os.len() <= MAX_ORIGINS
    &&& cs.len() <= MAX_CONTEXTS
    &&& forall|i: int| 0 <= i < os.len() ==> usable(#[trigger] os[i])
    &&& forall|i: int| 0 <= i < cs.len() ==> context_ok(#[trigger] cs[i])
}

/// Whether two context lists name the same names in the same order.
pub open spec fn same_contexts(a: Seq<Seq<Seq<u8>>>, b: Seq<Seq<Seq<u8>>>) -> bool {
    a.len() == b.len() && forall|i: int| 0 <= i < a.len() ==> same_name(#[trigger] a[i], b[i])
}

/// Evidence stays across a change of origins or contexts while it is current, its origin
/// is still browsed, and its owner is an owner name of a context still browsed.
pub open spec fn evidence_fits(e: EvidenceV, o: Seq<SocketAddress>, c: Seq<Seq<Seq<u8>>>, now: u64) -> bool {
    &&& e.until > now
    &&& o.contains(e.origin)
    &&& exists|k: int| 0 <= k < c.len() && (same_name(e.owner, owner_labels(#[trigger] c[k], true)) || same_name(e.owner, owner_labels(c[k], false)))
}

pub open spec fn kept_evidence(es: Seq<EvidenceV>, o: Seq<SocketAddress>, c: Seq<Seq<Seq<u8>>>, now: u64) -> Seq<EvidenceV>
    decreases es.len(),
{
    if es.len() == 0 {
        es
    } else if evidence_fits(es.last(), o, c, now) {
        kept_evidence(es.drop_last(), o, c, now).push(es.last())
    } else {
        kept_evidence(es.drop_last(), o, c, now)
    }
}

/// The browser after `sync` to the ordered origins `o` and contexts `c`: unchanged if
/// neither changed; otherwise the probes are dropped, the sweep starts over at once, and
/// only fitting evidence stays.
pub open spec fn spec_sync(s: BrowserV, o: Seq<SocketAddress>, c: Seq<Seq<Seq<u8>>>, now: u64) -> BrowserV {
    if o == s.origins && same_contexts(c, s.contexts) {
        s
    } else {
        BrowserV {
            origins: o,
            contexts: c,
            active: Seq::empty(),
            evidence: kept_evidence(s.evidence, o, c, now),
            cursor: 0,
            next: now,
            ..s
        }
    }
}

pub open spec fn names_view(v: Seq<Name>) -> Seq<Seq<Seq<u8>>> {
    v.map_values(|n: Name| n@)
}


pub open spec fn min_opt(a: Option<u64>, b: u64) -> Option<u64> {
    match a {
        Some(x) => Some(if x < b { x } else { b }),
        None => Some(b),
    }
}

pub open spec fn probes_min(ps: Seq<ProbeV>, acc: Option<u64>) -> Option<u64>
    decreases ps.len(),
{
    if ps.len() == 0 {
        acc
    } else {
        min_opt(probes_min(ps.drop_last(), acc), ps.last().until)
    }
}

pub open spec fn evidence_min(es: Seq<EvidenceV>, acc: Option<u64>) -> Option<u64>
    decreases es.len(),
{
    if es.len() == 0 {
        acc
    } else {
        min_opt(evidence_min(es.drop_last(), acc), es.last().until)
    }
}

/// When the browser next has work: the earliest end of a probe or of evidence, and, while
/// fewer than eight probes are in flight, when the sweep continues; nothing without
/// origins or contexts.
pub open spec fn spec_next_deadline(s: BrowserV) -> Option<u64> {
    if s.origins.len() == 0 || s.contexts.len() == 0 {
        None
    } else {
        let m = evidence_min(s.evidence, probes_min(s.active, None));
        if s.active.len() < MAX_ACTIVE { min_opt(m, s.next) } else { m }
    }
}

/// The first probe in flight under identifier `id`.
pub open spec fn probe_index(ps: Seq<ProbeV>, id: u64) -> Option<int>
    decreases ps.len(),
{
    if ps.len() == 0 {
        None
    } else {
        match probe_index(ps.drop_last(), id) {
            Some(i) => Some(i),
            None => if ps.last().id == id { Some(ps.len() - 1) } else { None },
        }
    }
}

/// Evidence that a new answer replaces: the current evidence of other origins and owners.
pub open spec fn fresh_evidence(es: Seq<EvidenceV>, origin: SocketAddress, owner: Seq<Seq<u8>>, now: u64) -> Seq<EvidenceV>
    decreases es.len(),
{
    if es.len() == 0 {
        es
    } else if es.last().until > now && !(es.last().origin == origin && same_name(es.last().owner, owner)) {
        fresh_evidence(es.drop_last(), origin, owner, now).push(es.last())
    } else {
        fresh_evidence(es.drop_last(), origin, owner, now)
    }
}

/// The first evidence under the same origin, owner and target.
pub open spec fn evidence_index(es: Seq<EvidenceV>, origin: SocketAddress, owner: Seq<Seq<u8>>, t: Seq<Seq<u8>>) -> Option<int>
    decreases es.len(),
{
    if es.len() == 0 {
        None
    } else {
        match evidence_index(es.drop_last(), origin, owner, t) {
            Some(i) => Some(i),
            None => if es.last().origin == origin && same_name(es.last().owner, owner) && same_name(es.last().target, t) {
                Some(es.len() - 1)
            } else {
                None
            },
        }
    }
}

/// How long an answer of `ttl` seconds is kept, in milliseconds: at most a day.
pub open spec fn keep_ms(ttl: u32) -> u64 {
    ((if ttl < 86400 { ttl as int } else { 86400 }) * 1000) as u64
}

/// One answer taken as evidence: a pointer under the owner names a browsing domain, which
/// must be a name of class IN outside `local.` and `resolver.arpa.`; an answer with no time
/// to live names nothing; the same domain keeps its earlier end; more than 64 pieces are an
/// error (`None`).
pub open spec fn evidence_step(es: Seq<EvidenceV>, origin: SocketAddress, owner: Seq<Seq<u8>>, r: RecordV, now: u64) -> Option<Seq<EvidenceV>> {
    if !same_name(r.name, owner) || r.kind != 12 {
        Some(es)
    } else {
        match r.data {
            RdataV::Name(t) => if r.class != 1 || t.len() == 0 || spec_within(t, seq![local_label()])
                || spec_within(t, resolver_arpa()) {
                None
            } else if r.ttl == 0 {
                Some(es)
            } else {
                let until = sat_add(now, keep_ms(r.ttl));
                let next = match evidence_index(es, origin, owner, t) {
                    Some(i) => es.update(i, EvidenceV { until: if es[i].until < until { es[i].until } else { until }, ..es[i] }),
                    None => es.push(EvidenceV { origin, owner, target: t, until }),
                };
                if next.len() > 64 { None } else { Some(next) }
            },
            _ => None,
        }
    }
}

pub open spec fn evidence_fold(es: Seq<EvidenceV>, origin: SocketAddress, owner: Seq<Seq<u8>>, rs: Seq<RecordV>, now: u64) -> Option<Seq<EvidenceV>>
    decreases rs.len(),
{
    if rs.len() == 0 {
        Some(es)
    } else {
        match evidence_fold(es, origin, owner, rs.drop_last(), now) {
            Some(e) => evidence_step(e, origin, owner, rs.last(), now),
            None => None,
        }
    }
}

/// Whether an answer from `origin` completes probe `p`: in time, a response with a plain
/// opcode and no error, exactly the probe's question, and at most 64 records.
pub open spec fn answer_fits(p: ProbeV, origin: SocketAddress, m: MessageV, now: u64) -> bool {
    &&& p.origin == origin
    &&& p.until > now
    &&& m.flags & 0xfa0f == 0x8000
    &&& m.questions.len() == 1
    &&& same_name(m.questions[0].name, p.question.name)
    &&& m.questions[0].kind == p.question.kind
    &&& m.questions[0].class == p.question.class
    &&& m.answers.len() + m.authority.len() + m.additional.len() <= 64
}

/// The browser after the answer `m` from `origin` to probe `id`, or `None` when it is
/// refused: the probe's earlier evidence gives way to what the answer names, the next sweep
/// comes before half the remaining life of the evidence (at least a second ahead), and the
/// probe is done.
pub open spec fn spec_complete(s: BrowserV, id: u64, origin: SocketAddress, m: MessageV, now: u64) -> Option<BrowserV> {
    match probe_index(s.active, id) {
        None => None,
        Some(i) => {
            let p = s.active[i];
            if !answer_fits(p, origin, m, now) {
                None
            } else {
                match evidence_fold(fresh_evidence(s.evidence, origin, p.question.name, now), origin, p.question.name, m.answers, now) {
                    None => None,
                    Some(es) => {
                        let next = match evidence_min(es, None) {
                            Some(u) => {
                                let half = (if u > now { u - now } else { 0 }) / 2;
                                let d = sat_add(now, if half < 1000 { 1000 } else { half as u64 });
                                if d < s.next { d } else { s.next }
                            },
                            None => s.next,
                        };
                        Some(BrowserV { evidence: es, active: s.active.remove(i), next, ..s })
                    },
                }
            }
        },
    }
}


/// Each probe a poll sends carries a fresh identifier: above every identifier handed out
/// before, strictly rising in the order sent, and the last one is what the browser
/// remembers.
pub proof fn lemma_poll_fresh_ids(s: BrowserV, now: u64)
    requires
        s.inv(),
    ensures
        spec_poll(s, now).1 matches Some(ps) ==> {
            &&& forall|k: int| 0 <= k < ps.len() ==> #[trigger] ps[k].id > s.sequence
            &&& forall|a: int, b: int| 0 <= a < b < ps.len() ==> ps[a].id < ps[b].id
            &&& ps.len() > 0 ==> spec_poll(s, now).0.sequence == ps.last().id
        },
{
    let p = pruned(s, now);
    if sweeping(p, now) {
        let q = sweep_start(p, now);
        let t = total(q);
        let want = min_int(MAX_ACTIVE - q.active.len(), t - q.cursor);
        let n = min_int(want, u64::MAX - q.sequence);
        let ps = Seq::new(n as nat, |k: int| probe_at(q, q.cursor + k, (q.sequence + k + 1) as u64, now));
        assert(q.sequence == s.sequence);
        lemma_live_probes_len(s.active, now);
        assert(q.active.len() <= MAX_ACTIVE);
        assert(q.cursor <= t);
        assert(n >= 0);
        assert(ps.len() == n);
        assert forall|k: int| 0 <= k < ps.len() implies #[trigger] ps[k].id == q.sequence + k + 1 by {
            assert(q.sequence + k + 1 <= u64::MAX);
        }
        if n >= want {
            assert(spec_poll(s, now).1 == Some(ps));
            if ps.len() > 0 {
                assert(ps.last().id == q.sequence + n);
            }
        }
    }
}

/// Syncing to the origins and contexts the browser already has changes nothing: probes in
/// flight, evidence and the sweep all stay.
pub proof fn lemma_sync_same_keeps_state(s: BrowserV, o: Seq<SocketAddress>, c: Seq<Seq<Seq<u8>>>, now: u64)
    requires
        s.inv(),
        o == s.origins,
        same_contexts(c, s.contexts),
    ensures
        spec_sync(s, o, c, now) == s,
{
}


/// What a piece of evidence still allows, in whole seconds.
pub open spec fn domain_ttl(e: EvidenceV, now: u64) -> u32 {
    ((e.until - now) / 1000) as u32
}

/// Whether a piece of evidence names a domain at `now`: it is current, has time left, and,
/// for legacy browsing, sits under an `lb` owner.
pub open spec fn qualifies(e: EvidenceV, legacy: bool, now: u64) -> bool {
    &&& e.until > now
    &&& (!legacy || (e.owner.len() > 0 && lower_label(e.owner[0]) == seq![108u8, 98]))
    &&& domain_ttl(e, now) > 0
}

pub open spec fn domains_sorted(out: Seq<(Seq<Seq<u8>>, u32)>) -> bool {
    forall|a: int, b: int| 0 <= a < b < out.len() ==> canon_lt(out[a].0, out[b].0)
}

/// How many domains order before `t`.
pub open spec fn dom_place(out: Seq<(Seq<Seq<u8>>, u32)>, t: Seq<Seq<u8>>) -> int
    decreases out.len(),
{
    if out.len() == 0 {
        0
    } else if canon_lt(out.last().0, t) {
        out.len() as int
    } else {
        dom_place(out.drop_last(), t)
    }
}

/// One piece of evidence taken into the domain list: a domain already listed keeps its
/// spelling and the longer time; a new one goes in its place in the order.
pub open spec fn domain_step(out: Seq<(Seq<Seq<u8>>, u32)>, e: EvidenceV, legacy: bool, now: u64) -> Seq<(Seq<Seq<u8>>, u32)> {
    if !qualifies(e, legacy, now) {
        out
    } else {
        let p = dom_place(out, e.target);
        let ttl = domain_ttl(e, now);
        if p < out.len() && same_name(out[p].0, e.target) {
            out.update(p, (out[p].0, if out[p].1 < ttl { ttl } else { out[p].1 }))
        } else {
            out.insert(p, (e.target, ttl))
        }
    }
}

/// The browsing domains the evidence names, in evidence order folded into an ordered list.
pub open spec fn spec_domains(es: Seq<EvidenceV>, legacy: bool, now: u64) -> Seq<(Seq<Seq<u8>>, u32)>
    decreases es.len(),
{
    if es.len() == 0 {
        Seq::empty()
    } else {
        domain_step(spec_domains(es.drop_last(), legacy, now), es.last(), legacy, now)
    }
}

proof fn lemma_dom_place(out: Seq<(Seq<Seq<u8>>, u32)>, t: Seq<Seq<u8>>)
    requires
        domains_sorted(out),
    ensures
        0 <= dom_place(out, t) <= out.len(),
        forall|j: int| 0 <= j < dom_place(out, t) ==> canon_lt(out[j].0, t),
        dom_place(out, t) < out.len() ==> !canon_lt(out[dom_place(out, t)].0, t),
    decreases out.len(),
{
    if out.len() > 0 {
        if canon_lt(out.last().0, t) {
            assert forall|j: int| 0 <= j < out.len() implies canon_lt(out[j].0, t) by {
                if j < out.len() - 1 {
                    assert(canon_lt(out[j].0, out[out.len() - 1].0));
                    lemma_bytes_lt_transitive(canon_key(out[j].0), canon_key(out.last().0), canon_key(t));
                }
            }
        } else {
            let d = out.drop_last();
            assert forall|a: int, b: int| 0 <= a < b < d.len() implies canon_lt(d[a].0, d[b].0) by {
                assert(d[a] == out[a] && d[b] == out[b]);
            }
            lemma_dom_place(d, t);
            let p = dom_place(d, t);
            assert forall|j: int| 0 <= j < p implies canon_lt(out[j].0, t) by {
                assert(d[j] == out[j]);
            }
            if p < d.len() {
                assert(d[p] == out[p]);
            }
        }
    }
}

proof fn lemma_domain_step_sorted(out: Seq<(Seq<Seq<u8>>, u32)>, e: EvidenceV, legacy: bool, now: u64)
    requires
        domains_sorted(out),
    ensures
        domains_sorted(domain_step(out, e, legacy, now)),
{
    if qualifies(e, legacy, now) {
        let p = dom_place(out, e.target);
        lemma_dom_place(out, e.target);
        if p < out.len() && same_name(out[p].0, e.target) {
        } else {
            let x = e.target;
            let w = out.insert(p, (x, domain_ttl(e, now)));
            if p < out.len() {
                lemma_bytes_lt_total(canon_key(out[p].0), canon_key(x));
            }
            assert forall|a: int, b: int| 0 <= a < b < w.len() implies canon_lt(w[a].0, w[b].0) by {
                if b < p {
                } else if b == p {
                } else if a < p {
                    if b - 1 > p {
                        assert(canon_lt(out[p].0, out[b - 1].0));
                        lemma_bytes_lt_transitive(canon_key(x), canon_key(out[p].0), canon_key(out[b - 1].0));
                    }
                    lemma_bytes_lt_transitive(canon_key(out[a].0), canon_key(x), canon_key(out[b - 1].0));
                } else if a == p {
                    if b - 1 > p {
                        assert(canon_lt(out[p].0, out[b - 1].0));
                        lemma_bytes_lt_transitive(canon_key(x), canon_key(out[p].0), canon_key(out[b - 1].0));
                    }
                } else {
                    assert(canon_lt(out[a - 1].0, out[b - 1].0));
                }
            }
        }
    }
}

/// Builds the owner name of a context.
fn owner(context: &Name, legacy: bool) -> (r: Result<Name, Error>)
    ensures
        r is Ok <==> valid_labels(owner_labels(context@, legacy)),
        r matches Ok(n) ==> n@ == owner_labels(context@, legacy),
{
    let mut labels: Vec<Vec<u8>> = Vec::new();
    if legacy {
        labels.push(vec![108u8, 98]);
    } else {
        labels.push(vec![98u8]);
    }
    labels.push(vec![95u8, 100, 110, 115, 45, 115, 100]);
    labels.push(vec![95u8, 117, 100, 112]);
    let src = context.labels();
    let mut i: usize = 0;
    proof {
        assert(labels@[0]@ == owner_labels(context@, legacy)[0]);
        assert(labels@[1]@ == owner_labels(context@, legacy)[1]);
        assert(labels@[2]@ == owner_labels(context@, legacy)[2]);
        assert(crate::dns::name::labels_view(labels@) =~= owner_labels(context@, legacy).take(3));
    }
    while i < src.len()
        invariant
            i <= src@.len(),
            labels@.len() == 3 + i,
            crate::dns::name::labels_view(src@) == context@,
            crate::dns::name::labels_view(labels@) == owner_labels(context@, legacy).take(3 + i),
        decreases src@.len() - i,
    {
        let l = vstd::slice::slice_to_vec(src[i].as_slice());
        let ghost before = labels@;
        labels.push(l);
        proof {
            assert(crate::dns::name::labels_view(labels@) =~= crate::dns::name::labels_view(before).push(src@[i as int]@));
            assert(owner_labels(context@, legacy).take(3 + i + 1) =~= owner_labels(context@, legacy).take(3 + i).push(context@[i as int]));
        }
        i = i + 1;
    }
    proof {
        assert(owner_labels(context@, legacy).take(3 + i) =~= owner_labels(context@, legacy));
    }
    Name::from_labels(labels)
}


fn has_origin(v: &Vec<SocketAddress>, x: &SocketAddress) -> (r: bool)
    ensures
        r == v@.contains(*x),
{
    let mut i: usize = 0;
    while i < v.len()
        invariant
            i <= v@.len(),
            forall|k: int| 0 <= k < i ==> v@[k] != *x,
        decreases v@.len() - i,
    {
        if same_socket(&v[i], x) {
            return true;
        }
        i = i + 1;
    }
    false
}

fn sorted_unique_origins(os: &[SocketAddress]) -> (r: Vec<SocketAddress>)
    ensures
        sorted_origins(r@, os@),
        r@.len() <= os@.len(),
{
    let mut out: Vec<SocketAddress> = Vec::new();
    let mut i: usize = 0;
    while i < os.len()
        invariant
            i <= os@.len(),
            out@.len() <= i,
            forall|a: int, b: int| 0 <= a < b < out@.len() ==> bytes_lt(sock_key(out@[a]), sock_key(out@[b])),
            forall|y: SocketAddress| out@.contains(y) <==> os@.take(i as int).contains(y),
        decreases os@.len() - i,
    {
        let x = os[i];
        let kx = sock_key_exec(&x);
        let ghost u = out@;
        let mut k: usize = 0;
        while k < out.len() && bytes_less(sock_key_exec(&out[k]).as_slice(), kx.as_slice())
            invariant
                u == out@,
                k <= u.len(),
                kx@ == sock_key(x),
                forall|j: int| 0 <= j < k ==> bytes_lt(sock_key(u[j]), sock_key(x)),
            decreases u.len() - k,
        {
            k = k + 1;
        }
        proof {
            assert(os@.take(i as int + 1) =~= os@.take(i as int).push(x));
        }
        let dup = k < out.len() && same_socket(&out[k], &x);
        if dup {
            proof {
                assert(u[k as int] == x);
                assert forall|y: SocketAddress| out@.contains(y) <==> os@.take(i as int + 1).contains(y) by {
                    if os@.take(i as int + 1).contains(y) {
                        if y != x {
                            let m = choose|m: int| 0 <= m < os@.take(i as int + 1).len() && #[trigger] os@.take(i as int + 1)[m] == y;
                            assert(os@.take(i as int)[m] == y);
                        }
                    }
                    if out@.contains(y) {
                        assert(os@.take(i as int).contains(y));
                        let m = choose|m: int| 0 <= m < os@.take(i as int).len() && #[trigger] os@.take(i as int)[m] == y;
                        assert(os@.take(i as int + 1)[m] == y);
                    }
                }
            }
        } else {
            proof {
                if k < u.len() {
                    lemma_bytes_lt_total(sock_key(u[k as int]), sock_key(x));
                    if sock_key(u[k as int]) == sock_key(x) {
                        crate::dns::privacy::policy::lemma_sock_key_injective(u[k as int], x);
                    }
                }
                assert forall|j: int| 0 <= j < u.len() implies #[trigger] u[j] != x by {
                    if j < k {
                        lemma_bytes_lt_irreflexive(sock_key(x));
                    } else if j > k {
                        lemma_bytes_lt_transitive(sock_key(x), sock_key(u[k as int]), sock_key(u[j]));
                        lemma_bytes_lt_irreflexive(sock_key(x));
                    }
                }
            }
            out.insert(k, x);
            proof {
                let w = out@;
                assert(w == u.insert(k as int, x));
                assert forall|a: int, b: int| 0 <= a < b < w.len() implies bytes_lt(sock_key(w[a]), sock_key(w[b])) by {
                    if b < k {
                    } else if b == k {
                    } else if a < k {
                        if b - 1 > k {
                            lemma_bytes_lt_transitive(sock_key(x), sock_key(u[k as int]), sock_key(u[b - 1]));
                        }
                        lemma_bytes_lt_transitive(sock_key(u[a]), sock_key(x), sock_key(u[b - 1]));
                    } else if a == k {
                        if b - 1 > k {
                            lemma_bytes_lt_transitive(sock_key(x), sock_key(u[k as int]), sock_key(u[b - 1]));
                        }
                    } else {
                    }
                }
                assert forall|y: SocketAddress| w.contains(y) <==> os@.take(i as int + 1).contains(y) by {
                    if w.contains(y) {
                        let m = choose|m: int| 0 <= m < w.len() && #[trigger] w[m] == y;
                        if m < k {
                            assert(u[m] == y);
                            assert(u.contains(y));
                        } else if m > k {
                            assert(u[m - 1] == y);
                            assert(u.contains(y));
                        }
                        if y != x {
                            assert(os@.take(i as int).contains(y));
                            let q = choose|q: int| 0 <= q < os@.take(i as int).len() && #[trigger] os@.take(i as int)[q] == y;
                            assert(os@.take(i as int + 1)[q] == y);
                        } else {
                            assert(os@.take(i as int + 1)[i as int] == x);
                        }
                    }
                    if os@.take(i as int + 1).contains(y) {
                        if y == x {
                            assert(w[k as int] == x);
                        } else {
                            let q = choose|q: int| 0 <= q < os@.take(i as int + 1).len() && #[trigger] os@.take(i as int + 1)[q] == y;
                            assert(os@.take(i as int)[q] == y);
                            assert(u.contains(y));
                            let m = choose|m: int| 0 <= m < u.len() && #[trigger] u[m] == y;
                            if m < k {
                                assert(w[m] == y);
                            } else {
                                assert(w[m + 1] == y);
                            }
                        }
                    }
                }
            }
        }
        i = i + 1;
    }
    proof {
        assert(os@.take(os@.len() as int) =~= os@);
    }
    out
}

proof fn lemma_spelling_extends(inp: Seq<Seq<Seq<u8>>>, i: int, y: Seq<Seq<u8>>)
    requires
        0 <= i < inp.len(),
        first_spelling(inp.take(i), y),
    ensures
        first_spelling(inp.take(i + 1), y),
{
    reveal(first_spelling);
    let j = choose|j: int| 0 <= j < inp.take(i).len() && inp.take(i)[j] == y
        && forall|q: int| 0 <= q < j ==> !same_name(#[trigger] inp.take(i)[q], y);
    assert(inp.take(i + 1)[j] == y);
    assert forall|q: int| 0 <= q < j implies !same_name(#[trigger] inp.take(i + 1)[q], y) by {
        assert(inp.take(i + 1)[q] == inp.take(i)[q]);
    }
}

proof fn lemma_spelling_new(inp: Seq<Seq<Seq<u8>>>, i: int, xv: Seq<Seq<u8>>)
    requires
        0 <= i < inp.len(),
        inp[i] == xv,
        forall|q: int| 0 <= q < i ==> !same_name(#[trigger] inp[q], xv),
    ensures
        first_spelling(inp.take(i + 1), xv),
{
    reveal(first_spelling);
    assert(inp.take(i + 1)[i] == xv);
    assert forall|q: int| 0 <= q < i implies !same_name(#[trigger] inp.take(i + 1)[q], xv) by {
        assert(inp.take(i + 1)[q] == inp[q]);
    }
}

#[verifier::rlimit(30)]
proof fn lemma_context_insert(u: Seq<Seq<Seq<u8>>>, xv: Seq<Seq<u8>>, k: int, inp: Seq<Seq<Seq<u8>>>, i: int)
    requires
        0 <= k <= u.len(),
        0 <= i < inp.len(),
        inp[i] == xv,
        context_ok(xv),
        forall|a: int, b: int| 0 <= a < b < u.len() ==> canon_lt(u[a], u[b]),
        forall|j: int| 0 <= j < k ==> canon_lt(u[j], xv),
        k < u.len() ==> !canon_lt(u[k], xv) && !same_name(u[k], xv),
        forall|a: int| 0 <= a < u.len() ==> first_spelling(inp.take(i + 1), #[trigger] u[a]),
        forall|a: int| 0 <= a < u.len() ==> context_ok(#[trigger] u[a]),
        covers(u, inp, i),
    ensures
        ({
            let w = u.insert(k, xv);
            &&& forall|a: int, b: int| 0 <= a < b < w.len() ==> canon_lt(w[a], w[b])
            &&& forall|a: int| 0 <= a < w.len() ==> first_spelling(inp.take(i + 1), #[trigger] w[a])
            &&& forall|a: int| 0 <= a < w.len() ==> context_ok(#[trigger] w[a])
            &&& covers(w, inp, i + 1)
        }),
{
    let w = u.insert(k, xv);
    if k < u.len() {
        lemma_bytes_lt_total(canon_key(u[k]), canon_key(xv));
    }
    assert forall|j: int| 0 <= j < u.len() implies !same_name(#[trigger] u[j], xv) by {
        if j < k {
            lemma_bytes_lt_irreflexive(canon_key(xv));
        } else if j > k {
            assert(canon_lt(u[k], u[j]));
            lemma_bytes_lt_transitive(canon_key(xv), canon_key(u[k]), canon_key(u[j]));
            lemma_bytes_lt_irreflexive(canon_key(xv));
        }
    }
    assert forall|q: int| 0 <= q < i implies !same_name(#[trigger] inp[q], xv) by {
        let a = choose|a: int| 0 <= a < u.len() && same_name(#[trigger] u[a], inp[q]);
    }
    lemma_spelling_new(inp, i, xv);
    assert forall|a: int, b: int| 0 <= a < b < w.len() implies canon_lt(w[a], w[b]) by {
        if b < k {
        } else if b == k {
        } else if a < k {
            assert(canon_lt(u[a], xv));
            if b - 1 > k {
                assert(canon_lt(u[k], u[b - 1]));
                lemma_bytes_lt_transitive(canon_key(xv), canon_key(u[k]), canon_key(u[b - 1]));
            }
            lemma_bytes_lt_transitive(canon_key(u[a]), canon_key(xv), canon_key(u[b - 1]));
        } else if a == k {
            if b - 1 > k {
                assert(canon_lt(u[k], u[b - 1]));
                lemma_bytes_lt_transitive(canon_key(xv), canon_key(u[k]), canon_key(u[b - 1]));
            }
        } else {
            assert(canon_lt(u[a - 1], u[b - 1]));
        }
    }
    assert forall|a: int| 0 <= a < w.len() implies first_spelling(inp.take(i + 1), #[trigger] w[a]) && context_ok(w[a]) by {
        if a < k {
            assert(w[a] == u[a]);
        } else if a > k {
            assert(w[a] == u[a - 1]);
        }
    }
    assert forall|j: int| #![trigger inp[j]] 0 <= j < i + 1 implies exists|a: int| 0 <= a < w.len() && same_name(#[trigger] w[a], inp[j]) by {
        if j == i {
            assert(w[k] == xv);
        } else {
            let a = choose|a: int| 0 <= a < u.len() && same_name(#[trigger] u[a], inp[j]);
            if a < k {
                assert(w[a] == u[a]);
            } else {
                assert(w[a + 1] == u[a]);
            }
        }
    }
}

#[verifier::rlimit(60)]
fn sorted_unique_contexts(cs: &[Name]) -> (r: Vec<Name>)
    requires
        forall|i: int| 0 <= i < cs@.len() ==> context_ok(#[trigger] names_view(cs@)[i]),
    ensures
        sorted_contexts(names_view(r@), names_view(cs@)),
        r@.len() <= cs@.len(),
        forall|i: int| 0 <= i < r@.len() ==> context_ok(#[trigger] names_view(r@)[i]),
{
    let ghost inp = names_view(cs@);
    let mut out: Vec<Name> = Vec::new();
    let mut i: usize = 0;
    while i < cs.len()
        invariant
            inp == names_view(cs@),
            forall|q: int| 0 <= q < inp.len() ==> context_ok(#[trigger] inp[q]),
            i <= cs@.len(),
            out@.len() <= i,
            forall|a: int, b: int| 0 <= a < b < out@.len() ==> canon_lt(names_view(out@)[a], names_view(out@)[b]),
            forall|a: int| 0 <= a < out@.len() ==> first_spelling(inp.take(i as int), #[trigger] names_view(out@)[a]),
            covers(names_view(out@), inp, i as int),
            forall|a: int| 0 <= a < out@.len() ==> context_ok(#[trigger] names_view(out@)[a]),
        decreases cs@.len() - i,
    {
        let x = &cs[i];
        let kx = x.canonical();
        proof {
            reveal(canon_key);
        }
        let ghost u = names_view(out@);
        let ghost xv = inp[i as int];
        assert(xv == cs@[i as int]@);
        let mut k: usize = 0;
        while k < out.len() && bytes_less(out[k].canonical(), kx)
            invariant
                u == names_view(out@),
                k <= u.len(),
                kx@ == canon_key(xv),
                forall|j: int| 0 <= j < k ==> canon_lt(u[j], xv),
            decreases u.len() - k,
        {
            assert(u[k as int] == out@[k as int]@);
            proof {
                reveal(canon_key);
            }
            k = k + 1;
        }
        proof {
            assert forall|a: int| 0 <= a < u.len() implies first_spelling(inp.take(i as int + 1), #[trigger] u[a]) by {
                lemma_spelling_extends(inp, i as int, u[a]);
            }
            if k < u.len() {
                assert(u[k as int] == out@[k as int]@);
            }
        }
        let dup = k < out.len() && same_bytes(out[k].canonical(), kx);
        proof {
            reveal(canon_key);
        }
        if dup {
            proof {
                assert(same_name(u[k as int], xv));
                assert forall|j: int| #![trigger inp[j]] 0 <= j < i + 1 implies exists|a: int| 0 <= a < u.len() && same_name(#[trigger] u[a], inp[j]) by {
                    if j == i {
                        assert(same_name(u[k as int], inp[j]));
                    }
                }
            }
        } else {
            proof {
                lemma_context_insert(u, xv, k as int, inp, i as int);
            }
            out.insert(k, x.clone());
            proof {
                assert(names_view(out@) =~= u.insert(k as int, xv));
            }
        }
        i = i + 1;
    }
    proof {
        assert(forall|a: int| 0 <= a < out@.len() ==> first_spelling(inp.take(i as int), #[trigger] names_view(out@)[a]));
        assert(inp.len() == cs@.len());
        assert(i == inp.len());
        assert(inp.take(inp.len() as int) =~= inp);
        let r = names_view(out@);
        assert forall|a: int| 0 <= a < r.len() implies first_spelling(inp, #[trigger] r[a]) by {
            assert(first_spelling(inp.take(inp.len() as int), r[a]));
        }
        assert(sorted_contexts(r, inp));
    }
    out
}


proof fn lemma_probe_index_prefix(ps: Seq<ProbeV>, k: int, id: u64)
    requires
        0 <= k <= ps.len(),
        probe_index(ps.take(k), id) is Some,
    ensures
        probe_index(ps, id) == probe_index(ps.take(k), id),
    decreases ps.len() - k,
{
    if k == ps.len() {
        assert(ps.take(k) =~= ps);
    } else {
        assert(ps.drop_last().take(k) =~= ps.take(k));
        lemma_probe_index_prefix(ps.drop_last(), k, id);
    }
}

proof fn lemma_evidence_index_prefix(es: Seq<EvidenceV>, k: int, origin: SocketAddress, owner: Seq<Seq<u8>>, t: Seq<Seq<u8>>)
    requires
        0 <= k <= es.len(),
        evidence_index(es.take(k), origin, owner, t) is Some,
    ensures
        evidence_index(es, origin, owner, t) == evidence_index(es.take(k), origin, owner, t),
    decreases es.len() - k,
{
    if k == es.len() {
        assert(es.take(k) =~= es);
    } else {
        assert(es.drop_last().take(k) =~= es.take(k));
        lemma_evidence_index_prefix(es.drop_last(), k, origin, owner, t);
    }
}

proof fn lemma_fold_stays_none(es: Seq<EvidenceV>, origin: SocketAddress, owner: Seq<Seq<u8>>, rs: Seq<RecordV>, k: int, now: u64)
    requires
        0 <= k <= rs.len(),
        evidence_fold(es, origin, owner, rs.take(k), now) is None,
    ensures
        evidence_fold(es, origin, owner, rs, now) is None,
    decreases rs.len() - k,
{
    if k == rs.len() {
        assert(rs.take(k) =~= rs);
    } else {
        assert(rs.drop_last().take(k) =~= rs.take(k));
        lemma_fold_stays_none(es, origin, owner, rs.drop_last(), k, now);
    }
}

fn copy_evidence(e: &Evidence) -> (r: Evidence)
    ensures
        r@ == e@,
{
    Evidence { origin: e.origin, owner: e.owner.clone(), target: e.target.clone(), until: e.until }
}

fn same_name_exec(a: &Name, b: &Name) -> (r: bool)
    ensures
        r == same_name(a@, b@),
{
    proof {
        reveal(canon_key);
    }
    same_bytes(a.canonical(), b.canonical())
}

/// Takes one answer as evidence (see `evidence_step`); false where the step refuses.
fn evidence_step_exec(es: &mut Vec<Evidence>, origin: SocketAddress, owner: &Name, r: &Record, now: u64) -> (ok: bool)
    ensures
        ok == evidence_step(evidence_view(old(es)@), origin, owner@, r@, now) is Some,
        ok ==> evidence_view(final(es)@) == evidence_step(evidence_view(old(es)@), origin, owner@, r@, now)->0,
{
    if !same_name_exec(&r.name, owner) || r.kind != 12 {
        return true;
    }
    match &r.data {
        Rdata::Name(t) => {
            let local = crate::mdns::advertise::local_name();
            let arpa = crate::dns::privacy::resolver_arpa_name();
            if r.class != 1 || t.label_count() == 0 || within(t, &local) || within(t, &arpa) {
                return false;
            }
            if r.ttl == 0 {
                return true;
            }
            let secs: u64 = if r.ttl < 86400 { r.ttl as u64 } else { 86400 };
            let until = add_sat(now, secs * 1000);
            let ghost ev = evidence_view(es@);
            let mut i: usize = 0;
            let mut at: Option<usize> = None;
            while i < es.len() && at.is_none()
                invariant
                    ev == evidence_view(es@),
                    i <= es@.len(),
                    at matches Some(k) ==> k < es@.len() && evidence_index(ev, origin, owner@, t@) == Some(k as int),
                    at is None ==> evidence_index(ev.take(i as int), origin, owner@, t@) is None,
                decreases es@.len() - i + if at is None { 1int } else { 0int },
            {
                proof {
                    assert(ev.take(i as int + 1).drop_last() =~= ev.take(i as int));
                    assert(ev.take(i as int + 1).last() == ev[i as int]);
                }
                if same_socket(&es[i].origin, &origin) && same_name_exec(&es[i].owner, owner) && same_name_exec(&es[i].target, t) {
                    at = Some(i);
                    proof {
                        lemma_evidence_index_prefix(ev, i as int + 1, origin, owner@, t@);
                    }
                } else {
                    i = i + 1;
                }
            }
            proof {
                if at is None {
                    assert(ev.take(ev.len() as int) =~= ev);
                }
            }
            match at {
                Some(k) => {
                    let old_until = es[k].until;
                    let e = Evidence {
                        origin: es[k].origin,
                        owner: es[k].owner.clone(),
                        target: es[k].target.clone(),
                        until: if old_until < until { old_until } else { until },
                    };
                    es.set(k, e);
                    proof {
                        assert(evidence_view(es@) =~= ev.update(k as int, EvidenceV {
                            until: if ev[k as int].until < until { ev[k as int].until } else { until },
                            ..ev[k as int]
                        }));
                    }
                },
                None => {
                    es.push(Evidence { origin, owner: owner.clone(), target: t.clone(), until });
                    proof {
                        assert(evidence_view(es@) =~= ev.push(EvidenceV { origin, owner: owner@, target: t@, until }));
                    }
                },
            }
            if es.len() > 64 {
                return false;
            }
            true
        },
        _ => false,
    }
}

impl Browser {
    pub open spec fn wf(&self) -> bool {
        self@.inv()
    }

    /// A browser with nothing to browse.
    pub fn new() -> (r: Browser)
        ensures
            r.wf(),
            r@.origins.len() == 0,
            r@.contexts.len() == 0,
            r@.active.len() == 0,
            r@.evidence.len() == 0,
            r@.sequence == 0,
            r@.cursor == 0,
            r@.next == 0,
    {
        let r = Browser {
            origins: Vec::new(),
            contexts: Vec::new(),
            active: Vec::new(),
            evidence: Vec::new(),
            sequence: 0,
            cursor: 0,
            next: 0,
        };
        assert(r@.contexts.len() == 0);
        assert(r@.active.len() == 0);
        r
    }

    /// Probes in flight, and pieces of evidence held.
    pub fn counts(&self) -> (r: (usize, usize))
        ensures
            r.0 == self@.active.len(),
            r.1 == self@.evidence.len(),
    {
        (self.active.len(), self.evidence.len())
    }

    /// Whether probe `id` is in flight and still waits for its answer at `now`.
    pub fn live(&self, id: u64, now: u64) -> (r: bool)
        ensures
            r == exists|i: int| 0 <= i < self@.active.len() && self@.active[i].id == id && self@.active[i].until > now,
    {
        let mut i: usize = 0;
        while i < self.active.len()
            invariant
                i <= self@.active.len(),
                forall|k: int| 0 <= k < i ==> !(self@.active[k].id == id && self@.active[k].until > now),
            decreases self@.active.len() - i,
        {
            if self.active[i].id == id && self.active[i].until > now {
                assert(self@.active[i as int].id == id);
                return true;
            }
            i = i + 1;
        }
        false
    }

    fn prune(&mut self, now: u64)
        requires
            old(self).wf(),
        ensures
            final(self).wf(),
            final(self)@ == (BrowserV {
                active: live_probes(old(self)@.active, now),
                evidence: live_evidence(old(self)@.evidence, now),
                ..old(self)@
            }),
    {
        let ghost ps = old(self)@.active;
        let ghost es = old(self)@.evidence;
        let mut active: Vec<Probe> = Vec::new();
        let mut old_active: Vec<Probe> = Vec::new();
        std::mem::swap(&mut old_active, &mut self.active);
        let mut i: usize = 0;
        assert(ps.take(0) =~= Seq::<ProbeV>::empty());
        assert(probes_view(active@) =~= Seq::<ProbeV>::empty());
        while i < old_active.len()
            invariant
                probes_view(old_active@) == ps,
                i <= old_active@.len(),
                probes_view(active@) == live_probes(ps.take(i as int), now),
            decreases old_active@.len() - i,
        {
            proof {
                assert(ps.take(i as int + 1).drop_last() =~= ps.take(i as int));
                assert(ps.take(i as int + 1).last() == ps[i as int]);
            }
            if old_active[i].until > now {
                let ghost before = active@;
                active.push(old_active[i].clone());
                assert(probes_view(active@) =~= probes_view(before).push(ps[i as int]));
            }
            i = i + 1;
        }
        assert(ps.take(ps.len() as int) =~= ps);
        proof {
            lemma_live_probes_len(ps, now);
        }
        let mut evidence: Vec<Evidence> = Vec::new();
        let mut old_evidence: Vec<Evidence> = Vec::new();
        std::mem::swap(&mut old_evidence, &mut self.evidence);
        let mut j: usize = 0;
        assert(evidence_view(evidence@) =~= Seq::<EvidenceV>::empty());
        assert(es.take(0) =~= Seq::<EvidenceV>::empty());
        while j < old_evidence.len()
            invariant
                evidence_view(old_evidence@) == es,
                j <= old_evidence@.len(),
                evidence_view(evidence@) == live_evidence(es.take(j as int), now),
            decreases old_evidence@.len() - j,
        {
            proof {
                assert(es.take(j as int + 1).drop_last() =~= es.take(j as int));
                assert(es.take(j as int + 1).last() == es[j as int]);
            }
            if old_evidence[j].until > now {
                let ghost before = evidence@;
                let e = Evidence {
                    origin: old_evidence[j].origin,
                    owner: old_evidence[j].owner.clone(),
                    target: old_evidence[j].target.clone(),
                    until: old_evidence[j].until,
                };
                evidence.push(e);
                assert(evidence_view(evidence@) =~= evidence_view(before).push(es[j as int]));
            }
            j = j + 1;
        }
        assert(es.take(es.len() as int) =~= es);
        self.active = active;
        self.evidence = evidence;
    }

    /// Sends the probes that are due (see `spec_poll`).
    pub fn poll(&mut self, now: u64) -> (r: Result<Vec<Probe>, Error>)
        requires
            old(self).wf(),
        ensures
            final(self).wf(),
            final(self)@ == spec_poll(old(self)@, now).0,
            match spec_poll(old(self)@, now).1 {
                Some(ps) => r matches Ok(v) && probes_view(v@) == ps,
                None => r == Err::<Vec<Probe>, Error>(Error::Invalid),
            },
    {
        self.prune(now);
        let ghost p = self@;
        let ol = self.origins.len();
        let cl = self.contexts.len();
        assert(ol * cl <= 512) by (nonlinear_arith)
            requires
                ol <= 8,
                cl <= 64,
        ;
        let t = ol * cl * 2;
        if t == 0 || (self.cursor == 0 && now < self.next) || (self.cursor == t && now < self.next) {
            let out: Vec<Probe> = Vec::new();
            assert(probes_view(out@) =~= Seq::<ProbeV>::empty());
            return Ok(out);
        }
        if self.cursor == t {
            self.cursor = 0;
        }
        if self.cursor == 0 {
            self.next = add_sat(now, SWEEP_MS);
        }
        let ghost q2 = self@;
        assert(q2 == sweep_start(pruned(old(self)@, now), now));
        assert(sweeping(pruned(old(self)@, now), now));
        let ghost want = min_int(MAX_ACTIVE - q2.active.len(), t - q2.cursor);
        let ghost n = min_int(want, u64::MAX - q2.sequence);
        let ghost probes = Seq::new(n as nat, |k: int| probe_at(q2, q2.cursor + k, (q2.sequence + k + 1) as u64, now));
        let mut out: Vec<Probe> = Vec::new();
        assert(probes_view(out@) =~= probes.take(0));
        while self.active.len() < MAX_ACTIVE && self.cursor < t
            invariant
                q2.inv(),
                q2 == sweep_start(pruned(old(self)@, now), now),
                sweeping(pruned(old(self)@, now), now),
                t == total(q2),
                0 <= want,
                out@.len() <= want,
                out@.len() <= n,
                want == min_int(MAX_ACTIVE - q2.active.len(), t - q2.cursor),
                n == min_int(want, u64::MAX - q2.sequence),
                probes == Seq::new(n as nat, |k: int| probe_at(q2, q2.cursor + k, (q2.sequence + k + 1) as u64, now)),
                probes_view(out@) == probes.take(out@.len() as int),
                self@ == (BrowserV {
                    active: q2.active + probes_view(out@),
                    cursor: q2.cursor + out@.len(),
                    sequence: (q2.sequence + out@.len()) as u64,
                    ..q2
                }),
                self@.inv(),
            decreases t - self.cursor,
        {
            if self.sequence == u64::MAX {
                proof {
                    assert(probes_view(out@).len() == out@.len());
                    assert(self@.active.len() == q2.active.len() + out@.len());
                    assert(out@.len() < want);
                    assert(q2.sequence + out@.len() == u64::MAX);
                    assert(n == out@.len());
                    assert(probes.take(out@.len() as int) =~= probes);
                    assert(self@ == spec_poll(old(self)@, now).0);
                }
                return Err(Error::Invalid);
            }
            self.sequence = self.sequence + 1;
            let k = self.cursor;
            let c = self.contexts.len();
            let o = self.origins.len();
            proof {
                assert(t == (o as int) * (c as int) * 2);
                assert((c as int) > 0) by (nonlinear_arith)
                    requires
                        (k as int) < (o as int) * (c as int) * 2,
                        (k as int) >= 0,
                        (c as int) >= 0,
                        (o as int) >= 0,
                ;
                assert((k as int) / ((c as int) * 2) < o as int) by (nonlinear_arith)
                    requires
                        (k as int) < (o as int) * (c as int) * 2,
                        (c as int) > 0,
                ;
            }
            let origin = self.origins[k / (c * 2)];
            let legacy = k % 2 == 0;
            let name = match owner(&self.contexts[(k / 2) % c], legacy) {
                Ok(x) => x,
                Err(e) => {
                    proof {
                        reveal(context_ok);
                        assert(context_ok(q2.contexts[((k / 2) % c) as int]));
                    }
                    return Err(e);
                },
            };
            let p = Probe {
                id: self.sequence,
                origin,
                question: Question { name, kind: 12, class: 1 },
                until: add_sat(now, PROBE_MS),
            };
            let ghost before = out@;
            let ghost act = self.active@;
            self.active.push(p.clone());
            out.push(p);
            self.cursor = self.cursor + 1;
            proof {
                assert(probes_view(out@) =~= probes_view(before).push(p@));
                assert(probes_view(self.active@) =~= probes_view(act).push(p@));
                assert(p@ == probes[before.len() as int]);
                assert(probes.take(out@.len() as int) =~= probes.take(before.len() as int).push(probes[before.len() as int]));
            }
        }
        proof {
            assert(out@.len() == want);
            assert(n == want);
            assert(probes.take(out@.len() as int) =~= probes);
        }
        if self.cursor < t {
            self.next = now;
        } else {
            let later = add_sat(now, 1000);
            if self.next < later {
                self.next = later;
            }
        }
        Ok(out)
    }

    /// Browse `origins` under `contexts` from now on (see `spec_sync`); refused, changing
    /// nothing, unless `sync_ok` holds.
    pub fn sync(&mut self, origins: &[SocketAddress], contexts: &[Name], now: u64) -> (r: Result<(), Error>)
        requires
            old(self).wf(),
        ensures
            final(self).wf(),
            r is Err <==> !sync_ok(origins@, names_view(contexts@)),
            r matches Err(e) ==> e == Error::Invalid && final(self)@ == old(self)@,
            r is Ok ==> exists|o: Seq<SocketAddress>, c: Seq<Seq<Seq<u8>>>|
                sorted_origins(o, origins@) && sorted_contexts(c, names_view(contexts@))
                && final(self)@ == spec_sync(old(self)@, o, c, now),
    {
        proof {
            reveal(canon_key);
            reveal(context_ok);
        }
        let ghost cs = names_view(contexts@);
        if origins.len() > MAX_ORIGINS || contexts.len() > MAX_CONTEXTS {
            return Err(Error::Invalid);
        }
        let mut i: usize = 0;
        while i < origins.len()
            invariant
                self@ == old(self)@,
                old(self)@.inv(),
                i <= origins@.len(),
                forall|k: int| 0 <= k < i ==> usable(#[trigger] origins@[k]),
            decreases origins@.len() - i,
        {
            if !origin_usable(&origins[i]) {
                return Err(Error::Invalid);
            }
            i = i + 1;
        }
        let mut i: usize = 0;
        while i < contexts.len()
            invariant
                self@ == old(self)@,
                old(self)@.inv(),
                origins@.len() <= MAX_ORIGINS,
                contexts@.len() <= MAX_CONTEXTS,
                forall|k: int| 0 <= k < origins@.len() ==> usable(#[trigger] origins@[k]),
                i <= contexts@.len(),
                cs == names_view(contexts@),
                forall|k: int| 0 <= k < i ==> context_ok(#[trigger] cs[k]),
            decreases contexts@.len() - i,
        {
            proof {
                reveal(context_ok);
            }
            let n = contexts[i].label_count();
            assert(cs[i as int] == contexts@[i as int]@);
            if n == 0 {
                return Err(Error::Invalid);
            }
            if owner(&contexts[i], true).is_err() || owner(&contexts[i], false).is_err() {
                return Err(Error::Invalid);
            }
            i = i + 1;
        }
        let o = sorted_unique_origins(origins);
        let c = sorted_unique_contexts(contexts);
        let ghost cv = names_view(c@);
        let mut same = o.len() == self.origins.len() && c.len() == self.contexts.len();
        let mut k: usize = 0;
        while same && k < o.len()
            invariant
                self@ == old(self)@,
                cv == names_view(c@),
                same ==> o@.len() == self@.origins.len(),
                same ==> c@.len() == self@.contexts.len(),
                !same ==> !(o@ == self@.origins && same_contexts(cv, self@.contexts)),
                k <= o@.len(),
                same ==> forall|j: int| 0 <= j < k ==> o@[j] == self@.origins[j],
            decreases o@.len() - k,
        {
            if !same_socket(&o[k], &self.origins[k]) {
                same = false;
                assert(o@[k as int] != self@.origins[k as int]);
            }
            k = k + 1;
        }
        proof {
            if same {
                assert(o@ =~= self@.origins);
            }
        }
        let mut k: usize = 0;
        while same && k < c.len()
            invariant
                self@ == old(self)@,
                cv == names_view(c@),
                same ==> o@ == self@.origins,
                same ==> c@.len() == self@.contexts.len(),
                !same ==> !(o@ == self@.origins && same_contexts(cv, self@.contexts)),
                k <= c@.len(),
                same ==> forall|j: int| 0 <= j < k ==> same_name(#[trigger] cv[j], self@.contexts[j]),
            decreases c@.len() - k,
        {
            proof {
                reveal(canon_key);
            }
            assert(cv[k as int] == c@[k as int]@);
            assert(self@.contexts[k as int] == self.contexts@[k as int]@);
            if !same_bytes(c[k].canonical(), self.contexts[k].canonical()) {
                same = false;
                assert(!same_name(cv[k as int], self@.contexts[k as int]));
            }
            k = k + 1;
        }
        if same {
            proof {
                assert(o@ =~= self@.origins);
                assert(same_contexts(cv, self@.contexts));
                assert(spec_sync(old(self)@, o@, cv, now) == old(self)@);
                assert(sorted_origins(o@, origins@) && sorted_contexts(cv, names_view(contexts@))
                    && self@ == spec_sync(old(self)@, o@, cv, now));
            }
            return Ok(());
        }
        let ghost es = self@.evidence;
        let mut kept: Vec<Evidence> = Vec::new();
        let mut old_evidence: Vec<Evidence> = Vec::new();
        std::mem::swap(&mut old_evidence, &mut self.evidence);
        let mut j: usize = 0;
        assert(evidence_view(kept@) =~= Seq::<EvidenceV>::empty());
        assert(es.take(0) =~= Seq::<EvidenceV>::empty());
        while j < old_evidence.len()
            invariant
                evidence_view(old_evidence@) == es,
                cv == names_view(c@),
                forall|q: int| 0 <= q < cv.len() ==> context_ok(#[trigger] cv[q]),
                j <= old_evidence@.len(),
                evidence_view(kept@) == kept_evidence(es.take(j as int), o@, cv, now),
            decreases old_evidence@.len() - j,
        {
            proof {
                assert(es.take(j as int + 1).drop_last() =~= es.take(j as int));
                assert(es.take(j as int + 1).last() == es[j as int]);
            }
            let e = &old_evidence[j];
            let mut fits = e.until > now && has_origin(&o, &e.origin);
            if fits {
                let mut found = false;
                let mut m: usize = 0;
                while m < c.len() && !found
                    invariant
                        m <= c@.len(),
                        cv == names_view(c@),
                        forall|q: int| 0 <= q < cv.len() ==> context_ok(#[trigger] cv[q]),
                        found ==> exists|q: int| 0 <= q < c@.len() && (same_name(e@.owner, owner_labels(#[trigger] cv[q], true)) || same_name(e@.owner, owner_labels(cv[q], false))),
                        !found ==> forall|q: int| 0 <= q < m ==> !(same_name(e@.owner, owner_labels(#[trigger] cv[q], true)) || same_name(e@.owner, owner_labels(cv[q], false))),
                    decreases c@.len() - m + if found { 0int } else { 1int },
                {
                    proof {
                        reveal(canon_key);
                        reveal(context_ok);
                    }
                    let a = owner(&c[m], true);
                    let b = owner(&c[m], false);
                    let ec = e.owner.canonical();
                    let hit_a = match &a {
                        Ok(n) => same_bytes(ec, n.canonical()),
                        Err(_) => false,
                    };
                    let hit_b = match &b {
                        Ok(n) => same_bytes(ec, n.canonical()),
                        Err(_) => false,
                    };
                    assert(cv[m as int] == c@[m as int]@);
                    if hit_a || hit_b {
                        found = true;
                    } else {
                        m = m + 1;
                    }
                }
                fits = found;
            }
            if fits {
                let ghost before = kept@;
                kept.push(Evidence { origin: e.origin, owner: e.owner.clone(), target: e.target.clone(), until: e.until });
                assert(evidence_view(kept@) =~= evidence_view(before).push(es[j as int]));
            }
            j = j + 1;
        }
        assert(es.take(es.len() as int) =~= es);
        self.evidence = kept;
        self.active = Vec::new();
        self.cursor = 0;
        self.next = now;
        self.origins = o;
        self.contexts = c;
        proof {
            assert(probes_view(self.active@) =~= Seq::<ProbeV>::empty());
            assert(self@.contexts =~= cv);
            assert forall|q: int| 0 <= q < o@.len() implies usable(#[trigger] o@[q]) by {
                assert(o@.contains(o@[q]));
                assert(origins@.contains(o@[q]));
                let m = choose|m: int| 0 <= m < origins@.len() && #[trigger] origins@[m] == o@[q];
            }
            assert(self@ == spec_sync(old(self)@, o@, cv, now));
        }
        Ok(())
    }

    /// When the browser next has work (see `spec_next_deadline`).
    pub fn next_deadline(&self) -> (r: Option<u64>)
        ensures
            r == spec_next_deadline(self@),
    {
        if self.origins.len() == 0 || self.contexts.len() == 0 {
            return None;
        }
        let ghost ps = self@.active;
        let ghost es = self@.evidence;
        let mut m: Option<u64> = None;
        let mut i: usize = 0;
        while i < self.active.len()
            invariant
                ps == self@.active,
                i <= ps.len(),
                m == probes_min(ps.take(i as int), None),
            decreases ps.len() - i,
        {
            proof {
                assert(ps.take(i as int + 1).drop_last() =~= ps.take(i as int));
                assert(ps.take(i as int + 1).last() == ps[i as int]);
            }
            let u = self.active[i].until;
            m = match m {
                Some(x) => Some(if x < u { x } else { u }),
                None => Some(u),
            };
            i = i + 1;
        }
        assert(ps.take(ps.len() as int) =~= ps);
        let ghost pm = m;
        let mut j: usize = 0;
        while j < self.evidence.len()
            invariant
                es == self@.evidence,
                j <= es.len(),
                m == evidence_min(es.take(j as int), pm),
            decreases es.len() - j,
        {
            proof {
                assert(es.take(j as int + 1).drop_last() =~= es.take(j as int));
                assert(es.take(j as int + 1).last() == es[j as int]);
            }
            let u = self.evidence[j].until;
            m = match m {
                Some(x) => Some(if x < u { x } else { u }),
                None => Some(u),
            };
            j = j + 1;
        }
        assert(es.take(es.len() as int) =~= es);
        if self.active.len() < MAX_ACTIVE {
            let u = self.next;
            m = match m {
                Some(x) => Some(if x < u { x } else { u }),
                None => Some(u),
            };
        }
        m
    }

    /// Takes the answer `m` from `origin` to probe `id` (see `spec_complete`); refused with
    /// nothing changed where `spec_complete` gives none.
    pub fn complete(&mut self, id: u64, origin: SocketAddress, m: &Message, now: u64) -> (r: Result<(), Error>)
        requires
            old(self).wf(),
        ensures
            final(self).wf(),
            match spec_complete(old(self)@, id, origin, m@, now) {
                Some(t) => r is Ok && final(self)@ == t,
                None => r == Err::<(), Error>(Error::Invalid) && final(self)@ == old(self)@,
            },
    {
        let ghost ps = self@.active;
        let mut i: usize = 0;
        let mut at: Option<usize> = None;
        while i < self.active.len() && at.is_none()
            invariant
                self@ == old(self)@,
                ps == self@.active,
                i <= ps.len(),
                at matches Some(k) ==> k < ps.len() && probe_index(ps, id) == Some(k as int),
                at is None ==> probe_index(ps.take(i as int), id) is None,
            decreases ps.len() - i + if at is None { 1int } else { 0int },
        {
            proof {
                assert(ps.take(i as int + 1).drop_last() =~= ps.take(i as int));
                assert(ps.take(i as int + 1).last() == ps[i as int]);
            }
            if self.active[i].id == id {
                at = Some(i);
                proof {
                    lemma_probe_index_prefix(ps, i as int + 1, id);
                }
            } else {
                i = i + 1;
            }
        }
        let k = match at {
            Some(k) => k,
            None => {
                assert(ps.take(ps.len() as int) =~= ps);
                return Err(Error::Invalid);
            },
        };
        let ghost pv = ps[k as int];
        let p = &self.active[k];
        let counts_ok = m.answers.len() <= 64 && m.authority.len() <= 64 && m.additional.len() <= 64
            && m.answers.len() + m.authority.len() + m.additional.len() <= 64;
        let question_ok = m.questions.len() == 1 && same_name_exec(&m.questions[0].name, &p.question.name)
            && m.questions[0].kind == p.question.kind && m.questions[0].class == p.question.class;
        if !same_socket(&p.origin, &origin) || p.until <= now || m.flags & 0xfa0f != 0x8000 || !question_ok || !counts_ok {
            return Err(Error::Invalid);
        }
        let owner = p.question.name.clone();
        let ghost es0 = self@.evidence;
        let mut es: Vec<Evidence> = Vec::new();
        let mut j: usize = 0;
        assert(evidence_view(es@) =~= Seq::<EvidenceV>::empty());
        assert(es0.take(0) =~= Seq::<EvidenceV>::empty());
        while j < self.evidence.len()
            invariant
                self@ == old(self)@,
                es0 == self@.evidence,
                j <= es0.len(),
                owner@ == pv.question.name,
                evidence_view(es@) == fresh_evidence(es0.take(j as int), origin, owner@, now),
            decreases es0.len() - j,
        {
            proof {
                assert(es0.take(j as int + 1).drop_last() =~= es0.take(j as int));
                assert(es0.take(j as int + 1).last() == es0[j as int]);
            }
            let e = &self.evidence[j];
            if e.until > now && !(same_socket(&e.origin, &origin) && same_name_exec(&e.owner, &owner)) {
                let ghost before = es@;
                es.push(copy_evidence(e));
                assert(evidence_view(es@) =~= evidence_view(before).push(es0[j as int]));
            }
            j = j + 1;
        }
        assert(es0.take(es0.len() as int) =~= es0);
        let ghost start = evidence_view(es@);
        let ghost rs = m@.answers;
        let mut a: usize = 0;
        assert(rs.take(0) =~= Seq::<RecordV>::empty());
        while a < m.answers.len()
            invariant
                self@ == old(self)@,
                old(self)@.inv(),
                probe_index(old(self)@.active, id) == Some(k as int),
                pv == old(self)@.active[k as int],
                answer_fits(pv, origin, m@, now),
                start == fresh_evidence(old(self)@.evidence, origin, pv.question.name, now),
                rs == m@.answers,
                a <= rs.len(),
                rs.len() == m.answers@.len(),
                owner@ == pv.question.name,
                evidence_fold(start, origin, owner@, rs.take(a as int), now) == Some(evidence_view(es@)),
            decreases rs.len() - a,
        {
            proof {
                assert(rs.take(a as int + 1).drop_last() =~= rs.take(a as int));
                assert(rs.take(a as int + 1).last() == rs[a as int]);
                assert(rs[a as int] == m.answers@[a as int]@);
            }
            if !evidence_step_exec(&mut es, origin, &owner, &m.answers[a], now) {
                proof {
                    lemma_fold_stays_none(start, origin, owner@, rs, a as int + 1, now);
                    assert(rs.take(rs.len() as int) =~= rs);
                }
                return Err(Error::Invalid);
            }
            a = a + 1;
        }
        assert(rs.take(rs.len() as int) =~= rs);
        let ghost ev = evidence_view(es@);
        let mut least: Option<u64> = None;
        let mut q: usize = 0;
        while q < es.len()
            invariant
                ev == evidence_view(es@),
                q <= ev.len(),
                least == evidence_min(ev.take(q as int), None),
            decreases ev.len() - q,
        {
            proof {
                assert(ev.take(q as int + 1).drop_last() =~= ev.take(q as int));
                assert(ev.take(q as int + 1).last() == ev[q as int]);
            }
            let u = es[q].until;
            least = match least {
                Some(x) => Some(if x < u { x } else { u }),
                None => Some(u),
            };
            q = q + 1;
        }
        assert(ev.take(ev.len() as int) =~= ev);
        let next = match least {
            Some(u) => {
                let half = (if u > now { u - now } else { 0 }) / 2;
                let d = add_sat(now, if half < 1000 { 1000 } else { half });
                if d < self.next { d } else { self.next }
            },
            None => self.next,
        };
        let ghost act = self.active@;
        self.evidence = es;
        self.active.remove(k);
        self.next = next;
        proof {
            assert(probes_view(self.active@) =~= probes_view(act).remove(k as int));
        }
        Ok(())
    }

    /// The browsing domains the evidence names at `now` (see `spec_domains`), for legacy
    /// browsing only those under `lb` owners.
    pub fn domains(&self, legacy: bool, now: u64) -> (r: Vec<(Name, u32)>)
        ensures
            r@.map_values(|p: (Name, u32)| (p.0@, p.1)) == spec_domains(self@.evidence, legacy, now),
    {
        let ghost es = self@.evidence;
        let mut out: Vec<(Name, u32)> = Vec::new();
        let mut i: usize = 0;
        assert(out@.map_values(|p: (Name, u32)| (p.0@, p.1)) =~= spec_domains(es.take(0), legacy, now));
        while i < self.evidence.len()
            invariant
                es == self@.evidence,
                i <= es.len(),
                out@.map_values(|p: (Name, u32)| (p.0@, p.1)) == spec_domains(es.take(i as int), legacy, now),
                domains_sorted(spec_domains(es.take(i as int), legacy, now)),
            decreases es.len() - i,
        {
            let ghost u = out@.map_values(|p: (Name, u32)| (p.0@, p.1));
            let ghost ev = es[i as int];
            proof {
                assert(es.take(i as int + 1).drop_last() =~= es.take(i as int));
                assert(es.take(i as int + 1).last() == ev);
                lemma_domain_step_sorted(u, ev, legacy, now);
            }
            let e = &self.evidence[i];
            assert(ev.target == e.target@ && ev.owner == e.owner@ && ev.until == e.until);
            let lb = if !legacy {
                true
            } else {
                let ls = e.owner.labels();
                if ls.len() > 0 {
                    let l = &ls[0];
                    proof {
                        assert(ev.owner[0] == ls@[0]@);
                        if l@.len() == 2 {
                            assert(lower_label(l@) =~= seq![crate::dns::name::lower(l@[0]), crate::dns::name::lower(l@[1])]);
                        }
                    }
                    l.len() == 2 && (l[0] == 108 || l[0] == 76) && (l[1] == 98 || l[1] == 66)
                } else {
                    false
                }
            };
            let live = e.until > now;
            let ttl: u32 = if live { ((e.until - now) / 1000) as u32 } else { 0 };
            if live && lb && ttl > 0 {
                proof {
                    lemma_dom_place(u, ev.target);
                    reveal(canon_key);
                }
                let mut k: usize = 0;
                while k < out.len() && bytes_less(out[k].0.canonical(), e.target.canonical())
                    invariant
                        u == out@.map_values(|p: (Name, u32)| (p.0@, p.1)),
                        ev.target == e.target@,
                        k <= u.len(),
                        forall|j: int| 0 <= j < k ==> canon_lt(u[j].0, ev.target),
                    decreases u.len() - k,
                {
                    proof {
                        reveal(canon_key);
                        assert(u[k as int].0 == out@[k as int].0@);
                    }
                    k = k + 1;
                }
                proof {
                    reveal(canon_key);
                    if k < u.len() {
                        assert(u[k as int].0 == out@[k as int].0@);
                    }
                    let p = dom_place(u, ev.target);
                    if k < p {
                        assert(canon_lt(u[k as int].0, ev.target));
                    }
                    if p < k {
                        assert(canon_lt(u[p].0, ev.target));
                    }
                    assert(k == p);
                }
                let dup = k < out.len() && same_name_exec(&out[k].0, &e.target);
                if dup {
                    if out[k].1 < ttl {
                        let t = out[k].0.clone();
                        out.set(k, (t, ttl));
                    }
                } else {
                    out.insert(k, (e.target.clone(), ttl));
                }
                proof {
                    assert(out@.map_values(|p: (Name, u32)| (p.0@, p.1)) =~= domain_step(u, ev, legacy, now));
                }
            } else {
                proof {
                    if legacy && ev.owner.len() > 0 && lower_label(ev.owner[0]) == seq![108u8, 98] {
                        assert(lower_label(ev.owner[0]).len() == 2);
                    }
                    assert(!qualifies(ev, legacy, now));
                }
            }
            i = i + 1;
        }
        assert(es.take(es.len() as int) =~= es);
        out
    }
}

} // verus!
