//! Bounded forwarding transactions. Packet and stream adapters execute the returned actions.
use crate::dns::name::{canonical_wire, Name};
use crate::dns::privacy::policy::{contains_socket, origin_ok};
use crate::dns::privacy::{origin_usable, IpAddress, SocketAddress};
use crate::dns::upstream::discovery::push_new;
use crate::dns::upstream::names_view;
use crate::dns::wire::{Message, MessageV, Question, QuestionV, MAX_WIRE};
use crate::time::RandomSource;
use crate::mdns::advertise::within;
use crate::error::Error;
use crate::mdns::cache::store::{bytes_less, bytes_lt, lemma_bytes_lt_irreflexive, lemma_bytes_lt_total, lemma_bytes_lt_transitive};
use vstd::prelude::*;

pub mod reply;

use reply::{all_records, put32, put_u32, record_at, spec_client_limit, spec_deliver, spec_rcode};
use crate::mdns::advertise::spec_within;
use crate::dns::privacy::{ip_multicast, ip_unspecified};
use crate::dns::wire::{parse_message, records_view, Context, Rdata, RdataV, Record, RecordV, SpanV};

verus! {

/// Who asked: its address, the stream connection it came over (none for a datagram), and the
/// local address it reached.
#[derive(Clone, Copy, Debug)]
pub struct Client {
    pub address: SocketAddress,
    pub connection: Option<usize>,
    pub local: Option<IpAddress>,
}

impl Client {
    /// A datagram client.
    pub fn udp(address: SocketAddress) -> (r: Client)
        ensures
            r == (Client { address, connection: None, local: None }),
    {
        Client { address, connection: None, local: None }
    }

    /// A client on stream connection `connection`.
    pub fn tcp(address: SocketAddress, connection: usize) -> (r: Client)
        ensures
            r == (Client { address, connection: Some(connection), local: None }),
    {
        Client { address, connection: Some(connection), local: None }
    }
}

/// A query to forward upstream: the exchange it belongs to, the server, the local port to
/// send from, whether over a stream, and the message.
#[derive(Debug)]
pub struct UpstreamQuery {
    pub exchange: u64,
    pub server: SocketAddress,
    pub source_port: u16,
    pub tcp: bool,
    pub bytes: Vec<u8>,
}

pub struct UpstreamQueryV {
    pub exchange: u64,
    pub server: SocketAddress,
    pub source_port: u16,
    pub tcp: bool,
    pub bytes: Seq<u8>,
}

impl View for UpstreamQuery {
    type V = UpstreamQueryV;

    open spec fn view(&self) -> UpstreamQueryV {
        UpstreamQueryV {
            exchange: self.exchange,
            server: self.server,
            source_port: self.source_port,
            tcp: self.tcp,
            bytes: self.bytes@,
        }
    }
}

impl Clone for UpstreamQuery {
    fn clone(&self) -> (r: UpstreamQuery)
        ensures
            r@ == self@,
    {
        UpstreamQuery {
            exchange: self.exchange,
            server: self.server,
            source_port: self.source_port,
            tcp: self.tcp,
            bytes: vstd::slice::slice_to_vec(self.bytes.as_slice()),
        }
    }
}

/// What the adapters are to do: send a query upstream, or a reply to a client.
#[derive(Debug)]
pub enum Action {
    Upstream(UpstreamQuery),
    Reply { client: Client, bytes: Vec<u8> },
}

pub enum ActionV {
    Upstream(UpstreamQueryV),
    Reply { client: Client, bytes: Seq<u8> },
}

impl View for Action {
    type V = ActionV;

    open spec fn view(&self) -> ActionV {
        match self {
            Action::Upstream(q) => ActionV::Upstream(q@),
            Action::Reply { client, bytes } => ActionV::Reply { client: *client, bytes: bytes@ },
        }
    }
}

pub open spec fn actions_view(v: Seq<Action>) -> Seq<ActionV> {
    v.map_values(|a: Action| a@)
}

/// Most transactions in flight.
pub const PENDING: usize = 128;

/// Most clients waiting on them.
pub const WAITERS: usize = 256;

/// Most record sets the cache holds.
pub const CACHE_SETS: usize = 1024;

/// The memory budget of the transactions and of the cache, each.
pub const BYTES: usize = 4194304;

/// A client waiting for an answer: where to reply, under which ID, and at most how large.
#[derive(Clone, Copy, Debug)]
pub struct Waiter {
    pub client: Client,
    pub id: u16,
    pub limit: usize,
}

/// A transaction in flight: its cache key, the client's query, the query upstream, the
/// question it asks, who waits, when it gives up and when it retries, the attempt, and, while
/// an additional A lookup runs, the answer it completes.
struct Pending {
    key: Vec<u8>,
    original: Message,
    query: UpstreamQuery,
    question: Question,
    waiters: Vec<Waiter>,
    deadline: u64,
    retry: u64,
    attempt: u8,
    base: Option<Vec<u8>>,
}

pub struct PendingV {
    pub key: Seq<u8>,
    pub original: MessageV,
    pub query: UpstreamQueryV,
    pub question: QuestionV,
    pub waiters: Seq<Waiter>,
    pub deadline: u64,
    pub retry: u64,
    pub attempt: u8,
    pub base: Option<Seq<u8>>,
}

pub open spec fn opt_bytes(b: Option<Vec<u8>>) -> Option<Seq<u8>> {
    match b {
        Some(v) => Some(v@),
        None => None,
    }
}

impl View for Pending {
    type V = PendingV;

    closed spec fn view(&self) -> PendingV {
        PendingV {
            key: self.key@,
            original: self.original@,
            query: self.query@,
            question: self.question@,
            waiters: self.waiters@,
            deadline: self.deadline,
            retry: self.retry,
            attempt: self.attempt,
            base: opt_bytes(self.base),
        }
    }
}

/// A cached answer under its key: the bytes, when stored, when it expires, when last used,
/// and how many record sets it holds.
struct CacheEntry {
    key: Vec<u8>,
    wire: Vec<u8>,
    inserted: u64,
    expires: u64,
    last: u64,
    sets: usize,
}

pub struct CacheEntryV {
    pub key: Seq<u8>,
    pub wire: Seq<u8>,
    pub inserted: u64,
    pub expires: u64,
    pub last: u64,
    pub sets: nat,
}

impl View for CacheEntry {
    type V = CacheEntryV;

    closed spec fn view(&self) -> CacheEntryV {
        CacheEntryV {
            key: self.key@,
            wire: self.wire@,
            inserted: self.inserted,
            expires: self.expires,
            last: self.last,
            sets: self.sets as nat,
        }
    }
}

/// Queries counted from one client address until a time.
#[derive(Clone, Copy, Debug)]
pub struct Rate {
    pub ip: IpAddress,
    pub until: u64,
    pub count: u8,
}

pub open spec fn pendings_view(v: Seq<Pending>) -> Seq<PendingV> {
    v.map_values(|p: Pending| p@)
}

pub open spec fn entries_view(v: Seq<CacheEntry>) -> Seq<CacheEntryV> {
    v.map_values(|c: CacheEntry| c@)
}

/// The forwarder: local zones it answers for, upstream resolvers, transactions in flight
/// ordered by exchange, the cache ordered by key, the exchange counter and per-client rates.
pub struct Resolver {
    additional_a: bool,
    local_zones: Vec<Name>,
    upstreams: Vec<SocketAddress>,
    pending: Vec<Pending>,
    cache: Vec<CacheEntry>,
    next: u64,
    rates: Vec<Rate>,
}

pub struct ResolverV {
    pub additional_a: bool,
    pub local_zones: Seq<Seq<Seq<u8>>>,
    pub upstreams: Seq<SocketAddress>,
    pub pending: Seq<PendingV>,
    pub cache: Seq<CacheEntryV>,
    pub next: u64,
    pub rates: Seq<Rate>,
}

impl View for Resolver {
    type V = ResolverV;

    closed spec fn view(&self) -> ResolverV {
        ResolverV {
            additional_a: self.additional_a,
            local_zones: names_view(self.local_zones@),
            upstreams: self.upstreams@,
            pending: pendings_view(self.pending@),
            cache: entries_view(self.cache@),
            next: self.next,
            rates: self.rates@,
        }
    }
}

/// What a transaction is charged: a fixed part, its key, sixteen octets per octet of the
/// messages it keeps, and a kilobyte per waiter.
pub open spec fn charge(p: PendingV) -> int {
    1024 + p.key.len() + 16 * p.original.original.len() + 16 * p.query.bytes.len() + 16 * (match p.base {
        Some(b) => b.len() as int,
        None => 0,
    }) + 1024 * p.waiters.len()
}

pub open spec fn pending_bytes(ps: Seq<PendingV>) -> int
    decreases ps.len(),
{
    if ps.len() == 0 {
        0
    } else {
        pending_bytes(ps.drop_last()) + charge(ps.last())
    }
}

pub open spec fn waiter_count(ps: Seq<PendingV>) -> int
    decreases ps.len(),
{
    if ps.len() == 0 {
        0
    } else {
        waiter_count(ps.drop_last()) + ps.last().waiters.len()
    }
}

pub open spec fn cache_sets(cs: Seq<CacheEntryV>) -> int
    decreases cs.len(),
{
    if cs.len() == 0 {
        0
    } else {
        cache_sets(cs.drop_last()) + cs.last().sets
    }
}

/// What a cache entry is charged: its key, its bytes and a fixed part.
pub open spec fn entry_bytes(c: CacheEntryV) -> int {
    (c.key.len() + c.wire.len() + 128) as int
}

pub open spec fn cache_bytes(cs: Seq<CacheEntryV>) -> int
    decreases cs.len(),
{
    if cs.len() == 0 {
        0
    } else {
        cache_bytes(cs.drop_last()) + entry_bytes(cs.last())
    }
}

/// Transactions in strictly increasing exchange order.
pub open spec fn exchanges_sorted(ps: Seq<PendingV>) -> bool {
    forall|i: int, j: int| 0 <= i < j < ps.len() ==> (#[trigger] ps[i]).query.exchange < (#[trigger] ps[j]).query.exchange
}

/// Cache entries in strictly increasing key order.
pub open spec fn keys_sorted(cs: Seq<CacheEntryV>) -> bool {
    forall|i: int, j: int| 0 <= i < j < cs.len() ==> bytes_lt((#[trigger] cs[i]).key, (#[trigger] cs[j]).key)
}

/// At most one rate per client address.
pub open spec fn rates_unique(rs: Seq<Rate>) -> bool {
    forall|i: int, j: int| 0 <= i < j < rs.len() ==> (#[trigger] rs[i]).ip != (#[trigger] rs[j]).ip
}

impl ResolverV {
    /// The forwarder's bounds: at most eight local zones and eight usable upstreams, each
    /// once; transactions and cache in order and within their budgets; at most 32 rates.
    pub open spec fn wf(self) -> bool {
        &&& self.local_zones.len() <= 8
        &&& self.upstreams.len() <= 8
        &&& forall|i: int| 0 <= i < self.upstreams.len() ==> origin_ok(#[trigger] self.upstreams[i])
        &&& forall|i: int, j: int| 0 <= i < j < self.upstreams.len() ==> self.upstreams[i] != self.upstreams[j]
        &&& exchanges_sorted(self.pending)
        &&& self.pending.len() <= PENDING
        &&& waiter_count(self.pending) <= WAITERS
        &&& pending_bytes(self.pending) <= BYTES
        &&& keys_sorted(self.cache)
        &&& cache_sets(self.cache) <= CACHE_SETS
        &&& cache_bytes(self.cache) <= BYTES
        &&& rates_unique(self.rates)
        &&& self.rates.len() <= 32
    }
}

pub proof fn lemma_sums_nonneg(ps: Seq<PendingV>, cs: Seq<CacheEntryV>)
    ensures
        pending_bytes(ps) >= 0,
        waiter_count(ps) >= 0,
        cache_sets(cs) >= 0,
        cache_bytes(cs) >= 0,
    decreases ps.len() + cs.len(),
{
    if ps.len() > 0 {
        lemma_sums_nonneg(ps.drop_last(), cs);
    } else if cs.len() > 0 {
        lemma_sums_nonneg(ps, cs.drop_last());
    }
}

impl Resolver {
    pub open spec fn wf(&self) -> bool {
        self@.wf()
    }

    /// An empty forwarder, with the additional A lookup on or off.
    pub fn new(additional_a: bool) -> (r: Resolver)
        ensures
            r.wf(),
            r@ == (ResolverV {
                additional_a,
                local_zones: Seq::empty(),
                upstreams: Seq::empty(),
                pending: Seq::empty(),
                cache: Seq::empty(),
                next: 0,
                rates: Seq::empty(),
            }),
    {
        let r = Resolver {
            additional_a,
            local_zones: Vec::new(),
            upstreams: Vec::new(),
            pending: Vec::new(),
            cache: Vec::new(),
            next: 0,
            rates: Vec::new(),
        };
        assert(r@.local_zones =~= Seq::<Seq<Seq<u8>>>::empty());
        assert(r@.pending =~= Seq::<PendingV>::empty());
        assert(r@.cache =~= Seq::<CacheEntryV>::empty());
        r
    }

    fn clear_cache(&mut self)
        requires
            old(self).wf(),
        ensures
            final(self).wf(),
            final(self)@ == (ResolverV { cache: Seq::empty(), ..old(self)@ }),
    {
        self.cache.clear();
        assert(self@.cache =~= Seq::<CacheEntryV>::empty());
    }

    /// Answers for names under the given zones (at most eight, none the root) with NXDOMAIN
    /// from now on; the cache is emptied. Anything else is refused and changes nothing.
    pub fn set_local_zones(&mut self, zones: &Vec<Name>) -> (r: Result<(), Error>)
        requires
            old(self).wf(),
        ensures
            final(self).wf(),
            r is Ok <==> (zones@.len() <= 8 && forall|i: int| 0 <= i < zones@.len() ==> (#[trigger] zones@[i])@.len() > 0),
            r is Ok ==> final(self)@ == (ResolverV { local_zones: names_view(zones@), cache: Seq::empty(), ..old(self)@ }),
            r is Err ==> r == Err::<(), Error>(Error::Invalid) && final(self)@ == old(self)@,
    {
        if zones.len() > 8 {
            return Err(Error::Invalid);
        }
        let mut i: usize = 0;
        while i < zones.len()
            invariant
                i <= zones@.len(),
                self@ == old(self)@,
                old(self).wf(),
                forall|k: int| 0 <= k < i ==> (#[trigger] zones@[k])@.len() > 0,
            decreases zones@.len() - i,
        {
            if zones[i].label_count() == 0 {
                return Err(Error::Invalid);
            }
            i = i + 1;
        }
        let mut copy: Vec<Name> = Vec::new();
        let mut k: usize = 0;
        while k < zones.len()
            invariant
                k <= zones@.len(),
                names_view(copy@) == names_view(zones@).take(k as int),
            decreases zones@.len() - k,
        {
            let ghost before = names_view(copy@);
            copy.push(zones[k].clone());
            assert(names_view(copy@) =~= before.push(zones@[k as int]@));
            k = k + 1;
            assert(names_view(copy@) =~= names_view(zones@).take(k as int));
        }
        assert(names_view(zones@).take(k as int) =~= names_view(zones@));
        self.local_zones = copy;
        self.clear_cache();
        Ok(())
    }

    /// Turns the additional A lookup on or off; a change empties the cache.
    pub fn set_additional_a(&mut self, enabled: bool)
        requires
            old(self).wf(),
        ensures
            final(self).wf(),
            final(self)@ == (ResolverV {
                additional_a: enabled,
                cache: if old(self)@.additional_a != enabled { Seq::empty() } else { old(self)@.cache },
                ..old(self)@
            }),
    {
        if self.additional_a != enabled {
            self.clear_cache();
        }
        self.additional_a = enabled;
    }
}

/// The list without repeats, first occurrences kept in order.
pub open spec fn dedup_sockets(s: Seq<SocketAddress>) -> Seq<SocketAddress>
    decreases s.len(),
{
    if s.len() == 0 {
        Seq::empty()
    } else {
        push_new(dedup_sockets(s.drop_last()), s.last())
    }
}

proof fn lemma_dedup(s: Seq<SocketAddress>)
    ensures
        dedup_sockets(s).len() <= s.len(),
        forall|i: int, j: int| 0 <= i < j < dedup_sockets(s).len() ==> dedup_sockets(s)[i] != dedup_sockets(s)[j],
        forall|i: int| 0 <= i < dedup_sockets(s).len() ==> s.contains(#[trigger] dedup_sockets(s)[i]),
    decreases s.len(),
{
    if s.len() > 0 {
        lemma_dedup(s.drop_last());
        let d = dedup_sockets(s.drop_last());
        assert forall|i: int| 0 <= i < dedup_sockets(s).len() implies s.contains(#[trigger] dedup_sockets(s)[i]) by {
            if i < d.len() {
                assert(dedup_sockets(s)[i] == d[i]);
                let k = choose|k: int| 0 <= k < s.drop_last().len() && s.drop_last()[k] == d[i];
                assert(s[k] == d[i]);
            } else {
                assert(s[s.len() - 1] == s.last());
            }
        }
    }
}

fn same_sockets(a: &Vec<SocketAddress>, b: &Vec<SocketAddress>) -> (r: bool)
    ensures
        r == (a@ == b@),
{
    if a.len() != b.len() {
        return false;
    }
    let mut i: usize = 0;
    while i < a.len()
        invariant
            a@.len() == b@.len(),
            i <= a@.len(),
            forall|k: int| 0 <= k < i ==> a@[k] == b@[k],
        decreases a@.len() - i,
    {
        if !crate::dns::privacy::policy::same_socket(&a[i], &b[i]) {
            return false;
        }
        i = i + 1;
    }
    assert(a@ =~= b@);
    true
}

impl Resolver {
    /// Forwards to the given resolvers (at most eight, each with a port and a unicast
    /// address), repeats dropped; a different list empties the cache. Anything else is
    /// refused and changes nothing.
    pub fn set_upstreams(&mut self, endpoints: &[SocketAddress]) -> (r: Result<(), Error>)
        requires
            old(self).wf(),
        ensures
            final(self).wf(),
            r is Ok <==> (endpoints@.len() <= 8 && forall|i: int| 0 <= i < endpoints@.len() ==> origin_ok(#[trigger] endpoints@[i])),
            r is Ok ==> final(self)@ == (ResolverV {
                upstreams: dedup_sockets(endpoints@),
                cache: if dedup_sockets(endpoints@) != old(self)@.upstreams { Seq::empty() } else { old(self)@.cache },
                ..old(self)@
            }),
            r is Err ==> r == Err::<(), Error>(Error::Invalid) && final(self)@ == old(self)@,
    {
        if endpoints.len() > 8 {
            return Err(Error::Invalid);
        }
        let mut i: usize = 0;
        while i < endpoints.len()
            invariant
                i <= endpoints@.len(),
                self@ == old(self)@,
                old(self).wf(),
                forall|k: int| 0 <= k < i ==> origin_ok(#[trigger] endpoints@[k]),
            decreases endpoints@.len() - i,
        {
            if !origin_usable(&endpoints[i]) {
                return Err(Error::Invalid);
            }
            i = i + 1;
        }
        let mut unique: Vec<SocketAddress> = Vec::new();
        let mut k: usize = 0;
        while k < endpoints.len()
            invariant
                k <= endpoints@.len(),
                unique@ == dedup_sockets(endpoints@.take(k as int)),
            decreases endpoints@.len() - k,
        {
            assert(endpoints@.take(k + 1).drop_last() =~= endpoints@.take(k as int));
            if !contains_socket(unique.as_slice(), &endpoints[k]) {
                unique.push(endpoints[k]);
            }
            k = k + 1;
        }
        assert(endpoints@.take(k as int) =~= endpoints@);
        proof {
            lemma_dedup(endpoints@);
            assert forall|j: int| 0 <= j < unique@.len() implies origin_ok(#[trigger] unique@[j]) by {
                assert(endpoints@.contains(unique@[j]));
            }
        }
        if !same_sockets(&unique, &self.upstreams) {
            self.clear_cache();
        }
        self.upstreams = unique;
        Ok(())
    }

    /// The upstream resolvers.
    pub fn upstreams(&self) -> (r: &[SocketAddress])
        ensures
            r@ == self@.upstreams,
    {
        self.upstreams.as_slice()
    }

    /// How many clients' rates are tracked.
    pub fn rate_entries(&self) -> (r: usize)
        ensures
            r == self@.rates.len(),
    {
        self.rates.len()
    }

    /// How many transactions are in flight.
    pub fn pending_count(&self) -> (r: usize)
        ensures
            r == self@.pending.len(),
    {
        proof {
            assert(self@.pending.len() == self.pending@.len());
        }
        self.pending.len()
    }
}

proof fn lemma_waiters_prefix(ps: Seq<PendingV>, i: int)
    requires
        0 <= i <= ps.len(),
    ensures
        waiter_count(ps.take(i)) <= waiter_count(ps),
        pending_bytes(ps.take(i)) <= pending_bytes(ps),
    decreases ps.len() - i,
{
    if i < ps.len() {
        lemma_waiters_prefix(ps, i + 1);
        assert(ps.take(i + 1).drop_last() =~= ps.take(i));
    } else {
        assert(ps.take(i) =~= ps);
    }
}

proof fn lemma_cache_prefix(cs: Seq<CacheEntryV>, i: int)
    requires
        0 <= i <= cs.len(),
    ensures
        cache_sets(cs.take(i)) <= cache_sets(cs),
        cache_bytes(cs.take(i)) <= cache_bytes(cs),
    decreases cs.len() - i,
{
    if i < cs.len() {
        lemma_cache_prefix(cs, i + 1);
        assert(cs.take(i + 1).drop_last() =~= cs.take(i));
    } else {
        assert(cs.take(i) =~= cs);
    }
}

/// The earliest time anything is due: a transaction's retry or deadline, or a cache expiry.
pub open spec fn pending_due(ps: Seq<PendingV>) -> Option<u64>
    decreases ps.len(),
{
    if ps.len() == 0 {
        None
    } else {
        let p = ps.last();
        let t = if p.retry <= p.deadline { p.retry } else { p.deadline };
        crate::dns::upstream::discovery::min_option(pending_due(ps.drop_last()), Some(t))
    }
}

pub open spec fn cache_due(cs: Seq<CacheEntryV>) -> Option<u64>
    decreases cs.len(),
{
    if cs.len() == 0 {
        None
    } else {
        crate::dns::upstream::discovery::min_option(cache_due(cs.drop_last()), Some(cs.last().expires))
    }
}

/// The waiters not on stream connection `id`.
pub open spec fn keep_waiters(ws: Seq<Waiter>, id: usize) -> Seq<Waiter>
    decreases ws.len(),
{
    if ws.len() == 0 {
        ws
    } else {
        let prev = keep_waiters(ws.drop_last(), id);
        if ws.last().client.connection == Some(id) {
            prev
        } else {
            prev.push(ws.last())
        }
    }
}

/// The transactions without the waiters on connection `id`; those left without a waiter go.
pub open spec fn cancel_pending(ps: Seq<PendingV>, id: usize) -> Seq<PendingV>
    decreases ps.len(),
{
    if ps.len() == 0 {
        ps
    } else {
        let prev = cancel_pending(ps.drop_last(), id);
        let p = ps.last();
        let ws = keep_waiters(p.waiters, id);
        if ws.len() == 0 {
            prev
        } else {
            prev.push(PendingV { waiters: ws, ..p })
        }
    }
}

proof fn lemma_keep_waiters(ws: Seq<Waiter>, id: usize)
    ensures
        keep_waiters(ws, id).len() <= ws.len(),
    decreases ws.len(),
{
    if ws.len() > 0 {
        lemma_keep_waiters(ws.drop_last(), id);
    }
}

proof fn lemma_cancel_pending(ps: Seq<PendingV>, id: usize)
    requires
        exchanges_sorted(ps),
    ensures
        exchanges_sorted(cancel_pending(ps, id)),
        cancel_pending(ps, id).len() <= ps.len(),
        waiter_count(cancel_pending(ps, id)) <= waiter_count(ps),
        pending_bytes(cancel_pending(ps, id)) <= pending_bytes(ps),
        forall|i: int| 0 <= i < cancel_pending(ps, id).len() ==> exists|j: int| 0 <= j < ps.len()
            && (#[trigger] cancel_pending(ps, id)[i]).query == ps[j].query,
    decreases ps.len(),
{
    if ps.len() > 0 {
        let d = ps.drop_last();
        assert(exchanges_sorted(d)) by {
            assert forall|i: int, j: int| 0 <= i < j < d.len() implies (#[trigger] d[i]).query.exchange < (#[trigger] d[j]).query.exchange by {
                assert(d[i] == ps[i] && d[j] == ps[j]);
            }
        }
        lemma_cancel_pending(d, id);
        lemma_keep_waiters(ps.last().waiters, id);
        let prev = cancel_pending(d, id);
        let out = cancel_pending(ps, id);
        assert forall|i: int| 0 <= i < out.len() implies exists|j: int| 0 <= j < ps.len() && (#[trigger] out[i]).query == ps[j].query by {
            if i < prev.len() {
                assert(out[i] == prev[i]);
                let j = choose|j: int| 0 <= j < d.len() && prev[i].query == d[j].query;
                assert(d[j] == ps[j]);
            } else {
                assert(out[i].query == ps[ps.len() - 1].query);
            }
        }
        if keep_waiters(ps.last().waiters, id).len() > 0 {
            assert forall|i: int, j: int| 0 <= i < j < out.len() implies (#[trigger] out[i]).query.exchange < (#[trigger] out[j]).query.exchange by {
                assert(out[i] == prev[i]);
                if j < prev.len() {
                    assert(out[j] == prev[j]);
                } else {
                    let k = choose|k: int| 0 <= k < d.len() && prev[i].query == d[k].query;
                    assert(d[k] == ps[k]);
                    assert(ps[k].query.exchange < ps[ps.len() - 1].query.exchange);
                }
            }
            assert(out.drop_last() =~= prev);
        }
    }
}

impl Resolver {
    /// How many clients wait on transactions.
    pub fn waiter_count(&self) -> (r: usize)
        requires
            self.wf(),
        ensures
            r == waiter_count(self@.pending),
    {
        let ghost ps = self@.pending;
        let mut total: usize = 0;
        let mut i: usize = 0;
        while i < self.pending.len()
            invariant
                i <= self.pending@.len(),
                ps == pendings_view(self.pending@),
                waiter_count(ps) <= WAITERS,
                total == waiter_count(ps.take(i as int)),
            decreases self.pending@.len() - i,
        {
            proof {
                assert(ps.take(i + 1).drop_last() =~= ps.take(i as int));
                assert(ps[i as int] == self.pending@[i as int]@);
                lemma_waiters_prefix(ps, i + 1);
                lemma_sums_nonneg(ps.take(i as int), Seq::empty());
            }
            total = total + self.pending[i].waiters.len();
            i = i + 1;
        }
        assert(ps.take(i as int) =~= ps);
        total
    }

    /// What the transactions are charged in all.
    pub fn pending_bytes(&self) -> (r: usize)
        requires
            self.wf(),
        ensures
            r == pending_bytes(self@.pending),
    {
        let ghost ps = self@.pending;
        let mut total: usize = 0;
        let mut i: usize = 0;
        while i < self.pending.len()
            invariant
                i <= self.pending@.len(),
                ps == pendings_view(self.pending@),
                pending_bytes(ps) <= BYTES,
                total == pending_bytes(ps.take(i as int)),
            decreases self.pending@.len() - i,
        {
            proof {
                assert(ps.take(i + 1).drop_last() =~= ps.take(i as int));
                assert(ps[i as int] == self.pending@[i as int]@);
                lemma_waiters_prefix(ps, i + 1);
                lemma_sums_nonneg(ps.take(i as int), Seq::empty());
            }
            let c = self.pending[i].charge_exec();
            total = total + c;
            i = i + 1;
        }
        assert(ps.take(i as int) =~= ps);
        total
    }

    /// How many record sets the cache holds.
    pub fn cache_sets(&self) -> (r: usize)
        requires
            self.wf(),
        ensures
            r == cache_sets(self@.cache),
    {
        let ghost cs = self@.cache;
        let mut total: usize = 0;
        let mut i: usize = 0;
        while i < self.cache.len()
            invariant
                i <= self.cache@.len(),
                cs == entries_view(self.cache@),
                cache_sets(cs) <= CACHE_SETS,
                total == cache_sets(cs.take(i as int)),
            decreases self.cache@.len() - i,
        {
            proof {
                assert(cs.take(i + 1).drop_last() =~= cs.take(i as int));
                assert(cs[i as int] == self.cache@[i as int]@);
                lemma_cache_prefix(cs, i + 1);
                lemma_sums_nonneg(Seq::empty(), cs.take(i as int));
            }
            total = total + self.cache[i].sets;
            i = i + 1;
        }
        assert(cs.take(i as int) =~= cs);
        total
    }

    /// What the cache is charged in all.
    pub fn cache_bytes(&self) -> (r: usize)
        requires
            self.wf(),
        ensures
            r == cache_bytes(self@.cache),
    {
        let ghost cs = self@.cache;
        let mut total: usize = 0;
        let mut i: usize = 0;
        while i < self.cache.len()
            invariant
                i <= self.cache@.len(),
                cs == entries_view(self.cache@),
                cache_bytes(cs) <= BYTES,
                total == cache_bytes(cs.take(i as int)),
            decreases self.cache@.len() - i,
        {
            proof {
                assert(cs.take(i + 1).drop_last() =~= cs.take(i as int));
                assert(cs[i as int] == self.cache@[i as int]@);
                lemma_cache_prefix(cs, i + 1);
                lemma_sums_nonneg(Seq::empty(), cs.take(i as int));
            }
            let e = &self.cache[i];
            total = total + e.key.len() + e.wire.len() + 128;
            i = i + 1;
        }
        assert(cs.take(i as int) =~= cs);
        total
    }

    /// When something is next due, if anything is.
    pub fn next_deadline(&self) -> (r: Option<u64>)
        ensures
            r == crate::dns::upstream::discovery::min_option(pending_due(self@.pending), cache_due(self@.cache)),
    {
        let ghost ps = self@.pending;
        let ghost cs = self@.cache;
        let mut a: Option<u64> = None;
        let mut i: usize = 0;
        while i < self.pending.len()
            invariant
                i <= self.pending@.len(),
                ps == pendings_view(self.pending@),
                a == pending_due(ps.take(i as int)),
            decreases self.pending@.len() - i,
        {
            proof {
                assert(ps.take(i + 1).drop_last() =~= ps.take(i as int));
                assert(ps[i as int] == self.pending@[i as int]@);
            }
            let p = &self.pending[i];
            let t = if p.retry <= p.deadline { p.retry } else { p.deadline };
            a = match a {
                None => Some(t),
                Some(x) => Some(if x <= t { x } else { t }),
            };
            i = i + 1;
        }
        assert(ps.take(i as int) =~= ps);
        let mut b: Option<u64> = None;
        let mut k: usize = 0;
        while k < self.cache.len()
            invariant
                k <= self.cache@.len(),
                cs == entries_view(self.cache@),
                b == cache_due(cs.take(k as int)),
            decreases self.cache@.len() - k,
        {
            proof {
                assert(cs.take(k + 1).drop_last() =~= cs.take(k as int));
                assert(cs[k as int] == self.cache@[k as int]@);
            }
            let t = self.cache[k].expires;
            b = match b {
                None => Some(t),
                Some(x) => Some(if x <= t { x } else { t }),
            };
            k = k + 1;
        }
        assert(cs.take(k as int) =~= cs);
        match (a, b) {
            (None, _) => b,
            (_, None) => a,
            (Some(x), Some(y)) => Some(if x <= y { x } else { y }),
        }
    }

    /// Whether a client on stream connection `id` waits on a transaction.
    pub fn connection_pending(&self, id: usize) -> (r: bool)
        ensures
            r == exists|i: int, j: int| 0 <= i < self@.pending.len() && 0 <= j < self@.pending[i].waiters.len()
                && (#[trigger] self@.pending[i].waiters[j]).client.connection == Some(id),
    {
        let ghost ps = self@.pending;
        let mut i: usize = 0;
        while i < self.pending.len()
            invariant
                i <= self.pending@.len(),
                ps == pendings_view(self.pending@),
                ps == self@.pending,
                forall|a: int, b: int| 0 <= a < i && 0 <= b < ps[a].waiters.len() ==> (#[trigger] ps[a].waiters[b]).client.connection
                    != Some(id),
            decreases self.pending@.len() - i,
        {
            let ws = &self.pending[i].waiters;
            assert(ps[i as int] == self.pending@[i as int]@);
            let mut k: usize = 0;
            while k < ws.len()
                invariant
                    k <= ws@.len(),
                    i < self.pending@.len(),
                    ps == self@.pending,
                    ws@ == ps[i as int].waiters,
                    forall|b: int| 0 <= b < k ==> (#[trigger] ws@[b]).client.connection != Some(id),
                decreases ws@.len() - k,
            {
                let same = match ws[k].client.connection {
                    Some(c) => c == id,
                    None => false,
                };
                if same {
                    assert(ps[i as int].waiters[k as int].client.connection == Some(id));
                    return true;
                }
                k = k + 1;
            }
            i = i + 1;
        }
        false
    }

    /// Drops the waiters on stream connection `id`; transactions left without a waiter end.
    pub fn cancel_connection(&mut self, id: usize)
        requires
            old(self).wf(),
        ensures
            final(self).wf(),
            final(self)@ == (ResolverV { pending: cancel_pending(old(self)@.pending, id), ..old(self)@ }),
    {
        let ghost ps = self@.pending;
        let mut rest: Vec<Pending> = Vec::new();
        std::mem::swap(&mut rest, &mut self.pending);
        let mut kept: Vec<Pending> = Vec::new();
        assert(pendings_view(rest@) =~= ps.skip(0));
        assert(pendings_view(kept@) =~= cancel_pending(ps.take(0), id));
        while rest.len() > 0
            invariant
                ps.len() >= rest@.len(),
                pendings_view(rest@) == ps.skip(ps.len() - rest@.len()),
                pendings_view(kept@) == cancel_pending(ps.take(ps.len() - rest@.len()), id),
            decreases rest@.len(),
        {
            let ghost k = ps.len() - rest@.len();
            let ghost rv = pendings_view(rest@);
            assert(rv[0] == ps[k]);
            let ghost r0 = rest@;
            let mut p = rest.remove(0);
            assert(rest@ =~= r0.drop_first());
            assert(pendings_view(rest@) =~= rv.drop_first());
            assert(rv.drop_first() =~= ps.skip(k + 1));
            assert(p@ == ps[k]);
            let ghost pv = p@;
            let mut ws: Vec<Waiter> = Vec::new();
            let mut j: usize = 0;
            while j < p.waiters.len()
                invariant
                    j <= p.waiters@.len(),
                    p@ == pv,
                    ws@ == keep_waiters(pv.waiters.take(j as int), id),
                decreases p.waiters@.len() - j,
            {
                assert(pv.waiters.take(j + 1).drop_last() =~= pv.waiters.take(j as int));
                let w = p.waiters[j];
                let on = match w.client.connection {
                    Some(c) => c == id,
                    None => false,
                };
                if !on {
                    ws.push(w);
                }
                j = j + 1;
            }
            assert(pv.waiters.take(j as int) =~= pv.waiters);
            assert(ps.take(k + 1).drop_last() =~= ps.take(k));
            if ws.len() > 0 {
                p.waiters = ws;
                let ghost before = pendings_view(kept@);
                kept.push(p);
                assert(pendings_view(kept@) =~= before.push(PendingV { waiters: keep_waiters(pv.waiters, id), ..pv }));
            }
        }
        assert(ps.take(ps.len() as int) =~= ps);
        self.pending = kept;
        proof {
            lemma_cancel_pending(ps, id);
        }
    }
}

impl Pending {
    fn charge_exec(&self) -> (r: usize)
        requires
            charge(self@) <= 4 * BYTES,
        ensures
            r == charge(self@),
    {
        let base: usize = match &self.base {
            Some(b) => b.len(),
            None => 0,
        };
        1024 + self.key.len() + 16 * self.original.original().len() + 16 * self.query.bytes.len() + 16 * base + 1024
            * self.waiters.len()
    }
}

/// Whether a transaction already sends from `port`.
pub open spec fn port_used(ps: Seq<PendingV>, port: u16) -> bool {
    exists|i: int| 0 <= i < ps.len() && ps[i].query.source_port == port
}

pub open spec fn port_at(start: int, n: int) -> u16 {
    (49152 + (start + n) % 16384) as u16
}

/// The first free port from 49152 + `start` on, wrapping within 49152..=65535, trying from
/// the `n`-th.
pub open spec fn free_port(ps: Seq<PendingV>, start: int, n: int) -> Option<u16>
    decreases 16384 - n,
{
    if n < 0 || n >= 16384 {
        None
    } else if !port_used(ps, port_at(start, n)) {
        Some(port_at(start, n))
    } else {
        free_port(ps, start, n + 1)
    }
}

pub open spec fn next_exchange(next: u64) -> u64 {
    if next == u64::MAX {
        0
    } else {
        (next + 1) as u64
    }
}

/// The query sent upstream for `bytes` given four random octets: the next exchange, a
/// random ID, a free source port chosen from a random start, TCP above 4096 octets, and AD
/// cleared. None if every port is taken.
pub open spec fn spec_query(ps: Seq<PendingV>, next: u64, bytes: Seq<u8>, server: SocketAddress, rnd: Seq<u8>) -> Option<
    UpstreamQueryV,
> {
    let id = (rnd[0] + 256 * rnd[1]) as u16;
    let start = (rnd[2] + 256 * rnd[3]) % 16384;
    match free_port(ps, start, 0) {
        None => None,
        Some(port) => Some(
            UpstreamQueryV {
                exchange: next_exchange(next),
                server,
                source_port: port,
                tcp: bytes.len() > 4096,
                bytes: bytes.update(0, (id / 256) as u8).update(1, (id % 256) as u8).update(3, bytes[3] & 0xdfu8),
            },
        ),
    }
}

fn port_used_exec(ps: &Vec<Pending>, port: u16) -> (r: bool)
    ensures
        r == port_used(pendings_view(ps@), port),
{
    let ghost v = pendings_view(ps@);
    let mut i: usize = 0;
    while i < ps.len()
        invariant
            i <= ps@.len(),
            v == pendings_view(ps@),
            forall|k: int| 0 <= k < i ==> (#[trigger] v[k]).query.source_port != port,
        decreases ps@.len() - i,
    {
        assert(v[i as int] == ps@[i as int]@);
        if ps[i].query.source_port == port {
            return true;
        }
        i = i + 1;
    }
    false
}

/// The query for `bytes` to `server` with the given four random octets, under exchange
/// `next` plus one; none if every source port is taken.
fn query_with(ps: &Vec<Pending>, next: u64, bytes: &[u8], server: SocketAddress, rnd: &Vec<u8>) -> (r: Option<UpstreamQuery>)
    requires
        bytes@.len() >= 4,
        rnd@.len() == 4,
    ensures
        match spec_query(pendings_view(ps@), next, bytes@, server, rnd@) {
            None => r is None,
            Some(q) => r matches Some(x) && x@ == q,
        },
{
    let ghost v = pendings_view(ps@);
    let id: u16 = (rnd[0] as u16) + 256 * (rnd[1] as u16);
    let start: usize = ((rnd[2] as usize) + 256 * (rnd[3] as usize)) % 16384;
    let mut n: usize = 0;
    let mut found: Option<u16> = None;
    while n < 16384 && found.is_none()
        invariant
            n <= 16384,
            start < 16384,
            v == pendings_view(ps@),
            found is None ==> free_port(v, start as int, 0) == free_port(v, start as int, n as int),
            found matches Some(p) ==> free_port(v, start as int, 0) == Some(p),
        decreases (if found is None { 16385 - n } else { 0 }),
    {
        let port = (49152 + (start + n) % 16384) as u16;
        assert(port == port_at(start as int, n as int));
        if !port_used_exec(ps, port) {
            found = Some(port);
        } else {
            n = n + 1;
        }
    }
    let port = match found {
        Some(p) => p,
        None => return None,
    };
    let mut b = vstd::slice::slice_to_vec(bytes);
    b.set(0, (id / 256) as u8);
    b.set(1, (id % 256) as u8);
    let b3 = b[3] & 0xdfu8;
    b.set(3, b3);
    let exchange = if next == u64::MAX { 0 } else { next + 1 };
    let tcp = b.len() > 4096;
    Some(UpstreamQuery { exchange, server, source_port: port, tcp, bytes: b })
}

/// Records transaction `p` under its exchange, in place of any with the same exchange.
pub open spec fn pending_insert(ps: Seq<PendingV>, p: PendingV) -> Seq<PendingV> {
    if exists|i: int| 0 <= i < ps.len() && ps[i].query.exchange == p.query.exchange {
        ps.update(choose|i: int| 0 <= i < ps.len() && ps[i].query.exchange == p.query.exchange, p)
    } else {
        ps.insert(exchange_place(ps, p.query.exchange), p)
    }
}

/// How many transactions have a smaller exchange.
pub open spec fn exchange_place(ps: Seq<PendingV>, x: u64) -> int
    decreases ps.len(),
{
    if ps.len() == 0 {
        0
    } else if ps.last().query.exchange < x {
        ps.len() as int
    } else {
        exchange_place(ps.drop_last(), x)
    }
}

proof fn lemma_exchange_place(ps: Seq<PendingV>, x: u64)
    requires
        exchanges_sorted(ps),
    ensures
        0 <= exchange_place(ps, x) <= ps.len(),
        forall|i: int| 0 <= i < exchange_place(ps, x) ==> (#[trigger] ps[i]).query.exchange < x,
        forall|i: int| exchange_place(ps, x) <= i < ps.len() ==> (#[trigger] ps[i]).query.exchange >= x,
    decreases ps.len(),
{
    if ps.len() > 0 {
        let d = ps.drop_last();
        assert(exchanges_sorted(d)) by {
            assert forall|i: int, j: int| 0 <= i < j < d.len() implies (#[trigger] d[i]).query.exchange < (#[trigger] d[j]).query.exchange by {
                assert(d[i] == ps[i] && d[j] == ps[j]);
            }
        }
        lemma_exchange_place(d, x);
        let last = ps[ps.len() - 1];
        assert(ps.last() == last);
        if last.query.exchange < x {
            assert forall|i: int| 0 <= i < ps.len() implies (#[trigger] ps[i]).query.exchange < x by {
                if i < ps.len() - 1 {
                    assert(ps[i].query.exchange < last.query.exchange);
                }
            }
        } else {
            assert forall|i: int| exchange_place(ps, x) <= i < ps.len() implies (#[trigger] ps[i]).query.exchange >= x by {
                if i < ps.len() - 1 {
                    assert(d[i] == ps[i]);
                }
            }
            assert forall|i: int| 0 <= i < exchange_place(ps, x) implies (#[trigger] ps[i]).query.exchange < x by {
                assert(d[i] == ps[i]);
            }
        }
    }
}

proof fn lemma_sum_update(ps: Seq<PendingV>, i: int, p: PendingV)
    requires
        0 <= i < ps.len(),
    ensures
        pending_bytes(ps.update(i, p)) == pending_bytes(ps) - charge(ps[i]) + charge(p),
        waiter_count(ps.update(i, p)) == waiter_count(ps) - ps[i].waiters.len() + p.waiters.len(),
    decreases ps.len(),
{
    if i < ps.len() - 1 {
        assert(ps.update(i, p).drop_last() =~= ps.drop_last().update(i, p));
        lemma_sum_update(ps.drop_last(), i, p);
    } else {
        assert(ps.update(i, p).drop_last() =~= ps.drop_last());
    }
}

proof fn lemma_sum_insert(ps: Seq<PendingV>, i: int, p: PendingV)
    requires
        0 <= i <= ps.len(),
    ensures
        pending_bytes(ps.insert(i, p)) == pending_bytes(ps) + charge(p),
        waiter_count(ps.insert(i, p)) == waiter_count(ps) + p.waiters.len(),
    decreases ps.len(),
{
    if i < ps.len() {
        assert(ps.insert(i, p).drop_last() =~= ps.drop_last().insert(i, p));
        lemma_sum_insert(ps.drop_last(), i, p);
    } else {
        assert(ps.insert(i, p).drop_last() =~= ps);
    }
}

proof fn lemma_sum_remove(ps: Seq<PendingV>, i: int)
    requires
        0 <= i < ps.len(),
    ensures
        pending_bytes(ps.remove(i)) == pending_bytes(ps) - charge(ps[i]),
        waiter_count(ps.remove(i)) == waiter_count(ps) - ps[i].waiters.len(),
    decreases ps.len(),
{
    if i < ps.len() - 1 {
        assert(ps.remove(i).drop_last() =~= ps.drop_last().remove(i));
        lemma_sum_remove(ps.drop_last(), i);
    } else {
        assert(ps.remove(i) =~= ps.drop_last());
    }
}

proof fn lemma_pending_insert(ps: Seq<PendingV>, p: PendingV)
    requires
        exchanges_sorted(ps),
    ensures
        exchanges_sorted(pending_insert(ps, p)),
        pending_insert(ps, p).len() <= ps.len() + 1,
        pending_bytes(pending_insert(ps, p)) <= pending_bytes(ps) + charge(p),
        waiter_count(pending_insert(ps, p)) <= waiter_count(ps) + p.waiters.len(),
{
    lemma_sums_nonneg(ps, Seq::empty());
    if exists|i: int| 0 <= i < ps.len() && ps[i].query.exchange == p.query.exchange {
        let i = choose|i: int| 0 <= i < ps.len() && ps[i].query.exchange == p.query.exchange;
        lemma_sum_update(ps, i, p);
        let out = ps.update(i, p);
        assert forall|a: int, b: int| 0 <= a < b < out.len() implies (#[trigger] out[a]).query.exchange < (#[trigger] out[b]).query.exchange by {
            assert(out[a].query.exchange == ps[a].query.exchange);
            assert(out[b].query.exchange == ps[b].query.exchange);
        }
    } else {
        let k = exchange_place(ps, p.query.exchange);
        lemma_exchange_place(ps, p.query.exchange);
        lemma_sum_insert(ps, k, p);
        let out = ps.insert(k, p);
        assert forall|a: int, b: int| 0 <= a < b < out.len() implies (#[trigger] out[a]).query.exchange < (#[trigger] out[b]).query.exchange by {
            if a < k && b < k {
                assert(out[a] == ps[a] && out[b] == ps[b]);
            } else if a < k && b == k {
                assert(out[a] == ps[a]);
            } else if a < k {
                assert(out[a] == ps[a] && out[b] == ps[b - 1]);
            } else if a == k {
                assert(out[b] == ps[b - 1]);
                assert(ps[b - 1].query.exchange != p.query.exchange);
            } else {
                assert(out[a] == ps[a - 1] && out[b] == ps[b - 1]);
            }
        }
    }
}

impl Resolver {
    fn insert_pending(&mut self, p: Pending)
        requires
            exchanges_sorted(old(self)@.pending),
        ensures
            final(self)@ == (ResolverV { pending: pending_insert(old(self)@.pending, p@), ..old(self)@ }),
    {
        let ghost ps = self@.pending;
        let ghost pv = p@;
        let x = p.query.exchange;
        let mut i: usize = 0;
        while i < self.pending.len() && self.pending[i].query.exchange < x
            invariant
                i <= self.pending@.len(),
                ps == pendings_view(self.pending@),
                self@ == old(self)@,
                pv == p@,
                x == pv.query.exchange,
                exchanges_sorted(ps),
                forall|k: int| 0 <= k < i ==> (#[trigger] ps[k]).query.exchange < x,
            decreases self.pending@.len() - i,
        {
            assert(ps[i as int] == self.pending@[i as int]@);
            i = i + 1;
        }
        proof {
            if i < ps.len() {
                assert(ps[i as int] == self.pending@[i as int]@);
            }
        }
        if i < self.pending.len() && self.pending[i].query.exchange == x {
            proof {
                assert(ps[i as int].query.exchange == x);
                let c = choose|k: int| 0 <= k < ps.len() && ps[k].query.exchange == pv.query.exchange;
                if c < i {
                    assert(ps[c].query.exchange < x);
                } else if c > i {
                    assert(ps[i as int].query.exchange < ps[c].query.exchange);
                }
            }
            let ghost pre = self.pending@;
            self.pending.set(i, p);
            assert(pendings_view(self.pending@) =~= ps.update(i as int, pv));
        } else {
            proof {
                lemma_exchange_place(ps, x);
                let place = exchange_place(ps, x);
                if place < i {
                    assert(ps[place].query.exchange < x);
                } else if place > i {
                    assert(ps[i as int].query.exchange < x);
                }
                assert forall|k: int| 0 <= k < ps.len() implies (#[trigger] ps[k]).query.exchange != x by {
                    if k > i {
                        assert(ps[i as int].query.exchange < ps[k].query.exchange);
                    }
                }
            }
            self.pending.insert(i, p);
            assert(pendings_view(self.pending@) =~= ps.insert(i as int, pv));
        }
    }
}

/// The entry under key `k`, if any.
pub open spec fn cache_find(cs: Seq<CacheEntryV>, k: Seq<u8>) -> Option<int> {
    if exists|i: int| 0 <= i < cs.len() && cs[i].key == k {
        Some(choose|i: int| 0 <= i < cs.len() && cs[i].key == k)
    } else {
        None
    }
}

pub open spec fn cache_remove(cs: Seq<CacheEntryV>, k: Seq<u8>) -> Seq<CacheEntryV> {
    match cache_find(cs, k) {
        Some(i) => cs.remove(i),
        None => cs,
    }
}

/// How many entries have a smaller key.
pub open spec fn key_place(cs: Seq<CacheEntryV>, k: Seq<u8>) -> int
    decreases cs.len(),
{
    if cs.len() == 0 {
        0
    } else if bytes_lt(cs.last().key, k) {
        cs.len() as int
    } else {
        key_place(cs.drop_last(), k)
    }
}

/// The least recently used entry: the first of those used longest ago.
pub open spec fn oldest(cs: Seq<CacheEntryV>) -> int
    decreases cs.len(),
{
    if cs.len() <= 1 {
        0
    } else {
        let o = oldest(cs.drop_last());
        if cs.last().last < cs[o].last {
            cs.len() - 1
        } else {
            o
        }
    }
}

pub proof fn lemma_oldest(cs: Seq<CacheEntryV>)
    requires
        cs.len() > 0,
    ensures
        0 <= oldest(cs) < cs.len(),
        forall|i: int| 0 <= i < cs.len() ==> cs[oldest(cs)].last <= (#[trigger] cs[i]).last,
        forall|i: int| 0 <= i < oldest(cs) ==> cs[oldest(cs)].last < (#[trigger] cs[i]).last,
    decreases cs.len(),
{
    if cs.len() > 1 {
        let d = cs.drop_last();
        lemma_oldest(d);
        assert forall|i: int| 0 <= i < d.len() implies (#[trigger] d[i]) == cs[i] by {}
        let o = oldest(d);
        assert(d[o] == cs[o]);
        let last = cs[cs.len() - 1];
        assert(cs.last() == last);
        if last.last < cs[o].last {
            assert(oldest(cs) == cs.len() - 1);
            assert forall|i: int| 0 <= i < cs.len() implies last.last <= (#[trigger] cs[i]).last by {
                if i < cs.len() - 1 {
                    assert(d[i] == cs[i]);
                }
            }
            assert forall|i: int| 0 <= i < oldest(cs) implies last.last < (#[trigger] cs[i]).last by {
                assert(d[i] == cs[i]);
            }
        } else {
            assert(oldest(cs) == o);
            assert forall|i: int| 0 <= i < cs.len() implies cs[o].last <= (#[trigger] cs[i]).last by {
                if i < cs.len() - 1 {
                    assert(d[i] == cs[i]);
                }
            }
            assert forall|i: int| 0 <= i < o implies cs[o].last < (#[trigger] cs[i]).last by {
                assert(d[i] == cs[i]);
            }
        }
    }
}

/// Evicts least recently used entries until `sets` more record sets and `size` more octets
/// fit.
pub open spec fn evict(cs: Seq<CacheEntryV>, sets: int, size: int) -> Seq<CacheEntryV>
    decreases cs.len(),
{
    if (cache_sets(cs) + sets > CACHE_SETS || cache_bytes(cs) + size > BYTES) && cs.len() > 0 {
        proof {
            lemma_oldest(cs);
        }
        evict(cs.remove(oldest(cs)), sets, size)
    } else {
        cs
    }
}

/// The non-OPT records of an answer.
pub open spec fn cached_records(rs: Seq<RecordV>) -> Seq<RecordV>
    decreases rs.len(),
{
    if rs.len() == 0 {
        rs
    } else {
        let prev = cached_records(rs.drop_last());
        if rs.last().kind != 41 {
            prev.push(rs.last())
        } else {
            prev
        }
    }
}

pub open spec fn min_ttl(rs: Seq<RecordV>) -> Option<u32>
    decreases rs.len(),
{
    if rs.len() == 0 {
        None
    } else {
        let t = rs.last().ttl;
        match min_ttl(rs.drop_last()) {
            None => Some(t),
            Some(m) => Some(if m <= t { m } else { t }),
        }
    }
}

/// The least of min(TTL, MINIMUM) over the SOA records.
pub open spec fn soa_ttl(rs: Seq<RecordV>) -> Option<u32>
    decreases rs.len(),
{
    if rs.len() == 0 {
        None
    } else {
        let prev = soa_ttl(rs.drop_last());
        match rs.last().data {
            RdataV::Soa { minimum, .. } => {
                let t = if rs.last().ttl <= minimum { rs.last().ttl } else { minimum };
                match prev {
                    None => Some(t),
                    Some(m) => Some(if m <= t { m } else { t }),
                }
            },
            _ => prev,
        }
    }
}

pub open spec fn has_answer_kind(rs: Seq<RecordV>, kind: u16) -> bool {
    exists|i: int| 0 <= i < rs.len() && rs[i].kind == kind
}

/// How long an answer may be cached, in seconds: a positive answer for its shortest TTL; a
/// NOERROR or NXDOMAIN without one for its SOA's negative TTL, capped by every TTL; nothing
/// otherwise.
pub open spec fn answer_life(m: MessageV) -> Option<u32> {
    let records = cached_records(all_records(m));
    let positive = has_answer_kind(m.answers, m.questions[0].kind);
    let life = if spec_rcode(m) == 0 && positive {
        min_ttl(records)
    } else if spec_rcode(m) == 0 || spec_rcode(m) == 3 {
        soa_ttl(m.authority)
    } else {
        None
    };
    match life {
        None => None,
        Some(t) => match min_ttl(records) {
            None => Some(t),
            Some(r) => Some(if r <= t { r } else { t }),
        },
    }
}

pub open spec fn set_key(r: RecordV) -> (Seq<u8>, u16, u16) {
    (canonical_wire(r.name), r.kind, r.class)
}

/// How many distinct record sets (owner without case, type, class) the records form.
pub open spec fn distinct_sets(rs: Seq<RecordV>) -> int
    decreases rs.len(),
{
    if rs.len() == 0 {
        0
    } else {
        let prev = distinct_sets(rs.drop_last());
        if exists|j: int| 0 <= j < rs.len() - 1 && set_key(rs[j]) == set_key(rs.last()) {
            prev
        } else {
            prev + 1
        }
    }
}

/// The SOA TTLs of a negative answer lowered to its cached life.
pub open spec fn cap_soa(b: Seq<u8>, rs: Seq<RecordV>, spans: Seq<SpanV>, n: int, life: u32) -> Seq<u8>
    decreases n,
{
    if n <= 0 {
        b
    } else {
        let prev = cap_soa(b, rs, spans, n - 1, life);
        if rs[n - 1].kind == 6 {
            put32(prev, spans[n - 1].ttl, if rs[n - 1].ttl <= life { rs[n - 1].ttl } else { life })
        } else {
            prev
        }
    }
}

/// The cache after storing answer `b` under `key` at `now`: an answer that parses, has a
/// question, may be cached for a while and fits the budgets replaces any entry under the key,
/// after the least recently used entries make room. None if `b` does not parse.
pub open spec fn spec_store(cs: Seq<CacheEntryV>, key: Seq<u8>, b: Seq<u8>, now: u64) -> Option<Seq<CacheEntryV>> {
    match parse_message(b, Context::Unicast) {
        None => None,
        Some(m) => if m.questions.len() == 0 {
            Some(cs)
        } else {
            match answer_life(m) {
                None => Some(cs),
                Some(life) => if life == 0 {
                    Some(cs)
                } else {
                    let records = cached_records(all_records(m));
                    let sets = if distinct_sets(records) < 1 { 1 } else { distinct_sets(records) };
                    let positive = has_answer_kind(m.answers, m.questions[0].kind);
                    let wire = if positive { b } else { cap_soa(b, all_records(m), m.spans, m.spans.len() as int, life) };
                    let size = (key.len() + wire.len() + 128) as int;
                    if sets > CACHE_SETS || size > BYTES {
                        Some(cs)
                    } else {
                        let rest = evict(cache_remove(cs, key), sets, size);
                        let e = CacheEntryV {
                            key,
                            wire,
                            inserted: now,
                            expires: crate::ipv4::sat_add(now, life as int * 1000),
                            last: now,
                            sets: sets as nat,
                        };
                        Some(rest.insert(key_place(rest, key), e))
                    }
                },
            }
        },
    }
}

fn non_opt_records(b: &[u8], m: &Message) -> (r: Vec<Record>)
    requires
        parse_message(b@, Context::Unicast) == Some(m@),
    ensures
        records_view(r@) == cached_records(all_records(m@)),
{
    proof {
        crate::dns::wire::lemma_message_spans(b@, Context::Unicast);
    }
    let ghost all = all_records(m@);
    let total = m.record_spans().len();
    let mut out: Vec<Record> = Vec::new();
    let mut i: usize = 0;
    assert(all.take(0) =~= Seq::<RecordV>::empty());
    assert(records_view(out@) =~= Seq::<RecordV>::empty());
    while i < total
        invariant
            total == all.len(),
            i <= total,
            all == all_records(m@),
            records_view(out@) == cached_records(all.take(i as int)),
        decreases total - i,
    {
        let r = record_at(m, i);
        assert(all.take(i + 1).drop_last() =~= all.take(i as int));
        assert(all.take(i + 1).last() == r@);
        if r.kind != 41 {
            let ghost before = records_view(out@);
            out.push(r.clone());
            assert(records_view(out@) =~= before.push(r@));
        }
        i = i + 1;
    }
    assert(all.take(i as int) =~= all);
    out
}

fn min_ttl_exec(rs: &Vec<Record>) -> (r: Option<u32>)
    ensures
        r == min_ttl(records_view(rs@)),
{
    let ghost v = records_view(rs@);
    let mut m: Option<u32> = None;
    let mut i: usize = 0;
    while i < rs.len()
        invariant
            i <= rs@.len(),
            v == records_view(rs@),
            m == min_ttl(v.take(i as int)),
        decreases rs@.len() - i,
    {
        assert(v.take(i + 1).drop_last() =~= v.take(i as int));
        assert(v[i as int] == rs@[i as int]@);
        let t = rs[i].ttl;
        m = match m {
            None => Some(t),
            Some(x) => Some(if x <= t { x } else { t }),
        };
        i = i + 1;
    }
    assert(v.take(i as int) =~= v);
    m
}

fn soa_ttl_exec(rs: &Vec<Record>) -> (r: Option<u32>)
    ensures
        r == soa_ttl(records_view(rs@)),
{
    let ghost v = records_view(rs@);
    let mut m: Option<u32> = None;
    let mut i: usize = 0;
    while i < rs.len()
        invariant
            i <= rs@.len(),
            v == records_view(rs@),
            m == soa_ttl(v.take(i as int)),
        decreases rs@.len() - i,
    {
        assert(v.take(i + 1).drop_last() =~= v.take(i as int));
        assert(v[i as int] == rs@[i as int]@);
        let r = &rs[i];
        match &r.data {
            Rdata::Soa { minimum, .. } => {
                let t = if r.ttl <= *minimum { r.ttl } else { *minimum };
                m = match m {
                    None => Some(t),
                    Some(x) => Some(if x <= t { x } else { t }),
                };
            },
            _ => {},
        }
        i = i + 1;
    }
    assert(v.take(i as int) =~= v);
    m
}

fn has_kind_exec(rs: &Vec<Record>, kind: u16) -> (r: bool)
    ensures
        r == has_answer_kind(records_view(rs@), kind),
{
    let mut i: usize = 0;
    while i < rs.len()
        invariant
            i <= rs@.len(),
            forall|k: int| 0 <= k < i ==> (#[trigger] records_view(rs@)[k]).kind != kind,
        decreases rs@.len() - i,
    {
        assert(records_view(rs@)[i as int] == rs@[i as int]@);
        if rs[i].kind == kind {
            return true;
        }
        i = i + 1;
    }
    false
}

proof fn lemma_distinct_bound(rs: Seq<RecordV>)
    ensures
        0 <= distinct_sets(rs) <= rs.len(),
    decreases rs.len(),
{
    if rs.len() > 0 {
        lemma_distinct_bound(rs.drop_last());
    }
}

fn distinct_exec(rs: &Vec<Record>) -> (r: usize)
    ensures
        r == distinct_sets(records_view(rs@)),
{
    let ghost v = records_view(rs@);
    let mut count: usize = 0;
    let mut i: usize = 0;
    while i < rs.len()
        invariant
            i <= rs@.len(),
            v == records_view(rs@),
            count == distinct_sets(v.take(i as int)),
            count <= i,
        decreases rs@.len() - i,
    {
        let ghost t = v.take(i + 1);
        assert(t.drop_last() =~= v.take(i as int));
        assert(t.last() == rs@[i as int]@);
        let r = &rs[i];
        let mut seen = false;
        let mut j: usize = 0;
        while j < i
            invariant
                j <= i < rs@.len(),
                v == records_view(rs@),
                t == v.take(i + 1),
                t.last() == r@,
                seen == exists|k: int| 0 <= k < j && set_key(t[k]) == set_key(t.last()),
            decreases i - j,
        {
            let x = &rs[j];
            assert(t[j as int] == x@);
            let same = x.name.eq(&r.name) && x.kind == r.kind && x.class == r.class;
            proof {
                if same {
                    assert(set_key(t[j as int]) == set_key(t.last()));
                } else {
                    assert(set_key(t[j as int]) != set_key(t.last()));
                }
            }
            seen = seen || same;
            j = j + 1;
        }
        if !seen {
            count = count + 1;
        }
        i = i + 1;
    }
    assert(v.take(i as int) =~= v);
    count
}

proof fn lemma_cap_soa_len(b: Seq<u8>, rs: Seq<RecordV>, spans: Seq<SpanV>, n: int, life: u32)
    ensures
        cap_soa(b, rs, spans, n, life).len() == b.len(),
    decreases n,
{
    if n > 0 {
        lemma_cap_soa_len(b, rs, spans, n - 1, life);
    }
}

fn cap_soa_exec(b: &[u8], m: &Message, life: u32) -> (r: Vec<u8>)
    requires
        parse_message(b@, Context::Unicast) == Some(m@),
    ensures
        r@ == cap_soa(b@, all_records(m@), m@.spans, m@.spans.len() as int, life),
{
    proof {
        crate::dns::wire::lemma_message_spans(b@, Context::Unicast);
    }
    let mut out = vstd::slice::slice_to_vec(b);
    let spans = m.record_spans();
    let ghost rs = all_records(m@);
    let mut i: usize = 0;
    while i < spans.len()
        invariant
            i <= spans@.len(),
            spans@ == m.spans@,
            m@.spans.len() == rs.len(),
            rs == all_records(m@),
            forall|k: int| 0 <= k < m@.spans.len() ==> 0 <= #[trigger] m@.spans[k].ttl && m@.spans[k].ttl + 4 <= b@.len(),
            out@ == cap_soa(b@, rs, m@.spans, i as int, life),
        decreases spans@.len() - i,
    {
        proof {
            lemma_cap_soa_len(b@, rs, m@.spans, i as int, life);
            assert(m@.spans[i as int] == spans@[i as int]@);
            assert(spans@[i as int]@.ttl == spans@[i as int].ttl as int);
        }
        let r = record_at(m, i);
        if r.kind == 6 {
            let t = if r.ttl <= life { r.ttl } else { life };
            put_u32(&mut out, spans[i].ttl, t);
        }
        i = i + 1;
    }
    out
}

proof fn lemma_cache_sum_remove(cs: Seq<CacheEntryV>, i: int)
    requires
        0 <= i < cs.len(),
    ensures
        cache_sets(cs.remove(i)) == cache_sets(cs) - cs[i].sets,
        cache_bytes(cs.remove(i)) == cache_bytes(cs) - entry_bytes(cs[i]),
    decreases cs.len(),
{
    if i < cs.len() - 1 {
        assert(cs.remove(i).drop_last() =~= cs.drop_last().remove(i));
        lemma_cache_sum_remove(cs.drop_last(), i);
    } else {
        assert(cs.remove(i) =~= cs.drop_last());
    }
}

proof fn lemma_cache_sum_insert(cs: Seq<CacheEntryV>, i: int, e: CacheEntryV)
    requires
        0 <= i <= cs.len(),
    ensures
        cache_sets(cs.insert(i, e)) == cache_sets(cs) + e.sets,
        cache_bytes(cs.insert(i, e)) == cache_bytes(cs) + entry_bytes(e),
    decreases cs.len(),
{
    if i < cs.len() {
        assert(cs.insert(i, e).drop_last() =~= cs.drop_last().insert(i, e));
        lemma_cache_sum_insert(cs.drop_last(), i, e);
    } else {
        assert(cs.insert(i, e).drop_last() =~= cs);
    }
}

proof fn lemma_sorted_remove(cs: Seq<CacheEntryV>, i: int)
    requires
        keys_sorted(cs),
        0 <= i < cs.len(),
    ensures
        keys_sorted(cs.remove(i)),
{
    let out = cs.remove(i);
    assert forall|a: int, b: int| 0 <= a < b < out.len() implies bytes_lt((#[trigger] out[a]).key, (#[trigger] out[b]).key) by {
        let ao = if a < i { a } else { a + 1 };
        let bo = if b < i { b } else { b + 1 };
        assert(out[a] == cs[ao] && out[b] == cs[bo]);
    }
}

proof fn lemma_cache_find(cs: Seq<CacheEntryV>, k: Seq<u8>, i: int)
    requires
        keys_sorted(cs),
        0 <= i < cs.len(),
        cs[i].key == k,
    ensures
        cache_find(cs, k) == Some(i),
{
    let x = choose|x: int| 0 <= x < cs.len() && cs[x].key == k;
    if x != i {
        lemma_bytes_lt_irreflexive(k);
        if x < i {
            assert(bytes_lt(cs[x].key, cs[i].key));
        } else {
            assert(bytes_lt(cs[i].key, cs[x].key));
        }
    }
}

proof fn lemma_key_place(cs: Seq<CacheEntryV>, k: Seq<u8>)
    requires
        keys_sorted(cs),
    ensures
        0 <= key_place(cs, k) <= cs.len(),
        forall|i: int| 0 <= i < key_place(cs, k) ==> bytes_lt((#[trigger] cs[i]).key, k),
        forall|i: int| key_place(cs, k) <= i < cs.len() ==> !bytes_lt((#[trigger] cs[i]).key, k),
    decreases cs.len(),
{
    if cs.len() > 0 {
        let d = cs.drop_last();
        assert(keys_sorted(d)) by {
            assert forall|i: int, j: int| 0 <= i < j < d.len() implies bytes_lt((#[trigger] d[i]).key, (#[trigger] d[j]).key) by {
                assert(d[i] == cs[i] && d[j] == cs[j]);
            }
        }
        lemma_key_place(d, k);
        let last = cs[cs.len() - 1];
        assert(cs.last() == last);
        if bytes_lt(last.key, k) {
            assert forall|i: int| 0 <= i < cs.len() implies bytes_lt((#[trigger] cs[i]).key, k) by {
                if i < cs.len() - 1 {
                    lemma_bytes_lt_transitive(cs[i].key, last.key, k);
                }
            }
        } else {
            assert forall|i: int| key_place(cs, k) <= i < cs.len() implies !bytes_lt((#[trigger] cs[i]).key, k) by {
                if i < cs.len() - 1 {
                    assert(d[i] == cs[i]);
                }
            }
            assert forall|i: int| 0 <= i < key_place(cs, k) implies bytes_lt((#[trigger] cs[i]).key, k) by {
                assert(d[i] == cs[i]);
            }
        }
    }
}

/// A key that no entry has.
pub open spec fn key_absent(cs: Seq<CacheEntryV>, k: Seq<u8>) -> bool {
    forall|i: int| 0 <= i < cs.len() ==> (#[trigger] cs[i]).key != k
}

proof fn lemma_evict(cs: Seq<CacheEntryV>, sets: int, size: int, k: Seq<u8>)
    requires
        keys_sorted(cs),
        key_absent(cs, k),
    ensures
        keys_sorted(evict(cs, sets, size)),
        key_absent(evict(cs, sets, size), k),
        evict(cs, sets, size).len() <= cs.len(),
        cache_sets(evict(cs, sets, size)) <= cache_sets(cs),
        cache_bytes(evict(cs, sets, size)) <= cache_bytes(cs),
        (cache_sets(evict(cs, sets, size)) + sets <= CACHE_SETS && cache_bytes(evict(cs, sets, size)) + size <= BYTES)
            || evict(cs, sets, size).len() == 0,
    decreases cs.len(),
{
    if (cache_sets(cs) + sets > CACHE_SETS || cache_bytes(cs) + size > BYTES) && cs.len() > 0 {
        lemma_oldest(cs);
        let o = oldest(cs);
        lemma_sorted_remove(cs, o);
        lemma_cache_sum_remove(cs, o);
        assert(key_absent(cs.remove(o), k)) by {
            assert forall|i: int| 0 <= i < cs.remove(o).len() implies (#[trigger] cs.remove(o)[i]).key != k by {
                let io = if i < o { i } else { i + 1 };
                assert(cs.remove(o)[i] == cs[io]);
            }
        }
        lemma_evict(cs.remove(o), sets, size, k);
    }
}

proof fn lemma_insert_sorted(cs: Seq<CacheEntryV>, e: CacheEntryV)
    requires
        keys_sorted(cs),
        key_absent(cs, e.key),
    ensures
        keys_sorted(cs.insert(key_place(cs, e.key), e)),
{
    let p = key_place(cs, e.key);
    lemma_key_place(cs, e.key);
    let out = cs.insert(p, e);
    assert forall|a: int, b: int| 0 <= a < b < out.len() implies bytes_lt((#[trigger] out[a]).key, (#[trigger] out[b]).key) by {
        if a < p && b < p {
            assert(out[a] == cs[a] && out[b] == cs[b]);
        } else if a < p && b == p {
            assert(out[a] == cs[a]);
        } else if a < p {
            assert(out[a] == cs[a] && out[b] == cs[b - 1]);
        } else if a == p {
            assert(out[b] == cs[b - 1]);
            lemma_bytes_lt_total(cs[b - 1].key, e.key);
        } else {
            assert(out[a] == cs[a - 1] && out[b] == cs[b - 1]);
        }
    }
}

impl Resolver {
    fn find_cache(&self, k: &[u8]) -> (r: Option<usize>)
        requires
            keys_sorted(self@.cache),
        ensures
            r matches Some(i) ==> i < self@.cache.len() && cache_find(self@.cache, k@) == Some(i as int),
            r is None ==> cache_find(self@.cache, k@) is None,
    {
        let ghost cs = self@.cache;
        let mut i: usize = 0;
        while i < self.cache.len()
            invariant
                i <= self.cache@.len(),
                cs == entries_view(self.cache@),
                keys_sorted(cs),
                forall|x: int| 0 <= x < i ==> (#[trigger] cs[x]).key != k@,
            decreases self.cache@.len() - i,
        {
            assert(cs[i as int] == self.cache@[i as int]@);
            if same_bytes_exec(self.cache[i].key.as_slice(), k) {
                proof {
                    lemma_cache_find(cs, k@, i as int);
                }
                return Some(i);
            }
            i = i + 1;
        }
        None
    }

    fn evict_exec(&mut self, sets: usize, size: usize)
        requires
            keys_sorted(old(self)@.cache),
            cache_sets(old(self)@.cache) <= CACHE_SETS,
            cache_bytes(old(self)@.cache) <= BYTES,
            sets <= CACHE_SETS,
            size <= BYTES,
        ensures
            final(self)@ == (ResolverV { cache: evict(old(self)@.cache, sets as int, size as int), ..old(self)@ }),
    {
        loop
            invariant
                sets <= CACHE_SETS,
                size <= BYTES,
                keys_sorted(self@.cache),
                cache_sets(self@.cache) <= CACHE_SETS,
                cache_bytes(self@.cache) <= BYTES,
                evict(old(self)@.cache, sets as int, size as int) == evict(self@.cache, sets as int, size as int),
                self@ == (ResolverV { cache: self@.cache, ..old(self)@ }),
            decreases self@.cache.len(),
        {
            let ghost cs = self@.cache;
            let total_sets = self.cache_sets_unchecked();
            let total_bytes = self.cache_bytes_unchecked();
            if !(total_sets + sets > CACHE_SETS || total_bytes + size > BYTES) || self.cache.len() == 0 {
                return;
            }
            let o = self.oldest_exec();
            proof {
                lemma_oldest(cs);
                lemma_sorted_remove(cs, o as int);
                lemma_cache_sum_remove(cs, o as int);
            }
            self.cache.remove(o);
            assert(self@.cache =~= cs.remove(o as int));
        }
    }

    fn cache_sets_unchecked(&self) -> (r: usize)
        requires
            cache_sets(self@.cache) <= CACHE_SETS,
        ensures
            r == cache_sets(self@.cache),
    {
        let ghost cs = self@.cache;
        let mut total: usize = 0;
        let mut i: usize = 0;
        while i < self.cache.len()
            invariant
                i <= self.cache@.len(),
                cs == entries_view(self.cache@),
                cache_sets(cs) <= CACHE_SETS,
                total == cache_sets(cs.take(i as int)),
            decreases self.cache@.len() - i,
        {
            proof {
                assert(cs.take(i + 1).drop_last() =~= cs.take(i as int));
                assert(cs[i as int] == self.cache@[i as int]@);
                lemma_cache_prefix(cs, i + 1);
                lemma_sums_nonneg(Seq::empty(), cs.take(i as int));
            }
            total = total + self.cache[i].sets;
            i = i + 1;
        }
        assert(cs.take(i as int) =~= cs);
        total
    }

    fn cache_bytes_unchecked(&self) -> (r: usize)
        requires
            cache_bytes(self@.cache) <= BYTES,
        ensures
            r == cache_bytes(self@.cache),
    {
        let ghost cs = self@.cache;
        let mut total: usize = 0;
        let mut i: usize = 0;
        while i < self.cache.len()
            invariant
                i <= self.cache@.len(),
                cs == entries_view(self.cache@),
                cache_bytes(cs) <= BYTES,
                total == cache_bytes(cs.take(i as int)),
            decreases self.cache@.len() - i,
        {
            proof {
                assert(cs.take(i + 1).drop_last() =~= cs.take(i as int));
                assert(cs[i as int] == self.cache@[i as int]@);
                lemma_cache_prefix(cs, i + 1);
                lemma_sums_nonneg(Seq::empty(), cs.take(i as int));
            }
            let e = &self.cache[i];
            total = total + e.key.len() + e.wire.len() + 128;
            i = i + 1;
        }
        assert(cs.take(i as int) =~= cs);
        total
    }

    fn oldest_exec(&self) -> (r: usize)
        requires
            self@.cache.len() > 0,
        ensures
            r == oldest(self@.cache),
    {
        let ghost cs = self@.cache;
        let mut o: usize = 0;
        let mut i: usize = 1;
        assert(cs.take(1).drop_last() =~= cs.take(0));
        while i < self.cache.len()
            invariant
                1 <= i <= self.cache@.len(),
                cs == entries_view(self.cache@),
                o == oldest(cs.take(i as int)),
                o < i,
            decreases self.cache@.len() - i,
        {
            proof {
                assert(cs.take(i + 1).drop_last() =~= cs.take(i as int));
                assert(cs.take(i + 1).last() == cs[i as int]);
                assert(cs.take(i + 1)[o as int] == cs[o as int]);
                assert(cs[i as int] == self.cache@[i as int]@);
                assert(cs[o as int] == self.cache@[o as int]@);
            }
            if self.cache[i].last < self.cache[o].last {
                o = i;
            }
            i = i + 1;
        }
        assert(cs.take(i as int) =~= cs);
        o
    }

    fn insert_entry(&mut self, e: CacheEntry)
        ensures
            final(self)@ == (ResolverV {
                cache: old(self)@.cache.insert(key_place(old(self)@.cache, e@.key), e@),
                ..old(self)@
            }),
    {
        let ghost cs = self@.cache;
        let mut p: usize = self.cache.len();
        assert(cs.take(p as int) =~= cs);
        while p > 0 && !bytes_less(self.cache[p - 1].key.as_slice(), e.key.as_slice())
            invariant
                p <= self.cache@.len(),
                cs == entries_view(self.cache@),
                self@ == old(self)@,
                key_place(cs, e@.key) == key_place(cs.take(p as int), e@.key),
            decreases p,
        {
            assert(cs[p - 1] == self.cache@[p - 1]@);
            assert(cs.take(p as int).last() == cs[p - 1]);
            assert(cs.take(p as int).drop_last() =~= cs.take(p - 1));
            p = p - 1;
        }
        proof {
            if p > 0 {
                assert(cs[p - 1] == self.cache@[p - 1]@);
                assert(cs.take(p as int).last() == cs[p - 1]);
            }
        }
        let ghost ev = e@;
        self.cache.insert(p, e);
        assert(self@.cache =~= cs.insert(p as int, ev));
    }
}

fn same_bytes_exec(a: &[u8], b: &[u8]) -> (r: bool)
    ensures
        r == (a@ == b@),
{
    crate::mdns::cache::same_bytes(a, b)
}

impl Resolver {
    /// Caches answer `b` under `key` (see `spec_store`).
    #[verifier::rlimit(40)]
    fn store(&mut self, key: Vec<u8>, b: &[u8], now: u64) -> (r: Result<(), Error>)
        requires
            old(self).wf(),
        ensures
            final(self).wf(),
            match spec_store(old(self)@.cache, key@, b@, now) {
                None => r is Err && final(self)@ == old(self)@,
                Some(cs) => r is Ok && final(self)@ == (ResolverV { cache: cs, ..old(self)@ }),
            },
    {
        let m = match Message::parse(b, Context::Unicast) {
            Ok(m) => m,
            Err(e) => return Err(e),
        };
        if m.questions.len() == 0 {
            return Ok(());
        }
        let records = non_opt_records(b, &m);
        let positive = has_kind_exec(&m.answers, m.questions[0].kind);
        let rc = reply::rcode(&m);
        let life0 = if rc == 0 && positive {
            min_ttl_exec(&records)
        } else if rc == 0 || rc == 3 {
            soa_ttl_exec(&m.authority)
        } else {
            None
        };
        let life = match life0 {
            None => return Ok(()),
            Some(t) => match min_ttl_exec(&records) {
                None => t,
                Some(x) => if x <= t { x } else { t },
            },
        };
        assert(answer_life(m@) == Some(life));
        if life == 0 {
            return Ok(());
        }
        let d = distinct_exec(&records);
        let sets: usize = if d < 1 { 1 } else { d };
        let wire = if positive { vstd::slice::slice_to_vec(b) } else { cap_soa_exec(b, &m, life) };
        if sets > CACHE_SETS || key.len() > BYTES || wire.len() > BYTES || key.len() + wire.len() + 128 > BYTES {
            return Ok(());
        }
        let size: usize = key.len() + wire.len() + 128;
        let ghost cs0 = self@.cache;
        match self.find_cache(key.as_slice()) {
            Some(i) => {
                proof {
                    lemma_sorted_remove(cs0, i as int);
                    lemma_cache_sum_remove(cs0, i as int);
                    lemma_sums_nonneg(Seq::empty(), cs0);
                }
                self.cache.remove(i);
                assert(self@.cache =~= cs0.remove(i as int));
                proof {
                    assert forall|j: int| 0 <= j < self@.cache.len() implies (#[trigger] self@.cache[j]).key != key@ by {
                        let jo = if j < i { j } else { j + 1 };
                        assert(self@.cache[j] == cs0[jo]);
                        if jo != i {
                            lemma_bytes_lt_irreflexive(key@);
                            if jo < i {
                                assert(bytes_lt(cs0[jo].key, cs0[i as int].key));
                            } else {
                                assert(bytes_lt(cs0[i as int].key, cs0[jo].key));
                            }
                        }
                    }
                }
            },
            None => {},
        }
        let ghost cs1 = self@.cache;
        assert(cs1 == cache_remove(cs0, key@));
        assert(key_absent(cs1, key@));
        proof {
            lemma_evict(cs1, sets as int, size as int, key@);
            lemma_sums_nonneg(Seq::empty(), cs1);
        }
        self.evict_exec(sets, size);
        let ghost cs2 = self@.cache;
        let expires = now.saturating_add((life as u64) * 1000);
        let e = CacheEntry { key, wire, inserted: now, expires, last: now, sets };
        proof {
            lemma_insert_sorted(cs2, e@);
            lemma_key_place(cs2, e@.key);
            lemma_cache_sum_insert(cs2, key_place(cs2, e@.key), e@);
            lemma_sums_nonneg(Seq::empty(), cs2);
        }
        self.insert_entry(e);
        Ok(())
    }
}

/// How a call ends: with actions, with a given error, or with an error from encoding or
/// decoding a message.
pub enum Outcome {
    Done(Seq<ActionV>),
    Fail(Error),
    Broken,
}

pub open spec fn outcome_matches(r: Result<Vec<Action>, Error>, o: Outcome) -> bool {
    match o {
        Outcome::Done(a) => r matches Ok(v) && actions_view(v@) == a,
        Outcome::Fail(e) => r == Err::<Vec<Action>, Error>(e),
        Outcome::Broken => r is Err,
    }
}

/// One reply to `w` carrying `b`, or a broken outcome if `b` cannot be delivered.
pub open spec fn reply_to(w: Waiter, b: Option<Seq<u8>>) -> Outcome {
    match b {
        None => Outcome::Broken,
        Some(bytes) => match spec_deliver(w.limit, w.id, bytes) {
            None => Outcome::Broken,
            Some(x) => Outcome::Done(seq![ActionV::Reply { client: w.client, bytes: x }]),
        },
    }
}

/// `service.arpa.`
pub open spec fn service_arpa() -> Seq<Seq<u8>> {
    seq![seq![115u8, 101u8, 114u8, 118u8, 105u8, 99u8, 101u8], seq![97u8, 114u8, 112u8, 97u8]]
}

/// The rates still running at `now`.
pub open spec fn live_rates(rs: Seq<Rate>, now: u64) -> Seq<Rate>
    decreases rs.len(),
{
    if rs.len() == 0 {
        rs
    } else {
        let prev = live_rates(rs.drop_last(), now);
        if rs.last().until > now {
            prev.push(rs.last())
        } else {
            prev
        }
    }
}

pub open spec fn rate_find(rs: Seq<Rate>, ip: IpAddress) -> Option<int> {
    if exists|i: int| 0 <= i < rs.len() && rs[i].ip == ip {
        Some(choose|i: int| 0 <= i < rs.len() && rs[i].ip == ip)
    } else {
        None
    }
}

/// Counts one query from `ip`: a new address starts a one-second window, when fewer than 32
/// are tracked; an address allows 32 queries per window. None when over either limit.
pub open spec fn count_query(rs: Seq<Rate>, ip: IpAddress, now: u64) -> Option<Seq<Rate>> {
    match rate_find(rs, ip) {
        None => if rs.len() >= 32 {
            None
        } else {
            Some(rs.push(Rate { ip, until: crate::ipv4::sat_add(now, 1000), count: 1 }))
        },
        Some(i) => if rs[i].count >= 32 {
            None
        } else {
            Some(rs.update(i, Rate { count: (rs[i].count + 1) as u8, ..rs[i] }))
        },
    }
}

/// A standard query with one question, no answer or authority records, only OPT records in
/// the additional section, from a unicast address with a port.
pub open spec fn query_acceptable(m: MessageV, client: Client) -> bool {
    &&& m.flags & 0xf800u16 == 0
    &&& m.questions.len() == 1
    &&& m.answers.len() == 0
    &&& m.authority.len() == 0
    &&& forall|i: int| 0 <= i < m.additional.len() ==> (#[trigger] m.additional[i]).kind == 41
    &&& client.address.port != 0
    &&& !ip_multicast(client.address.ip)
    &&& !ip_unspecified(client.address.ip)
}

/// The reply to an update: NOTIMP with the update's zone.
pub open spec fn refused_update(m: MessageV) -> MessageV {
    reply::header_only(m.id, 0xa804u16, m.questions)
}


pub open spec fn cache_live(cs: Seq<CacheEntryV>, now: u64) -> Seq<CacheEntryV>
    decreases cs.len(),
{
    if cs.len() == 0 {
        cs
    } else {
        let prev = cache_live(cs.drop_last(), now);
        if cs.last().expires > now {
            prev.push(cs.last())
        } else {
            prev
        }
    }
}

/// How many waiters have a client at `ip`.
pub open spec fn waiters_from(ps: Seq<PendingV>, ip: IpAddress) -> int
    decreases ps.len(),
{
    if ps.len() == 0 {
        0
    } else {
        waiters_from(ps.drop_last(), ip) + waiters_at(ps.last().waiters, ip)
    }
}

pub open spec fn waiters_at(ws: Seq<Waiter>, ip: IpAddress) -> int
    decreases ws.len(),
{
    if ws.len() == 0 {
        0
    } else {
        waiters_at(ws.drop_last(), ip) + if ws.last().client.address.ip == ip { 1int } else { 0int }
    }
}

/// The first transaction for cache key `key`.
pub open spec fn pending_with_key(ps: Seq<PendingV>, key: Seq<u8>) -> Option<int>
    decreases ps.len(),
{
    if ps.len() == 0 {
        None
    } else {
        match pending_with_key(ps.drop_last(), key) {
            Some(i) => Some(i),
            None => if ps.last().key == key {
                Some(ps.len() - 1)
            } else {
                None
            },
        }
    }
}

pub enum SubmitPlan {
    Settled(ResolverV, Outcome),
    Forward(ResolverV, PendingV),
}

/// What `submit` does with a query, up to drawing the random octets of a query upstream: the
/// state and outcome, or the state and transaction (its query yet to be made) to forward.
pub open spec fn spec_submit(r: ResolverV, client: Client, bytes: Seq<u8>, now: u64) -> SubmitPlan {
    match parse_message(bytes, Context::Unicast) {
        None => SubmitPlan::Settled(r, Outcome::Broken),
        Some(m) => spec_accept(r, m, client, now),
    }
}

/// The first steps for a parsed query `m`: updates are answered NOTIMP, malformed queries and
/// clients over their rate turned away, and EDNS versions other than zero answered BADVERS.
pub open spec fn spec_accept(r: ResolverV, m: MessageV, client: Client, now: u64) -> SubmitPlan {
    let w = Waiter { client, id: m.id, limit: spec_client_limit(client, m) };
    if m.flags & 0xf800u16 == 0x2800u16 && m.questions.len() == 1 {
        SubmitPlan::Settled(r, reply_to(w, spec_encode_opt(refused_update(m))))
    } else if !query_acceptable(m, client) {
        SubmitPlan::Settled(r, Outcome::Fail(Error::Invalid))
    } else {
        let live = live_rates(r.rates, now);
        match count_query(live, client.address.ip, now) {
            None => SubmitPlan::Settled(ResolverV { rates: live, ..r }, Outcome::Fail(Error::Capacity)),
            Some(rates) => {
                let r1 = ResolverV { rates, ..r };
                if exists|i: int| 0 <= i < m.additional.len() && (m.additional[i].ttl >> 16u32) & 255u32 != 0 {
                    SubmitPlan::Settled(r1, reply_to(w, spec_encode_opt(reply::badvers_message(m))))
                } else {
                    match spec_encode_opt(reply::key_message(m)) {
                        None => SubmitPlan::Settled(r1, Outcome::Broken),
                        Some(key) => spec_resolve(r1, m, w, key, now),
                    }
                }
            },
        }
    }
}

/// Whether the question lies in a zone answered locally: `service.arpa.` (but for a DS query
/// with DNSSEC OK there) or one of the local zones.
pub open spec fn answered_locally(r: ResolverV, m: MessageV) -> bool {
    let q = m.questions[0];
    let in_service = spec_within(q.name, service_arpa());
    let ds = in_service && q.kind == 43 && exists|i: int| 0 <= i < m.additional.len() && m.additional[i].kind == 41
        && m.additional[i].ttl & 0x8000u32 != 0;
    let local = exists|i: int| 0 <= i < r.local_zones.len() && spec_within(q.name, r.local_zones[i]);
    !ds && (in_service || local)
}

/// An admitted query with cache key `key`: NXDOMAIN for local zones, a cached answer, a
/// capacity refusal, joining a transaction for the same key, SERVFAIL without upstreams, or
/// forwarding.
pub open spec fn spec_resolve(r: ResolverV, m: MessageV, w: Waiter, key: Seq<u8>, now: u64) -> SubmitPlan {
    if answered_locally(r, m) {
        SubmitPlan::Settled(r, reply_to(w, spec_encode_opt(reply::failure_message(m, 3))))
    } else {
        let cs = cache_live(r.cache, now);
        match cache_find(cs, key) {
            Some(i) => {
                let r2 = ResolverV { cache: cs.update(i, CacheEntryV { last: now, ..cs[i] }), ..r };
                let elapsed = (if now >= cs[i].inserted { now - cs[i].inserted } else { 0 }) / 1000;
                SubmitPlan::Settled(r2, reply_to(w, reply::spec_decay(cs[i].wire, elapsed as u64)))
            },
            None => spec_enqueue(ResolverV { cache: cs, ..r }, m, w, key, now),
        }
    }
}

/// Queueing an uncached query: within the waiter budgets, joined to a transaction for the
/// same key or started anew.
pub open spec fn spec_enqueue(r: ResolverV, m: MessageV, w: Waiter, key: Seq<u8>, now: u64) -> SubmitPlan {
    if waiter_count(r.pending) >= WAITERS || waiters_from(r.pending, w.client.address.ip) >= 8 || pending_bytes(r.pending)
        + 1024 > BYTES {
        SubmitPlan::Settled(r, Outcome::Fail(Error::Capacity))
    } else {
        match pending_with_key(r.pending, key) {
            Some(i) => SubmitPlan::Settled(
                ResolverV { pending: r.pending.update(i, PendingV { waiters: r.pending[i].waiters.push(w), ..r.pending[i] }), ..r },
                Outcome::Done(Seq::empty()),
            ),
            None => if r.upstreams.len() == 0 {
                SubmitPlan::Settled(r, reply_to(w, spec_encode_opt(reply::failure_message(m, 2))))
            } else if r.pending.len() >= PENDING {
                SubmitPlan::Settled(r, Outcome::Fail(Error::Capacity))
            } else {
                SubmitPlan::Forward(r, new_pending(key, m, w, now))
            },
        }
    }
}

pub open spec fn spec_encode_opt(m: MessageV) -> Option<Seq<u8>> {
    crate::dns::wire::spec_encode(m, Context::Unicast)
}

pub open spec fn arbitrary_query() -> UpstreamQueryV {
    UpstreamQueryV { exchange: 0, server: SocketAddress { ip: IpAddress::V4([0u8, 0u8, 0u8, 0u8]), port: 0 }, source_port: 0, tcp: false, bytes: Seq::empty() }
}

/// Forwarding transaction `p` of state `s` upstream with the given random octets: the state
/// and outcome.
#[verifier::opaque]
pub open spec fn spec_forward(s: ResolverV, p: PendingV, bytes: Seq<u8>, rnd: Seq<u8>) -> (ResolverV, Outcome) {
    match spec_query(s.pending, s.next, bytes, s.upstreams[0], rnd) {
        None => (s, Outcome::Fail(Error::Capacity)),
        Some(q) => {
            let s1 = ResolverV { next: q.exchange, ..s };
            let pq = PendingV { query: q, ..p };
            if pending_bytes(s.pending) + charge(pq) > BYTES {
                (s1, Outcome::Fail(Error::Capacity))
            } else {
                (ResolverV { pending: pending_insert(s.pending, pq), ..s1 }, Outcome::Done(seq![ActionV::Upstream(q)]))
            }
        },
    }
}

proof fn lemma_live_rates(rs: Seq<Rate>, now: u64)
    requires
        rates_unique(rs),
    ensures
        rates_unique(live_rates(rs, now)),
        live_rates(rs, now).len() <= rs.len(),
        forall|i: int| 0 <= i < live_rates(rs, now).len() ==> exists|j: int| 0 <= j < rs.len() && #[trigger] live_rates(rs, now)[i] == rs[j],
    decreases rs.len(),
{
    if rs.len() > 0 {
        let d = rs.drop_last();
        assert(rates_unique(d)) by {
            assert forall|i: int, j: int| 0 <= i < j < d.len() implies (#[trigger] d[i]).ip != (#[trigger] d[j]).ip by {
                assert(d[i] == rs[i] && d[j] == rs[j]);
            }
        }
        lemma_live_rates(d, now);
        let prev = live_rates(d, now);
        let out = live_rates(rs, now);
        assert forall|i: int| 0 <= i < out.len() implies exists|j: int| 0 <= j < rs.len() && #[trigger] out[i] == rs[j] by {
            if i < prev.len() {
                assert(out[i] == prev[i]);
                let j = choose|j: int| 0 <= j < d.len() && prev[i] == d[j];
                assert(d[j] == rs[j]);
            } else {
                assert(out[i] == rs[rs.len() - 1]);
            }
        }
        if rs.last().until > now {
            assert forall|a: int, b: int| 0 <= a < b < out.len() implies (#[trigger] out[a]).ip != (#[trigger] out[b]).ip by {
                assert(out[a] == prev[a]);
                if b < prev.len() {
                    assert(out[b] == prev[b]);
                } else {
                    let j = choose|j: int| 0 <= j < d.len() && prev[a] == d[j];
                    assert(d[j] == rs[j]);
                    assert(rs[j].ip != rs[rs.len() - 1].ip);
                }
            }
        }
    }
}

proof fn lemma_rate_find(rs: Seq<Rate>, ip: IpAddress, i: int)
    requires
        rates_unique(rs),
        0 <= i < rs.len(),
        rs[i].ip == ip,
    ensures
        rate_find(rs, ip) == Some(i),
{
    let x = choose|x: int| 0 <= x < rs.len() && rs[x].ip == ip;
    if x != i {
        if x < i {
            assert(rs[x].ip != rs[i].ip);
        } else {
            assert(rs[i].ip != rs[x].ip);
        }
    }
}

fn same_ip(a: &IpAddress, b: &IpAddress) -> (r: bool)
    ensures
        r == (*a == *b),
{
    let x = SocketAddress { ip: *a, port: 0 };
    let y = SocketAddress { ip: *b, port: 0 };
    crate::dns::privacy::policy::same_socket(&x, &y)
}

proof fn lemma_cache_live(cs: Seq<CacheEntryV>, now: u64)
    requires
        keys_sorted(cs),
    ensures
        keys_sorted(cache_live(cs, now)),
        cache_sets(cache_live(cs, now)) <= cache_sets(cs),
        cache_bytes(cache_live(cs, now)) <= cache_bytes(cs),
        forall|i: int| 0 <= i < cache_live(cs, now).len() ==> exists|j: int| 0 <= j < cs.len() && #[trigger] cache_live(cs, now)[i] == cs[j],
    decreases cs.len(),
{
    if cs.len() > 0 {
        let d = cs.drop_last();
        assert(keys_sorted(d)) by {
            assert forall|i: int, j: int| 0 <= i < j < d.len() implies bytes_lt((#[trigger] d[i]).key, (#[trigger] d[j]).key) by {
                assert(d[i] == cs[i] && d[j] == cs[j]);
            }
        }
        lemma_cache_live(d, now);
        let prev = cache_live(d, now);
        let out = cache_live(cs, now);
        assert forall|i: int| 0 <= i < out.len() implies exists|j: int| 0 <= j < cs.len() && #[trigger] out[i] == cs[j] by {
            if i < prev.len() {
                assert(out[i] == prev[i]);
                let j = choose|j: int| 0 <= j < d.len() && prev[i] == d[j];
                assert(d[j] == cs[j]);
            } else {
                assert(out[i] == cs[cs.len() - 1]);
            }
        }
        if cs.last().expires > now {
            assert(out.drop_last() =~= prev);
            assert forall|a: int, b: int| 0 <= a < b < out.len() implies bytes_lt((#[trigger] out[a]).key, (#[trigger] out[b]).key) by {
                assert(out[a] == prev[a]);
                if b < prev.len() {
                    assert(out[b] == prev[b]);
                } else {
                    let j = choose|j: int| 0 <= j < d.len() && prev[a] == d[j];
                    assert(d[j] == cs[j]);
                }
            }
        }
    }
}

proof fn lemma_waiters_from(ps: Seq<PendingV>, ip: IpAddress)
    ensures
        0 <= waiters_from(ps, ip) <= waiter_count(ps),
    decreases ps.len(),
{
    if ps.len() > 0 {
        lemma_waiters_from(ps.drop_last(), ip);
        lemma_waiters_at(ps.last().waiters, ip);
    }
}

proof fn lemma_waiters_at(ws: Seq<Waiter>, ip: IpAddress)
    ensures
        0 <= waiters_at(ws, ip) <= ws.len(),
    decreases ws.len(),
{
    if ws.len() > 0 {
        lemma_waiters_at(ws.drop_last(), ip);
    }
}

impl Resolver {
    fn retain_rates(&mut self, now: u64)
        requires
            old(self).wf(),
        ensures
            final(self)@ == (ResolverV { rates: live_rates(old(self)@.rates, now), ..old(self)@ }),
            final(self).wf(),
    {
        let ghost rs = self@.rates;
        let mut kept: Vec<Rate> = Vec::new();
        let mut i: usize = 0;
        assert(rs.take(0) =~= Seq::<Rate>::empty());
        while i < self.rates.len()
            invariant
                i <= self.rates@.len(),
                rs == self.rates@,
                self@ == old(self)@,
                kept@ == live_rates(rs.take(i as int), now),
            decreases self.rates@.len() - i,
        {
            assert(rs.take(i + 1).drop_last() =~= rs.take(i as int));
            let r = self.rates[i];
            if r.until > now {
                kept.push(r);
            }
            i = i + 1;
        }
        assert(rs.take(i as int) =~= rs);
        proof {
            lemma_live_rates(rs, now);
        }
        self.rates = kept;
    }

    /// Counts a query from `ip` (see `count_query`); false, changing nothing, over a limit.
    fn count_query_exec(&mut self, ip: IpAddress, now: u64) -> (ok: bool)
        requires
            old(self).wf(),
        ensures
            final(self).wf(),
            match count_query(old(self)@.rates, ip, now) {
                None => !ok && final(self)@ == old(self)@,
                Some(rs) => ok && final(self)@ == (ResolverV { rates: rs, ..old(self)@ }),
            },
    {
        let ghost rs = self@.rates;
        let mut i: usize = 0;
        while i < self.rates.len()
            invariant
                i <= self.rates@.len(),
                rs == self.rates@,
                self@ == old(self)@,
                old(self).wf(),
                rs == old(self)@.rates,
                forall|k: int| 0 <= k < i ==> (#[trigger] rs[k]).ip != ip,
            decreases self.rates@.len() - i,
        {
            if same_ip(&self.rates[i].ip, &ip) {
                proof {
                    lemma_rate_find(rs, ip, i as int);
                }
                let r = self.rates[i];
                if r.count >= 32 {
                    return false;
                }
                self.rates.set(i, Rate { count: r.count + 1, ..r });
                proof {
                    assert forall|a: int, b: int| 0 <= a < b < self.rates@.len() implies (#[trigger] self.rates@[a]).ip != (#[trigger] self.rates@[b]).ip by {
                        assert(self.rates@[a].ip == rs[a].ip && self.rates@[b].ip == rs[b].ip);
                    }
                }
                return true;
            }
            i = i + 1;
        }
        if self.rates.len() >= 32 {
            return false;
        }
        let until = now.saturating_add(1000);
        self.rates.push(Rate { ip, until, count: 1 });
        proof {
            assert forall|a: int, b: int| 0 <= a < b < self.rates@.len() implies (#[trigger] self.rates@[a]).ip != (#[trigger] self.rates@[b]).ip by {
                if b < rs.len() {
                    assert(self.rates@[a] == rs[a] && self.rates@[b] == rs[b]);
                } else {
                    assert(self.rates@[a] == rs[a]);
                }
            }
        }
        true
    }

    fn retain_cache(&mut self, now: u64)
        requires
            old(self).wf(),
        ensures
            final(self)@ == (ResolverV { cache: cache_live(old(self)@.cache, now), ..old(self)@ }),
            final(self).wf(),
    {
        let ghost cs = self@.cache;
        let mut rest: Vec<CacheEntry> = Vec::new();
        std::mem::swap(&mut rest, &mut self.cache);
        let mut kept: Vec<CacheEntry> = Vec::new();
        assert(entries_view(rest@) =~= cs.skip(0));
        assert(entries_view(kept@) =~= cache_live(cs.take(0), now));
        while rest.len() > 0
            invariant
                cs.len() >= rest@.len(),
                entries_view(rest@) == cs.skip(cs.len() - rest@.len()),
                entries_view(kept@) == cache_live(cs.take(cs.len() - rest@.len()), now),
            decreases rest@.len(),
        {
            let ghost k = cs.len() - rest@.len();
            let ghost rv = entries_view(rest@);
            let ghost r0 = rest@;
            assert(rv[0] == cs[k]);
            let e = rest.remove(0);
            assert(rest@ =~= r0.drop_first());
            assert(entries_view(rest@) =~= rv.drop_first());
            assert(rv.drop_first() =~= cs.skip(k + 1));
            assert(cs.take(k + 1).drop_last() =~= cs.take(k));
            assert(cs.take(k + 1).last() == e@);
            if e.expires > now {
                let ghost before = entries_view(kept@);
                kept.push(e);
                assert(entries_view(kept@) =~= before.push(e@));
            }
        }
        assert(cs.take(cs.len() as int) =~= cs);
        self.cache = kept;
        proof {
            lemma_cache_live(cs, now);
        }
    }

    fn waiters_from_exec(&self, ip: IpAddress) -> (r: usize)
        requires
            self.wf(),
        ensures
            r == waiters_from(self@.pending, ip),
    {
        let ghost ps = self@.pending;
        let mut total: usize = 0;
        let mut i: usize = 0;
        while i < self.pending.len()
            invariant
                i <= self.pending@.len(),
                ps == pendings_view(self.pending@),
                waiter_count(ps) <= WAITERS,
                total == waiters_from(ps.take(i as int), ip),
            decreases self.pending@.len() - i,
        {
            let ghost t = ps.take(i + 1);
            proof {
                assert(t.drop_last() =~= ps.take(i as int));
                assert(ps[i as int] == self.pending@[i as int]@);
                lemma_waiters_prefix(ps, i + 1);
                lemma_waiters_from(t, ip);
            }
            let ws = &self.pending[i].waiters;
            let mut k: usize = 0;
            let mut n: usize = 0;
            while k < ws.len()
                invariant
                    k <= ws@.len(),
                    n == waiters_at(ws@.take(k as int), ip),
                    n <= k,
                decreases ws@.len() - k,
            {
                assert(ws@.take(k + 1).drop_last() =~= ws@.take(k as int));
                if same_ip(&ws[k].client.address.ip, &ip) {
                    n = n + 1;
                }
                k = k + 1;
            }
            assert(ws@.take(k as int) =~= ws@);
            total = total + n;
            i = i + 1;
        }
        assert(ps.take(i as int) =~= ps);
        total
    }

    fn find_pending_key(&self, key: &[u8]) -> (r: Option<usize>)
        ensures
            r matches Some(k) ==> pending_with_key(self@.pending, key@) == Some(k as int) && k < self@.pending.len(),
            r is None ==> pending_with_key(self@.pending, key@) is None,
    {
        let ghost ps = self@.pending;
        let mut i: usize = 0;
        assert(ps.take(0) =~= Seq::<PendingV>::empty());
        while i < self.pending.len()
            invariant
                i <= self.pending@.len(),
                ps == pendings_view(self.pending@),
                pending_with_key(ps.take(i as int), key@) is None,
            decreases self.pending@.len() - i,
        {
            assert(ps.take(i + 1).drop_last() =~= ps.take(i as int));
            assert(ps[i as int] == self.pending@[i as int]@);
            if same_bytes_exec(self.pending[i].key.as_slice(), key) {
                proof {
                    lemma_key_prefix(ps, key@, i as int + 1);
                }
                return Some(i);
            }
            i = i + 1;
        }
        assert(ps.take(i as int) =~= ps);
        None
    }
}

proof fn lemma_key_prefix(ps: Seq<PendingV>, key: Seq<u8>, k: int)
    requires
        0 < k <= ps.len(),
        pending_with_key(ps.take(k), key) is Some,
    ensures
        pending_with_key(ps, key) == pending_with_key(ps.take(k), key),
    decreases ps.len() - k,
{
    if k < ps.len() {
        assert(ps.take(k + 1).drop_last() =~= ps.take(k));
        lemma_key_prefix(ps, key, k + 1);
    } else {
        assert(ps.take(k) =~= ps);
    }
}

/// A parsed message fits the wire limit.
proof fn lemma_parsed_size(b: Seq<u8>)
    requires
        parse_message(b, Context::Unicast) is Some,
    ensures
        12 <= b.len() <= MAX_WIRE,
        parse_message(b, Context::Unicast)->0.original == b,
{
    crate::dns::wire::lemma_message_spans(b, Context::Unicast);
}

fn reply_with(w: Waiter, b: Result<Vec<u8>, Error>, Ghost(sb): Ghost<Option<Seq<u8>>>) -> (r: Result<Vec<Action>, Error>)
    requires
        match sb {
            None => b is Err,
            Some(x) => b matches Ok(v) && v@ == x && x.len() >= 12,
        },
    ensures
        outcome_matches(r, reply_to(w, sb)),
{
    let v = match b {
        Ok(v) => v,
        Err(e) => return Err(e),
    };
    match reply::deliver(w.client, w.id, w.limit, v.as_slice()) {
        Ok(a) => {
            let mut out: Vec<Action> = Vec::new();
            out.push(a);
            assert(actions_view(out@) =~= seq![a@]);
            Ok(out)
        },
        Err(e) => Err(e),
    }
}

fn service_arpa_name() -> (r: Name)
    ensures
        r@ == service_arpa(),
{
    let mut labels: Vec<Vec<u8>> = Vec::new();
    labels.push(vec![115u8, 101u8, 114u8, 118u8, 105u8, 99u8, 101u8]);
    labels.push(vec![97u8, 114u8, 112u8, 97u8]);
    assert(crate::dns::name::labels_view(labels@) =~= service_arpa());
    proof {
        let ls = service_arpa();
        reveal_with_fuel(crate::dns::name::labels_bytes, 3);
        assert(ls.drop_last().drop_last() =~= Seq::<Seq<u8>>::empty());
        assert(crate::dns::name::labels_bytes(ls).len() == 13);
        assert(crate::dns::name::valid_labels(ls));
    }
    match Name::from_labels(labels) {
        Ok(n) => n,
        Err(_) => {
            assert(false);
            Name::root()
        },
    }
}

fn acceptable_exec(m: &Message, client: &Client) -> (r: bool)
    ensures
        r == query_acceptable(m@, *client),
{
    if m.flags & 0xf800u16 != 0 || m.questions.len() != 1 || m.answers.len() != 0 || m.authority.len() != 0 {
        return false;
    }
    let mut i: usize = 0;
    while i < m.additional.len()
        invariant
            i <= m.additional@.len(),
            forall|k: int| 0 <= k < i ==> (#[trigger] m@.additional[k]).kind == 41,
        decreases m.additional@.len() - i,
    {
        if m.additional[i].kind != 41 {
            assert(m@.additional[i as int].kind != 41);
            return false;
        }
        i = i + 1;
    }
    let sock = client.address;
    origin_usable(&sock)
}

fn edns_version_exec(m: &Message) -> (r: bool)
    ensures
        r == exists|i: int| 0 <= i < m@.additional.len() && (m@.additional[i].ttl >> 16u32) & 255u32 != 0,
{
    let mut i: usize = 0;
    while i < m.additional.len()
        invariant
            i <= m.additional@.len(),
            forall|k: int| 0 <= k < i ==> (m@.additional[k].ttl >> 16u32) & 255u32 == 0,
        decreases m.additional@.len() - i,
    {
        assert(m@.additional[i as int] == m.additional@[i as int]@);
        if (m.additional[i].ttl >> 16u32) & 255u32 != 0 {
            return true;
        }
        i = i + 1;
    }
    false
}

fn ds_bit_exec(m: &Message) -> (r: bool)
    ensures
        r == exists|i: int| 0 <= i < m@.additional.len() && m@.additional[i].kind == 41 && m@.additional[i].ttl & 0x8000u32 != 0,
{
    let mut i: usize = 0;
    while i < m.additional.len()
        invariant
            i <= m.additional@.len(),
            forall|k: int| 0 <= k < i ==> !(m@.additional[k].kind == 41 && m@.additional[k].ttl & 0x8000u32 != 0),
        decreases m.additional@.len() - i,
    {
        assert(m@.additional[i as int] == m.additional@[i as int]@);
        if m.additional[i].kind == 41 && m.additional[i].ttl & 0x8000u32 != 0 {
            return true;
        }
        i = i + 1;
    }
    false
}

fn in_local_zone(zones: &Vec<Name>, n: &Name) -> (r: bool)
    ensures
        r == exists|i: int| 0 <= i < names_view(zones@).len() && spec_within(n@, names_view(zones@)[i]),
{
    let mut i: usize = 0;
    while i < zones.len()
        invariant
            i <= zones@.len(),
            forall|k: int| 0 <= k < i ==> !spec_within(n@, #[trigger] names_view(zones@)[k]),
        decreases zones@.len() - i,
    {
        assert(names_view(zones@)[i as int] == zones@[i as int]@);
        if within(n, &zones[i]) {
            return true;
        }
        i = i + 1;
    }
    false
}

/// The transaction a forwarded query starts, its upstream query yet to be made.
pub open spec fn new_pending(key: Seq<u8>, m: MessageV, w: Waiter, now: u64) -> PendingV {
    PendingV {
        key,
        original: m,
        query: arbitrary_query(),
        question: m.questions[0],
        waiters: seq![w],
        deadline: crate::ipv4::sat_add(now, 10000),
        retry: crate::ipv4::sat_add(now, 1000),
        attempt: 0,
        base: None,
    }
}

impl Resolver {
    /// Forwards `m` (whose bytes are `bytes`, cache key `key`) for waiter `w` with the given
    /// four random octets: a query upstream to the first resolver from a free port, or a
    /// capacity refusal (see `spec_forward`).
    fn forward(&mut self, key: Vec<u8>, m: Message, w: Waiter, bytes: &[u8], rnd: &Vec<u8>, now: u64) -> (r: Result<Vec<Action>, Error>)
        requires
            old(self).wf(),
            old(self)@.upstreams.len() > 0,
            old(self)@.pending.len() < PENDING,
            waiter_count(old(self)@.pending) < WAITERS,
            pending_bytes(old(self)@.pending) + 1024 <= BYTES,
            4 <= bytes@.len() <= MAX_WIRE,
            m@.original == bytes@,
            key@.len() <= MAX_WIRE,
            m@.questions.len() >= 1,
            rnd@.len() == 4,
        ensures
            final(self).wf(),
            ({
                let (s2, o) = spec_forward(old(self)@, new_pending(key@, m@, w, now), bytes@, rnd@);
                final(self)@ == s2 && outcome_matches(r, o)
            }),
    {
        proof {
            lemma_sums_nonneg(self@.pending, self@.cache);
            reveal(spec_forward);
        }
        let q = match query_with(&self.pending, self.next, bytes, self.upstreams[0], rnd) {
            Some(q) => q,
            None => return Err(Error::Capacity),
        };
        self.next = q.exchange;
        let question = m.questions[0].clone();
        let qc = q.clone();
        let mut waiters: Vec<Waiter> = Vec::new();
        waiters.push(w);
        let p = Pending {
            key,
            original: m,
            query: q,
            question,
            waiters,
            deadline: now.saturating_add(10000),
            retry: now.saturating_add(1000),
            attempt: 0,
            base: None,
        };
        assert(p@.waiters =~= seq![w]);
        assert(p@ == (PendingV { query: qc@, ..new_pending(key@, m@, w, now) }));
        let pb = self.pending_bytes();
        let c = p.charge_exec();
        if pb + c > BYTES {
            return Err(Error::Capacity);
        }
        proof {
            lemma_pending_insert(self@.pending, p@);
        }
        self.insert_pending(p);
        let mut out: Vec<Action> = Vec::new();
        let a = Action::Upstream(qc);
        out.push(a);
        assert(actions_view(out@) =~= seq![a@]);
        Ok(out)
    }

    /// Takes a client's query: answers updates NOTIMP, checks the query and the client's rate,
    /// answers BADVERS, local zones and cached answers at once, joins a transaction already
    /// asking the same, answers SERVFAIL without upstreams, and otherwise forwards it
    /// upstream with a random ID and source port (see `spec_submit`). Only the random octets
    /// of the forwarded query come from `rng`; whatever it gives, the outcome is one of those
    /// `spec_forward` describes, or an error of `rng`'s leaving the state as before the draw.
    pub fn submit<R: RandomSource>(&mut self, client: Client, bytes: &[u8], now: u64, rng: &mut R) -> (r: Result<Vec<Action>, Error>)
        requires
            old(self).wf(),
        ensures
            final(self).wf(),
            plan_met(spec_submit(old(self)@, client, bytes@, now), final(self)@, r, bytes@),
    {
        let m = match Message::parse(bytes, Context::Unicast) {
            Ok(m) => m,
            Err(e) => return Err(e),
        };
        self.accept(m, client, bytes, now, rng)
    }

    #[verifier::rlimit(40)]
    fn accept<R: RandomSource>(&mut self, m: Message, client: Client, bytes: &[u8], now: u64, rng: &mut R) -> (r: Result<Vec<Action>, Error>)
        requires
            old(self).wf(),
            parse_message(bytes@, Context::Unicast) == Some(m@),
        ensures
            final(self).wf(),
            plan_met(spec_accept(old(self)@, m@, client, now), final(self)@, r, bytes@),
    {
        proof {
            lemma_parsed_size(bytes@);
        }
        let limit = reply::client_limit(&client, &m);
        let w = Waiter { client, id: m.id, limit };
        if m.flags & 0xf800u16 == 0x2800u16 && m.questions.len() == 1 {
            let mut resp = Message::new(m.id, 0xa804u16);
            resp.questions = reply::copy_questions(&m.questions);
            assert(resp@ == refused_update(m@));
            let b = resp.encode();
            proof {
                if spec_encode_opt(refused_update(m@)) is Some {
                    reply::lemma_encoded_header(refused_update(m@), Context::Unicast);
                }
            }
            return reply_with(w, b, Ghost(spec_encode_opt(refused_update(m@))));
        }
        if !acceptable_exec(&m, &client) {
            return Err(Error::Invalid);
        }
        self.retain_rates(now);
        if !self.count_query_exec(client.address.ip, now) {
            return Err(Error::Capacity);
        }
        if edns_version_exec(&m) {
            let mut answer = Message::new(m.id, 0x8080u16 | (m.flags & 0x110u16));
            answer.questions = reply::copy_questions(&m.questions);
            let no_options: Vec<(u16, Vec<u8>)> = Vec::new();
            assert(crate::dns::wire::options_view(no_options@) =~= Seq::<(u16, Seq<u8>)>::empty());
            let opt = Record { name: Name::root(), kind: 41, class: 4096, ttl: 0x1000000, data: Rdata::Opt(no_options) };
            answer.additional.push(opt);
            assert(records_view(answer.additional@) =~= seq![opt@]);
            assert(answer@ == reply::badvers_message(m@));
            let b = answer.encode();
            proof {
                if spec_encode_opt(reply::badvers_message(m@)) is Some {
                    reply::lemma_encoded_header(reply::badvers_message(m@), Context::Unicast);
                }
            }
            return reply_with(w, b, Ghost(spec_encode_opt(reply::badvers_message(m@))));
        }
        let key = match reply::query_key(&m) {
            Ok(k) => k,
            Err(e) => return Err(e),
        };
        proof {
            reply::lemma_encoded_header(reply::key_message(m@), Context::Unicast);
            lemma_parsed_size(key@);
        }
        self.resolve(m, w, key, bytes, now, rng)
    }

    #[verifier::rlimit(40)]
    #[verifier::spinoff_prover]
    fn answer_cached(&mut self, i: usize, w: Waiter, now: u64) -> (r: Result<Vec<Action>, Error>)
        requires
            old(self).wf(),
            i < old(self)@.cache.len(),
        ensures
            final(self).wf(),
            ({
                let cs = old(self)@.cache;
                let elapsed = (if now >= cs[i as int].inserted { now - cs[i as int].inserted } else { 0 }) / 1000;
                &&& final(self)@ == (ResolverV { cache: cs.update(i as int, CacheEntryV { last: now, ..cs[i as int] }), ..old(self)@ })
                &&& outcome_matches(r, reply_to(w, reply::spec_decay(cs[i as int].wire, elapsed as u64)))
            }),
    {
        let ghost cs = self@.cache;
        assert(self.cache@.len() == cs.len());
        let mut e = self.cache.remove(i);
        assert(e@ == cs[i as int]);
        e.last = now;
        let elapsed: u64 = (if now >= e.inserted { now - e.inserted } else { 0 }) / 1000;
        let b = reply::decay(e.wire.as_slice(), elapsed);
        proof {
            if reply::spec_decay(e@.wire, elapsed) is Some {
                reply::lemma_decay_header(e@.wire, elapsed);
            }
        }
        let ghost ev = e@;
        self.cache.insert(i, e);
        assert(self@.cache =~= cs.update(i as int, ev));
        assert(self@.cache =~= cs.update(i as int, CacheEntryV { last: now, ..cs[i as int] }));
        proof {
            assert forall|a: int, c: int| 0 <= a < c < self@.cache.len() implies bytes_lt((#[trigger] self@.cache[a]).key, (#[trigger] self@.cache[c]).key) by {
                assert(self@.cache[a].key == cs[a].key && self@.cache[c].key == cs[c].key);
            }
            lemma_cache_same_sums(cs, i as int, CacheEntryV { last: now, ..cs[i as int] });
        }
        reply_with(w, b, Ghost(reply::spec_decay(cs[i as int].wire, elapsed)))
    }

    #[verifier::rlimit(40)]
    fn resolve<R: RandomSource>(&mut self, m: Message, w: Waiter, key: Vec<u8>, bytes: &[u8], now: u64, rng: &mut R) -> (r: Result<Vec<Action>, Error>)
        requires
            old(self).wf(),
            4 <= bytes@.len() <= MAX_WIRE,
            m@.original == bytes@,
            m@.questions.len() == 1,
            key@.len() <= MAX_WIRE,
        ensures
            final(self).wf(),
            plan_met(spec_resolve(old(self)@, m@, w, key@, now), final(self)@, r, bytes@),
    {
        let q = &m.questions[0];
        let sa = service_arpa_name();
        let in_service = within(&q.name, &sa);
        let ds = in_service && q.kind == 43 && ds_bit_exec(&m);
        let local = in_local_zone(&self.local_zones, &q.name);
        if !ds && (in_service || local) {
            let b = reply::failure(&m, 3);
            proof {
                if spec_encode_opt(reply::failure_message(m@, 3)) is Some {
                    reply::lemma_encoded_header(reply::failure_message(m@, 3), Context::Unicast);
                }
            }
            return reply_with(w, b, Ghost(spec_encode_opt(reply::failure_message(m@, 3))));
        }
        self.retain_cache(now);
        if let Some(i) = self.find_cache(key.as_slice()) {
            return self.answer_cached(i, w, now);
        }
        self.enqueue(m, w, key, bytes, now, rng)
    }

    fn join_pending(&mut self, i: usize, w: Waiter)
        requires
            old(self).wf(),
            i < old(self)@.pending.len(),
            waiter_count(old(self)@.pending) < WAITERS,
            pending_bytes(old(self)@.pending) + 1024 <= BYTES,
        ensures
            final(self).wf(),
            final(self)@ == (ResolverV {
                pending: old(self)@.pending.update(
                    i as int,
                    PendingV { waiters: old(self)@.pending[i as int].waiters.push(w), ..old(self)@.pending[i as int] },
                ),
                ..old(self)@
            }),
    {
        let ghost ps = self@.pending;
        assert(self.pending@.len() == ps.len());
        let mut p = self.pending.remove(i);
        assert(p@ == ps[i as int]);
        p.waiters.push(w);
        let ghost pv = p@;
        self.pending.insert(i, p);
        assert(pendings_view(self.pending@) =~= ps.update(i as int, pv));
        assert(pv == (PendingV { waiters: ps[i as int].waiters.push(w), ..ps[i as int] }));
        proof {
            lemma_sum_update(ps, i as int, pv);
            assert forall|a: int, c: int| 0 <= a < c < self@.pending.len() implies (#[trigger] self@.pending[a]).query.exchange < (#[trigger] self@.pending[c]).query.exchange by {
                assert(self@.pending[a].query == ps[a].query && self@.pending[c].query == ps[c].query);
            }
        }
    }

    #[verifier::rlimit(40)]
    fn enqueue<R: RandomSource>(&mut self, m: Message, w: Waiter, key: Vec<u8>, bytes: &[u8], now: u64, rng: &mut R) -> (r: Result<Vec<Action>, Error>)
        requires
            old(self).wf(),
            4 <= bytes@.len() <= MAX_WIRE,
            m@.original == bytes@,
            m@.questions.len() == 1,
            key@.len() <= MAX_WIRE,
        ensures
            final(self).wf(),
            plan_met(spec_enqueue(old(self)@, m@, w, key@, now), final(self)@, r, bytes@),
    {
        let wc = self.waiter_count();
        let from = self.waiters_from_exec(w.client.address.ip);
        let pb = self.pending_bytes();
        if wc >= WAITERS || from >= 8 || pb + 1024 > BYTES {
            return Err(Error::Capacity);
        }
        if let Some(i) = self.find_pending_key(key.as_slice()) {
            self.join_pending(i, w);
            let out: Vec<Action> = Vec::new();
            assert(actions_view(out@) =~= Seq::<ActionV>::empty());
            return Ok(out);
        }
        if self.upstreams.len() == 0 {
            let b = reply::failure(&m, 2);
            proof {
                if spec_encode_opt(reply::failure_message(m@, 2)) is Some {
                    reply::lemma_encoded_header(reply::failure_message(m@, 2), Context::Unicast);
                }
            }
            return reply_with(w, b, Ghost(spec_encode_opt(reply::failure_message(m@, 2))));
        }
        if self.pending.len() >= PENDING {
            return Err(Error::Capacity);
        }
        let rnd = match rng.fill(4) {
            Ok(v) => v,
            Err(e) => return Err(e),
        };
        if rnd.len() != 4 {
            return Err(Error::Io);
        }
        let r = self.forward(key, m, w, bytes, &rnd, now);
        proof {
            let (s2, o) = spec_forward(old(self)@, new_pending(key@, m@, w, now), bytes@, rnd@);
            assert(rnd@.len() == 4 && final(self)@ == s2 && outcome_matches(r, o));
        }
        r
    }
}

/// The call ended as `plan` says: the settled state and outcome, or for a forwarded query,
/// an error of the random source with the state before the draw, or what forwarding with
/// some four random octets gives.
pub open spec fn plan_met(plan: SubmitPlan, fin: ResolverV, r: Result<Vec<Action>, Error>, bytes: Seq<u8>) -> bool {
    match plan {
        SubmitPlan::Settled(s, o) => fin == s && outcome_matches(r, o),
        SubmitPlan::Forward(s, p) => (r is Err && fin == s) || exists|rnd: Seq<u8>|
            rnd.len() == 4 && ({
                let (s2, o) = spec_forward(s, p, bytes, rnd);
                fin == s2 && outcome_matches(r, o)
            }),
    }
}

proof fn lemma_cache_same_sums(cs: Seq<CacheEntryV>, i: int, e: CacheEntryV)
    requires
        0 <= i < cs.len(),
        e.sets == cs[i].sets,
        e.key == cs[i].key,
        e.wire == cs[i].wire,
    ensures
        cache_sets(cs.update(i, e)) == cache_sets(cs),
        cache_bytes(cs.update(i, e)) == cache_bytes(cs),
    decreases cs.len(),
{
    if i < cs.len() - 1 {
        assert(cs.update(i, e).drop_last() =~= cs.drop_last().update(i, e));
        lemma_cache_same_sums(cs.drop_last(), i, e);
    } else {
        assert(cs.update(i, e).drop_last() =~= cs.drop_last());
    }
}

/// Replies carrying `b` to each waiter in turn; none if one cannot be delivered.
pub open spec fn deliver_all(ws: Seq<Waiter>, b: Seq<u8>) -> Option<Seq<ActionV>>
    decreases ws.len(),
{
    if ws.len() == 0 {
        Some(Seq::empty())
    } else {
        match deliver_all(ws.drop_last(), b) {
            None => None,
            Some(a) => match spec_deliver(ws.last().limit, ws.last().id, b) {
                None => None,
                Some(x) => Some(a.push(ActionV::Reply { client: ws.last().client, bytes: x })),
            },
        }
    }
}

/// Ending transaction `p` with answer `b`: the answer is cached, then sent to every waiter.
pub open spec fn spec_finish(r: ResolverV, p: PendingV, b: Seq<u8>, now: u64) -> (ResolverV, Outcome) {
    match spec_store(r.cache, p.key, b, now) {
        None => (r, Outcome::Broken),
        Some(cs) => (
            ResolverV { cache: cs, ..r },
            match deliver_all(p.waiters, b) {
                None => Outcome::Broken,
                Some(a) => Outcome::Done(a),
            },
        ),
    }
}

impl Resolver {
    fn finish(&mut self, p: Pending, b: Vec<u8>, now: u64) -> (r: Result<Vec<Action>, Error>)
        requires
            old(self).wf(),
        ensures
            final(self).wf(),
            ({
                let (s, o) = spec_finish(old(self)@, p@, b@, now);
                final(self)@ == s && outcome_matches(r, o)
            }),
    {
        let ghost pv = p@;
        let key = vstd::slice::slice_to_vec(p.key.as_slice());
        match self.store(key, b.as_slice(), now) {
            Ok(()) => {},
            Err(e) => return Err(e),
        }
        proof {
            lemma_parsed_size(b@);
        }
        deliver_each(&p.waiters, b.as_slice())
    }
}

fn deliver_each(ws: &Vec<Waiter>, b: &[u8]) -> (r: Result<Vec<Action>, Error>)
    requires
        b@.len() >= 12,
    ensures
        match deliver_all(ws@, b@) {
            None => r is Err,
            Some(a) => r matches Ok(v) && actions_view(v@) == a,
        },
{
    let mut out: Vec<Action> = Vec::new();
    let mut i: usize = 0;
    assert(ws@.take(0) =~= Seq::<Waiter>::empty());
    assert(actions_view(out@) =~= Seq::<ActionV>::empty());
    while i < ws.len()
        invariant
            i <= ws@.len(),
            b@.len() >= 12,
            deliver_all(ws@.take(i as int), b@) == Some(actions_view(out@)),
        decreases ws@.len() - i,
    {
        assert(ws@.take(i + 1).drop_last() =~= ws@.take(i as int));
        let w = ws[i];
        match reply::deliver(w.client, w.id, w.limit, b) {
            Ok(a) => {
                let ghost before = actions_view(out@);
                out.push(a);
                assert(actions_view(out@) =~= before.push(a@));
            },
            Err(e) => {
                proof {
                    assert(deliver_all(ws@.take(i + 1), b@) is None);
                    lemma_deliver_none(ws@, b@, i as int + 1);
                }
                return Err(e);
            },
        }
        i = i + 1;
    }
    assert(ws@.take(i as int) =~= ws@);
    Ok(out)
}

proof fn lemma_deliver_none(ws: Seq<Waiter>, b: Seq<u8>, k: int)
    requires
        0 < k <= ws.len(),
        deliver_all(ws.take(k), b) is None,
    ensures
        deliver_all(ws, b) is None,
    decreases ws.len() - k,
{
    if k < ws.len() {
        assert(ws.take(k + 1).drop_last() =~= ws.take(k));
        lemma_deliver_none(ws, b, k + 1);
    } else {
        assert(ws.take(k) =~= ws);
    }
}

pub open spec fn queries_of(ps: Seq<PendingV>) -> Seq<UpstreamQueryV> {
    ps.map_values(|p: PendingV| p.query)
}

impl Resolver {
    /// The queries in flight, in exchange order.
    pub fn queries(&self) -> (r: Vec<UpstreamQuery>)
        ensures
            r@.map_values(|q: UpstreamQuery| q@) == queries_of(self@.pending),
    {
        let ghost ps = self@.pending;
        let mut out: Vec<UpstreamQuery> = Vec::new();
        let mut i: usize = 0;
        while i < self.pending.len()
            invariant
                i <= self.pending@.len(),
                ps == pendings_view(self.pending@),
                out@.map_values(|q: UpstreamQuery| q@) == queries_of(ps).take(i as int),
            decreases self.pending@.len() - i,
        {
            assert(ps[i as int] == self.pending@[i as int]@);
            let q = self.pending[i].query.clone();
            let ghost before = out@.map_values(|q: UpstreamQuery| q@);
            out.push(q);
            assert(out@.map_values(|q: UpstreamQuery| q@) =~= before.push(q@));
            i = i + 1;
            assert(out@.map_values(|q: UpstreamQuery| q@) =~= queries_of(ps).take(i as int));
        }
        assert(queries_of(ps).take(i as int) =~= queries_of(ps));
        out
    }
}

/// The transaction with exchange `x`.
pub open spec fn pending_find(ps: Seq<PendingV>, x: u64) -> Option<int> {
    if exists|i: int| 0 <= i < ps.len() && ps[i].query.exchange == x {
        Some(choose|i: int| 0 <= i < ps.len() && ps[i].query.exchange == x)
    } else {
        None
    }
}

/// Whether `m` answers transaction `p`: a standard response under its ID to exactly its
/// question.
pub open spec fn answers_pending(m: MessageV, p: PendingV) -> bool {
    &&& m.flags & 0xf800u16 == 0x8000u16
    &&& p.query.bytes.len() >= 2
    &&& m.id == be16_of(p.query.bytes)
    &&& m.questions.len() == 1
    &&& crate::discovery_proxy::query::same_question(m.questions[0], p.question)
}

pub open spec fn be16_of(b: Seq<u8>) -> u16 {
    crate::bytes::be16(b[0], b[1])
}


/// A reply that answers transaction `i` and is not truncated: see `spec_receive`.
pub open spec fn spec_complete(r: ResolverV, i: int, m: MessageV, bytes: Seq<u8>, now: u64) -> ReceivePlan {
    let p = r.pending[i];
    let r1 = ResolverV { pending: r.pending.remove(i), ..r };
    match p.base {
        Some(base) => {
            let b = match reply::spec_augment(base, m, p.question.name) {
                Some(v) => v,
                None => base,
            };
            let (s, o) = spec_finish(r1, PendingV { base: None, ..p }, b, now);
            ReceivePlan::Settled(s, o)
        },
        None => match reply::spec_additional_question(m, p.question, r.additional_a) {
            None => {
                let (s, o) = spec_finish(r1, p, bytes, now);
                ReceivePlan::Settled(s, o)
            },
            Some(aq) => if spec_within(aq.name, service_arpa()) || exists|k: int|
                0 <= k < r.local_zones.len() && spec_within(aq.name, r.local_zones[k]) {
                let (s, o) = spec_finish(r1, p, bytes, now);
                ReceivePlan::Settled(s, o)
            } else {
                let qm = MessageV {
                    questions: seq![aq],
                    additional: p.original.additional,
                    ..reply::header_only(0, 0x100u16 | (p.original.flags & 0x10u16), Seq::empty())
                };
                match spec_encode_opt(qm) {
                    None => ReceivePlan::Settled(r1, Outcome::Broken),
                    Some(qb) => ReceivePlan::Lookup(r1, PendingV { question: aq, ..p }, qb, p.query.server),
                }
            },
        },
    }
}

/// The outcome of a reply for a transaction whose additional A lookup is not started.
pub enum ReceivePlan {
    Settled(ResolverV, Outcome),
    Lookup(ResolverV, PendingV, Seq<u8>, SocketAddress),
}

/// What a reply from `server` to exchange `x` does: nothing unless it answers a live
/// transaction over the same path; a truncated reply over UDP moves the transaction to TCP;
/// otherwise the transaction ends with the reply (with the A records of a pending
/// additional lookup appended to the answer it completes), or an additional A lookup starts.
pub open spec fn spec_receive(r: ResolverV, x: u64, server: SocketAddress, port: u16, tcp: bool, bytes: Seq<u8>, now: u64) -> ReceivePlan {
    match pending_find(r.pending, x) {
        None => ReceivePlan::Settled(r, Outcome::Done(Seq::empty())),
        Some(i) => {
            let p = r.pending[i];
            if server != p.query.server || port != p.query.source_port || tcp != p.query.tcp || now >= p.deadline {
                ReceivePlan::Settled(r, Outcome::Done(Seq::empty()))
            } else {
                match parse_message(bytes, Context::Unicast) {
                    None => ReceivePlan::Settled(r, Outcome::Done(Seq::empty())),
                    Some(m) => if !answers_pending(m, p) {
                        ReceivePlan::Settled(r, Outcome::Done(Seq::empty()))
                    } else if m.flags & 0x200u16 != 0 {
                        if tcp {
                            ReceivePlan::Settled(r, Outcome::Done(Seq::empty()))
                        } else {
                            let p2 = PendingV { query: UpstreamQueryV { tcp: true, ..p.query }, retry: p.deadline, ..p };
                            ReceivePlan::Settled(
                                ResolverV { pending: r.pending.update(i, p2), ..r },
                                Outcome::Done(seq![ActionV::Upstream(p2.query)]),
                            )
                        }
                    } else {
                        spec_complete(r, i, m, bytes, now)
                    },
                }
            }
        },
    }
}

/// Starting the additional A lookup of transaction `p` (its question already the A question)
/// with query `qb` to `server` and the given random octets, keeping `answer` to complete; if
/// the lookup does not fit the budget, the transaction ends with `answer` as it is.
#[verifier::opaque]
pub open spec fn spec_lookup(s: ResolverV, p: PendingV, qb: Seq<u8>, server: SocketAddress, answer: Seq<u8>, rnd: Seq<u8>, now: u64) -> (
    ResolverV,
    Outcome,
) {
    match spec_query(s.pending, s.next, qb, server, rnd) {
        None => (s, Outcome::Fail(Error::Capacity)),
        Some(q) => {
            let s1 = ResolverV { next: q.exchange, ..s };
            let p2 = PendingV {
                query: q,
                base: Some(answer),
                deadline: crate::ipv4::sat_add(now, 10000),
                retry: crate::ipv4::sat_add(now, 1000),
                attempt: 0,
                ..p
            };
            if pending_bytes(s.pending) + charge(p2) > BYTES {
                spec_finish(s1, PendingV { base: None, ..p2 }, answer, now)
            } else {
                (ResolverV { pending: pending_insert(s.pending, p2), ..s1 }, Outcome::Done(seq![ActionV::Upstream(q)]))
            }
        },
    }
}

/// The call ended as `plan` says; for an additional lookup, an error of the random source
/// with the state before the draw, or what the lookup with some four random octets gives.
pub open spec fn receive_met(plan: ReceivePlan, fin: ResolverV, r: Result<Vec<Action>, Error>, answer: Seq<u8>, now: u64) -> bool {
    match plan {
        ReceivePlan::Settled(s, o) => fin == s && outcome_matches(r, o),
        ReceivePlan::Lookup(s, p, qb, server) => (r is Err && fin == s) || exists|rnd: Seq<u8>|
            rnd.len() == 4 && ({
                let (s2, o) = spec_lookup(s, p, qb, server, answer, rnd, now);
                fin == s2 && outcome_matches(r, o)
            }),
    }
}

proof fn lemma_pending_remove(ps: Seq<PendingV>, i: int)
    requires
        exchanges_sorted(ps),
        0 <= i < ps.len(),
    ensures
        exchanges_sorted(ps.remove(i)),
        pending_bytes(ps.remove(i)) <= pending_bytes(ps),
        waiter_count(ps.remove(i)) <= waiter_count(ps),
{
    lemma_sum_remove(ps, i);
    let out = ps.remove(i);
    assert forall|a: int, b: int| 0 <= a < b < out.len() implies (#[trigger] out[a]).query.exchange < (#[trigger] out[b]).query.exchange by {
        let ao = if a < i { a } else { a + 1 };
        let bo = if b < i { b } else { b + 1 };
        assert(out[a] == ps[ao] && out[b] == ps[bo]);
    }
}

proof fn lemma_charge_bounded(ps: Seq<PendingV>, i: int)
    requires
        0 <= i < ps.len(),
    ensures
        charge(ps[i]) <= pending_bytes(ps),
    decreases ps.len(),
{
    lemma_sums_nonneg(ps.drop_last(), Seq::empty());
    if i < ps.len() - 1 {
        lemma_charge_bounded(ps.drop_last(), i);
        assert(ps.drop_last()[i] == ps[i]);
    } else {
        assert(ps.last() == ps[i]);
    }
}

impl Resolver {
    fn find_exchange(&self, x: u64) -> (r: Option<usize>)
        requires
            exchanges_sorted(self@.pending),
        ensures
            r matches Some(i) ==> i < self@.pending.len() && pending_find(self@.pending, x) == Some(i as int),
            r is None ==> pending_find(self@.pending, x) is None,
    {
        let ghost ps = self@.pending;
        let mut i: usize = 0;
        while i < self.pending.len()
            invariant
                i <= self.pending@.len(),
                ps == pendings_view(self.pending@),
                exchanges_sorted(ps),
                forall|k: int| 0 <= k < i ==> (#[trigger] ps[k]).query.exchange != x,
            decreases self.pending@.len() - i,
        {
            assert(ps[i as int] == self.pending@[i as int]@);
            if self.pending[i].query.exchange == x {
                proof {
                    let c = choose|k: int| 0 <= k < ps.len() && ps[k].query.exchange == x;
                    if c < i {
                        assert(ps[c].query.exchange != x);
                    } else if c > i {
                        assert(ps[i as int].query.exchange < ps[c].query.exchange);
                    }
                }
                return Some(i);
            }
            i = i + 1;
        }
        None
    }

    /// Starts the additional lookup (see `spec_lookup`).
    #[verifier::rlimit(40)]
    fn lookup(&mut self, p: Pending, qb: Vec<u8>, server: SocketAddress, answer: &[u8], rnd: &Vec<u8>, now: u64) -> (r: Result<Vec<Action>, Error>)
        requires
            old(self).wf(),
            old(self)@.pending.len() < PENDING,
            waiter_count(old(self)@.pending) + p@.waiters.len() <= WAITERS,
            charge(p@) <= BYTES,
            12 <= qb@.len() <= MAX_WIRE,
            12 <= answer@.len() <= MAX_WIRE,
            rnd@.len() == 4,
        ensures
            final(self).wf(),
            ({
                let (s2, o) = spec_lookup(old(self)@, p@, qb@, server, answer@, rnd@, now);
                final(self)@ == s2 && outcome_matches(r, o)
            }),
    {
        proof {
            reveal(spec_lookup);
            lemma_sums_nonneg(self@.pending, self@.cache);
        }
        let q = match query_with(&self.pending, self.next, qb.as_slice(), server, rnd) {
            Some(q) => q,
            None => return Err(Error::Capacity),
        };
        self.next = q.exchange;
        let qc = q.clone();
        let mut p2 = p;
        p2.query = q;
        p2.base = Some(vstd::slice::slice_to_vec(answer));
        p2.deadline = now.saturating_add(10000);
        p2.retry = now.saturating_add(1000);
        p2.attempt = 0;
        let pb = self.pending_bytes();
        let c = p2.charge_exec();
        if pb + c > BYTES {
            p2.base = None;
            return self.finish(p2, vstd::slice::slice_to_vec(answer), now);
        }
        proof {
            lemma_pending_insert(self@.pending, p2@);
        }
        self.insert_pending(p2);
        let mut out: Vec<Action> = Vec::new();
        let a = Action::Upstream(qc);
        out.push(a);
        assert(actions_view(out@) =~= seq![a@]);
        Ok(out)
    }
}

impl Resolver {
    /// Takes a reply from `server` on `source_port` to exchange `exchange` (see
    /// `spec_receive`). Only the random octets of an additional lookup come from `rng`;
    /// whatever it gives, the outcome is one of those `spec_lookup` describes, or an error of
    /// `rng`'s leaving the state as before the draw.
    #[verifier::rlimit(40)]
    pub fn receive<R: RandomSource>(
        &mut self,
        exchange: u64,
        server: SocketAddress,
        source_port: u16,
        tcp: bool,
        bytes: &[u8],
        now: u64,
        rng: &mut R,
    ) -> (r: Result<Vec<Action>, Error>)
        requires
            old(self).wf(),
        ensures
            final(self).wf(),
            receive_met(spec_receive(old(self)@, exchange, server, source_port, tcp, bytes@, now), final(self)@, r, bytes@, now),
    {
        let ghost ps = self@.pending;
        let none: Vec<Action> = Vec::new();
        assert(actions_view(none@) =~= Seq::<ActionV>::empty());
        let i = match self.find_exchange(exchange) {
            Some(i) => i,
            None => return Ok(none),
        };
        assert(ps[i as int] == self.pending@[i as int]@);
        let p = &self.pending[i];
        if !crate::dns::privacy::policy::same_socket(&server, &p.query.server) || source_port != p.query.source_port
            || tcp != p.query.tcp || now >= p.deadline {
            return Ok(none);
        }
        let m = match Message::parse(bytes, Context::Unicast) {
            Ok(m) => m,
            Err(_) => return Ok(none),
        };
        let qb = &p.query.bytes;
        let ok = m.flags & 0xf800u16 == 0x8000u16 && qb.len() >= 2 && m.id == (qb[0] as u16) * 256 + (qb[1] as u16)
            && m.questions.len() == 1 && crate::discovery_proxy::query::same_question_exec(&m.questions[0], &p.question);
        if !ok {
            return Ok(none);
        }
        if m.flags & 0x200u16 != 0 {
            if tcp {
                return Ok(none);
            }
            let mut p2 = self.pending.remove(i);
            p2.query.tcp = true;
            p2.retry = p2.deadline;
            let q = p2.query.clone();
            let ghost pv = p2@;
            self.pending.insert(i, p2);
            assert(pendings_view(self.pending@) =~= ps.update(i as int, pv));
            proof {
                lemma_sum_update(ps, i as int, pv);
                assert forall|a: int, c: int| 0 <= a < c < self@.pending.len() implies (#[trigger] self@.pending[a]).query.exchange < (#[trigger] self@.pending[c]).query.exchange by {
                    assert(self@.pending[a].query.exchange == ps[a].query.exchange);
                    assert(self@.pending[c].query.exchange == ps[c].query.exchange);
                }
            }
            let mut out: Vec<Action> = Vec::new();
            let a = Action::Upstream(q);
            out.push(a);
            assert(actions_view(out@) =~= seq![a@]);
            return Ok(out);
        }
        proof {
            lemma_parsed_size(bytes@);
        }
        self.complete(i, m, bytes, now, rng)
    }

    #[verifier::rlimit(60)]
    #[verifier::spinoff_prover]
    fn complete<R: RandomSource>(&mut self, i: usize, m: Message, bytes: &[u8], now: u64, rng: &mut R) -> (r: Result<Vec<Action>, Error>)
        requires
            old(self).wf(),
            i < old(self)@.pending.len(),
            12 <= bytes@.len() <= MAX_WIRE,
        ensures
            final(self).wf(),
            receive_met(spec_complete(old(self)@, i as int, m@, bytes@, now), final(self)@, r, bytes@, now),
    {
        let ghost r0 = self@;
        let ghost ps = self@.pending;
        assert(self.pending@.len() == ps.len());
        proof {
            lemma_pending_remove(ps, i as int);
            lemma_charge_bounded(ps, i as int);
            lemma_sums_nonneg(ps.remove(i as int), Seq::empty());
            lemma_sum_remove(ps, i as int);
        }
        let mut p = self.pending.remove(i);
        assert(p@ == ps[i as int]);
        assert(pendings_view(self.pending@) =~= ps.remove(i as int));
        let base = p.base;
        p.base = None;
        match base {
            Some(b) => {
                let out = match reply::augment(b.as_slice(), &m, &p.question.name) {
                    Ok(v) => v,
                    Err(_) => b,
                };
                return self.finish(p, out, now);
            },
            None => {},
        }
        assert(p@ == ps[i as int]);
        let aq = match reply::additional_question(&m, &p.question, self.additional_a) {
            Some(q) => q,
            None => return self.finish(p, vstd::slice::slice_to_vec(bytes), now),
        };
        let sa = service_arpa_name();
        if within(&aq.name, &sa) || in_local_zone(&self.local_zones, &aq.name) {
            return self.finish(p, vstd::slice::slice_to_vec(bytes), now);
        }
        let mut qm = Message::new(0, 0x100u16 | (p.original.flags & 0x10u16));
        let qc = aq.clone();
        qm.questions.push(qc);
        qm.additional = crate::dns::wire::copy_records(&p.original.additional);
        assert(crate::dns::wire::questions_view(qm.questions@) =~= seq![qc@]);
        assert(qm@ == (MessageV {
            questions: seq![aq@],
            additional: p@.original.additional,
            ..reply::header_only(0, 0x100u16 | (p@.original.flags & 0x10u16), Seq::empty())
        }));
        let qbytes = match qm.encode() {
            Ok(v) => v,
            Err(e) => return Err(e),
        };
        proof {
            reply::lemma_encoded_header(qm@, Context::Unicast);
            lemma_parsed_size(qbytes@);
        }
        let rnd = match rng.fill(4) {
            Ok(v) => v,
            Err(e) => return Err(e),
        };
        if rnd.len() != 4 {
            return Err(Error::Io);
        }
        let server = p.query.server;
        p.question = aq;
        let r = self.lookup(p, qbytes, server, bytes, &rnd, now);
        r
    }
}

} // verus!
