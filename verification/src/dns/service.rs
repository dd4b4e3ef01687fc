//! The DNS service's own bookkeeping: the datagram bindings it holds for upstream queries,
//! the stream connections it opens upstream and serves on ports 53 and 853, and the replies
//! waiting to leave port 53. The socket adapters carry out each decision and report back.
use crate::dns::privacy::policy::same_socket;
use crate::dns::privacy::{IpAddress, SocketAddress};
use crate::dns::resolver::{actions_view, Action, ActionV, Client, UpstreamQuery, UpstreamQueryV};
use vstd::prelude::*;

verus! {

/// Most datagram bindings held for upstream queries, and most upstream stream connections.
pub const MAX_BINDINGS: usize = 8;

/// Most replies waiting to leave port 53.
pub const MAX_REPLIES: usize = 256;

/// The byte budget of the waiting replies, each charged its length and an overhead.
pub const REPLY_BYTES: usize = 65536;

/// What each waiting reply is charged beyond its length.
pub const REPLY_OVERHEAD: usize = 128;

/// Most client connections served at once.
pub const MAX_CONNECTIONS: usize = 64;

/// How many client connections are read in one round.
pub const ROTATION: usize = 8;

/// A datagram binding: the exchange it serves, the local port, and the source address.
#[derive(Clone, Copy, Debug)]
pub struct Binding {
    pub exchange: u64,
    pub port: u16,
    pub source: IpAddress,
}

/// The service's bookkeeping. Bindings are ordered by exchange, connections by identifier.
pub struct Service {
    udp: Vec<Binding>,
    replies: Vec<(Client, Vec<u8>)>,
    bytes: usize,
    incoming: Vec<usize>,
    outgoing: Vec<(u64, usize)>,
    cursor: usize,
    tls: bool,
}

pub struct ServiceV {
    pub udp: Seq<Binding>,
    pub replies: Seq<(Client, Seq<u8>)>,
    pub bytes: int,
    pub incoming: Seq<usize>,
    pub outgoing: Seq<(u64, usize)>,
    pub cursor: usize,
    pub tls: bool,
}

pub open spec fn replies_view(v: Seq<(Client, Vec<u8>)>) -> Seq<(Client, Seq<u8>)> {
    v.map_values(|p: (Client, Vec<u8>)| (p.0, p.1@))
}

pub open spec fn streams_view(v: Seq<(usize, Vec<u8>)>) -> Seq<(usize, Seq<u8>)> {
    v.map_values(|p: (usize, Vec<u8>)| (p.0, p.1@))
}

impl View for Service {
    type V = ServiceV;

    closed spec fn view(&self) -> ServiceV {
        ServiceV {
            udp: self.udp@,
            replies: replies_view(self.replies@),
            bytes: self.bytes as int,
            incoming: self.incoming@,
            outgoing: self.outgoing@,
            cursor: self.cursor,
            tls: self.tls,
        }
    }
}

/// What the waiting replies are charged.
pub open spec fn queued_bytes(rs: Seq<(Client, Seq<u8>)>) -> int
    decreases rs.len(),
{
    if rs.len() == 0 {
        0
    } else {
        queued_bytes(rs.drop_last()) + rs.last().1.len() + REPLY_OVERHEAD
    }
}

proof fn lemma_queued_nonneg(rs: Seq<(Client, Seq<u8>)>)
    ensures
        queued_bytes(rs) >= 0,
    decreases rs.len(),
{
    if rs.len() > 0 {
        lemma_queued_nonneg(rs.drop_last());
    }
}

proof fn lemma_queued_front(rs: Seq<(Client, Seq<u8>)>)
    requires
        rs.len() > 0,
    ensures
        queued_bytes(rs) == rs[0].1.len() + REPLY_OVERHEAD + queued_bytes(rs.drop_first()),
    decreases rs.len(),
{
    if rs.len() == 1 {
        assert(rs.drop_last().len() == 0);
        assert(rs.drop_first().len() == 0);
        assert(queued_bytes(rs.drop_last()) == 0);
        assert(queued_bytes(rs.drop_first()) == 0);
    } else {
        lemma_queued_front(rs.drop_last());
        assert(rs.drop_last().drop_first() =~= rs.drop_first().drop_last());
        assert(rs.drop_first().last() == rs.last());
        assert(queued_bytes(rs.drop_first()) == queued_bytes(rs.drop_first().drop_last())
            + rs.drop_first().last().1.len() + REPLY_OVERHEAD);
    }
}

pub open spec fn exchanges_ascending(u: Seq<Binding>) -> bool {
    forall|i: int, j: int| 0 <= i < j < u.len() ==> u[i].exchange < u[j].exchange
}

pub open spec fn ids_ascending(v: Seq<usize>) -> bool {
    forall|i: int, j: int| 0 <= i < j < v.len() ==> v[i] < v[j]
}

pub open spec fn streams_ascending(v: Seq<(u64, usize)>) -> bool {
    forall|i: int, j: int| 0 <= i < j < v.len() ==> v[i].0 < v[j].0
}

impl ServiceV {
    /// The bounds the service keeps: at most eight bindings and eight upstream connections,
    /// at most 256 waiting replies charged at most 64 KiB, at most 64 client connections,
    /// each collection ordered by its key.
    pub open spec fn inv(self) -> bool {
        &&& self.udp.len() <= MAX_BINDINGS
        &&& exchanges_ascending(self.udp)
        &&& self.replies.len() <= MAX_REPLIES
        &&& self.bytes == queued_bytes(self.replies)
        &&& self.bytes <= REPLY_BYTES
        &&& self.incoming.len() <= MAX_CONNECTIONS
        &&& ids_ascending(self.incoming)
        &&& self.outgoing.len() <= MAX_BINDINGS
        &&& streams_ascending(self.outgoing)
    }
}


/// The service once its oldest reply is taken off the queue.
pub open spec fn after_pop(s: ServiceV) -> ServiceV {
    ServiceV {
        replies: s.replies.drop_first(),
        bytes: s.bytes - s.replies[0].1.len() - REPLY_OVERHEAD,
        ..s
    }
}

/// Whether a reply of `b` may go back to the front of the queue.
pub open spec fn requeue_fits(s: ServiceV, b: Seq<u8>) -> bool {
    s.replies.len() < MAX_REPLIES && s.bytes + b.len() + REPLY_OVERHEAD <= REPLY_BYTES
}

/// The service once a reply is back at the front of the queue.
pub open spec fn after_requeue(s: ServiceV, c: Client, b: Seq<u8>) -> ServiceV {
    ServiceV { replies: s.replies.insert(0, (c, b)), bytes: s.bytes + b.len() + REPLY_OVERHEAD, ..s }
}

/// A reply taken off the queue can always be put back, and putting it back restores the
/// queue and its charge exactly as they were.
pub proof fn lemma_requeue_undoes_pop(s: ServiceV)
    requires
        s.inv(),
        s.replies.len() > 0,
    ensures
        requeue_fits(after_pop(s), s.replies[0].1),
        after_requeue(after_pop(s), s.replies[0].0, s.replies[0].1) == s,
{
    lemma_queued_front(s.replies);
    lemma_queued_nonneg(s.replies.drop_first());
    assert(s.replies.drop_first().insert(0, (s.replies[0].0, s.replies[0].1)) =~= s.replies);
}

/// One action taken into the queue: a datagram reply waits if it fits the bounds, a stream
/// reply goes to its connection if the service serves it, and a query upstream is left to
/// the bindings.
pub open spec fn queue_step(
    st: (Seq<(Client, Seq<u8>)>, int, Seq<(usize, Seq<u8>)>),
    incoming: Seq<usize>,
    a: ActionV,
) -> (Seq<(Client, Seq<u8>)>, int, Seq<(usize, Seq<u8>)>) {
    match a {
        ActionV::Upstream(_) => st,
        ActionV::Reply { client, bytes } => match client.connection {
            Some(id) => if incoming.contains(id) {
                (st.0, st.1, st.2.push((id, bytes)))
            } else {
                st
            },
            None => if st.0.len() < MAX_REPLIES && st.1 + bytes.len() + REPLY_OVERHEAD <= REPLY_BYTES {
                (st.0.push((client, bytes)), st.1 + bytes.len() + REPLY_OVERHEAD, st.2)
            } else {
                st
            },
        },
    }
}

/// The actions taken into the queue one after another.
pub open spec fn spec_queue(
    st: (Seq<(Client, Seq<u8>)>, int, Seq<(usize, Seq<u8>)>),
    incoming: Seq<usize>,
    acts: Seq<ActionV>,
) -> (Seq<(Client, Seq<u8>)>, int, Seq<(usize, Seq<u8>)>)
    decreases acts.len(),
{
    if acts.len() == 0 {
        st
    } else {
        queue_step(spec_queue(st, incoming, acts.drop_last()), incoming, acts.last())
    }
}


/// The queries as plain values.
pub open spec fn upstream_view(v: Seq<UpstreamQuery>) -> Seq<UpstreamQueryV> {
    v.map_values(|q: UpstreamQuery| q@)
}

/// Whether some query of exchange `x` goes over a stream (`tcp`) or in datagrams.
pub open spec fn serves(qs: Seq<UpstreamQueryV>, x: u64, tcp: bool) -> bool {
    exists|i: int| 0 <= i < qs.len() && qs[i].exchange == x && qs[i].tcp == tcp
}

/// Whether some query belongs to exchange `x`.
pub open spec fn serves_any(qs: Seq<UpstreamQueryV>, x: u64) -> bool {
    exists|i: int| 0 <= i < qs.len() && qs[i].exchange == x
}

/// A binding stays while a datagram query of its exchange runs and its source address is
/// still configured.
pub open spec fn binding_live(b: Binding, qs: Seq<UpstreamQueryV>, addrs: Seq<IpAddress>) -> bool {
    serves(qs, b.exchange, false) && addrs.contains(b.source)
}

pub open spec fn kept_bindings(u: Seq<Binding>, qs: Seq<UpstreamQueryV>, addrs: Seq<IpAddress>) -> Seq<Binding>
    decreases u.len(),
{
    if u.len() == 0 {
        u
    } else if binding_live(u.last(), qs, addrs) {
        kept_bindings(u.drop_last(), qs, addrs).push(u.last())
    } else {
        kept_bindings(u.drop_last(), qs, addrs)
    }
}

pub open spec fn released_ports(u: Seq<Binding>, qs: Seq<UpstreamQueryV>, addrs: Seq<IpAddress>) -> Seq<u16>
    decreases u.len(),
{
    if u.len() == 0 {
        Seq::empty()
    } else if binding_live(u.last(), qs, addrs) {
        released_ports(u.drop_last(), qs, addrs)
    } else {
        released_ports(u.drop_last(), qs, addrs).push(u.last().port)
    }
}

pub open spec fn kept_ids(v: Seq<usize>, live: Seq<usize>) -> Seq<usize>
    decreases v.len(),
{
    if v.len() == 0 {
        v
    } else if live.contains(v.last()) {
        kept_ids(v.drop_last(), live).push(v.last())
    } else {
        kept_ids(v.drop_last(), live)
    }
}

pub open spec fn gone_ids(v: Seq<usize>, live: Seq<usize>) -> Seq<usize>
    decreases v.len(),
{
    if v.len() == 0 {
        v
    } else if live.contains(v.last()) {
        gone_ids(v.drop_last(), live)
    } else {
        gone_ids(v.drop_last(), live).push(v.last())
    }
}

pub open spec fn kept_streams(v: Seq<(u64, usize)>, qs: Seq<UpstreamQueryV>) -> Seq<(u64, usize)>
    decreases v.len(),
{
    if v.len() == 0 {
        v
    } else if serves_any(qs, v.last().0) {
        kept_streams(v.drop_last(), qs).push(v.last())
    } else {
        kept_streams(v.drop_last(), qs)
    }
}

pub open spec fn dropped_streams(v: Seq<(u64, usize)>, qs: Seq<UpstreamQueryV>) -> Seq<usize>
    decreases v.len(),
{
    if v.len() == 0 {
        Seq::empty()
    } else if serves_any(qs, v.last().0) {
        dropped_streams(v.drop_last(), qs)
    } else {
        dropped_streams(v.drop_last(), qs).push(v.last().1)
    }
}

pub open spec fn bound(u: Seq<Binding>, x: u64) -> bool {
    exists|i: int| 0 <= i < u.len() && u[i].exchange == x
}

pub open spec fn attached(v: Seq<(u64, usize)>, x: u64) -> bool {
    exists|i: int| 0 <= i < v.len() && v[i].0 == x
}

/// Whether a client connection reaching local port `port` is served: plain on 53, encrypted
/// on 853 when enabled.
pub open spec fn admissible(port: u16, tls: bool) -> bool {
    port == 53 || (port == 853 && tls)
}

/// The connections read in one round: up to eight, starting at the cursor and wrapping.
pub open spec fn spec_rotation(ids: Seq<usize>, cursor: usize) -> Seq<usize> {
    let n: int = if ids.len() < ROTATION { ids.len() as int } else { ROTATION as int };
    Seq::new(n as nat, |k: int| ids[(cursor + k) % (ids.len() as int)])
}

/// The cursor moved on by eight, wrapping at the word size.
pub open spec fn advance(c: usize) -> usize {
    if c + ROTATION <= usize::MAX {
        (c + ROTATION) as usize
    } else {
        (c + ROTATION - usize::MAX - 1) as usize
    }
}

fn serves_exec(qs: &[UpstreamQuery], x: u64, tcp: bool) -> (r: bool)
    ensures
        r == serves(upstream_view(qs@), x, tcp),
{
    let ghost v = upstream_view(qs@);
    let mut i: usize = 0;
    while i < qs.len()
        invariant
            i <= qs@.len(),
            v == upstream_view(qs@),
            forall|k: int| 0 <= k < i ==> !(v[k].exchange == x && v[k].tcp == tcp),
        decreases qs@.len() - i,
    {
        if qs[i].exchange == x && qs[i].tcp == tcp {
            assert(v[i as int].exchange == x && v[i as int].tcp == tcp);
            return true;
        }
        i = i + 1;
    }
    false
}

fn serves_any_exec(qs: &[UpstreamQuery], x: u64) -> (r: bool)
    ensures
        r == serves_any(upstream_view(qs@), x),
{
    let ghost v = upstream_view(qs@);
    let mut i: usize = 0;
    while i < qs.len()
        invariant
            i <= qs@.len(),
            v == upstream_view(qs@),
            forall|k: int| 0 <= k < i ==> v[k].exchange != x,
        decreases qs@.len() - i,
    {
        if qs[i].exchange == x {
            assert(v[i as int].exchange == x);
            return true;
        }
        i = i + 1;
    }
    false
}

fn has_ip(v: &[IpAddress], a: IpAddress) -> (r: bool)
    ensures
        r == v@.contains(a),
{
    let mut i: usize = 0;
    while i < v.len()
        invariant
            i <= v@.len(),
            forall|k: int| 0 <= k < i ==> v@[k] != a,
        decreases v@.len() - i,
    {
        let x = SocketAddress { ip: v[i], port: 0 };
        let y = SocketAddress { ip: a, port: 0 };
        if same_socket(&x, &y) {
            return true;
        }
        i = i + 1;
    }
    false
}

fn has_id(v: &Vec<usize>, x: usize) -> (r: bool)
    ensures
        r == v@.contains(x),
{
    let mut i: usize = 0;
    while i < v.len()
        invariant
            i <= v@.len(),
            forall|k: int| 0 <= k < i ==> v@[k] != x,
        decreases v@.len() - i,
    {
        if v[i] == x {
            return true;
        }
        i = i + 1;
    }
    false
}

impl Service {
    pub open spec fn wf(&self) -> bool {
        self@.inv()
    }

    /// A service with nothing bound, queued or served, and no encrypted listener.
    pub fn new() -> (r: Service)
        ensures
            r.wf(),
            r@.udp.len() == 0,
            r@.replies.len() == 0,
            r@.incoming.len() == 0,
            r@.outgoing.len() == 0,
            r@.cursor == 0,
            !r@.tls,
    {
        let r = Service {
            udp: Vec::new(),
            replies: Vec::new(),
            bytes: 0,
            incoming: Vec::new(),
            outgoing: Vec::new(),
            cursor: 0,
            tls: false,
        };
        assert(replies_view(r.replies@) =~= Seq::<(Client, Seq<u8>)>::empty());
        r
    }

    /// Accept encrypted clients on port 853 from now on; the adapters hold the key material.
    pub fn enable_tls(&mut self)
        requires
            old(self).wf(),
        ensures
            final(self).wf(),
            final(self)@ == (ServiceV { tls: true, ..old(self)@ }),
    {
        self.tls = true;
    }

    /// Whether encrypted clients are accepted.
    pub fn tls_enabled(&self) -> (r: bool)
        ensures
            r == self@.tls,
    {
        self.tls
    }

    /// The datagram bindings, the client connections, and the upstream connections.
    pub fn counts(&self) -> (r: (usize, usize, usize))
        ensures
            r == (self@.udp.len() as usize, self@.incoming.len() as usize, self@.outgoing.len() as usize),
    {
        (self.udp.len(), self.incoming.len(), self.outgoing.len())
    }

    /// How many replies wait, and what they are charged.
    pub fn queued_replies(&self) -> (r: (usize, usize))
        ensures
            r.0 == self@.replies.len(),
            r.1 == self@.bytes,
    {
        assert(self.replies@.len() == self@.replies.len());
        (self.replies.len(), self.bytes)
    }

    /// When the service next has work of its own: at once while replies wait. The deadlines
    /// of encrypted sessions belong to the adapters that hold them.
    pub fn next_deadline(&self, now: u64) -> (r: Option<u64>)
        ensures
            r == (if self@.replies.len() > 0 { Some(now) } else { None::<u64> }),
    {
        assert(self.replies@.len() == self@.replies.len());
        if self.replies.len() > 0 {
            Some(now)
        } else {
            None
        }
    }

    /// Take the resolver's actions: datagram replies wait for port 53 within the bounds,
    /// replies to served connections come back for their streams, and the rest is dropped.
    pub fn queue(&mut self, actions: Vec<Action>) -> (streams: Vec<(usize, Vec<u8>)>)
        requires
            old(self).wf(),
        ensures
            final(self).wf(),
            ({
                let q = spec_queue(
                    (old(self)@.replies, old(self)@.bytes, Seq::empty()),
                    old(self)@.incoming,
                    actions_view(actions@),
                );
                &&& final(self)@ == (ServiceV { replies: q.0, bytes: q.1, ..old(self)@ })
                &&& streams_view(streams@) == q.2
            }),
    {
        let ghost acts = actions_view(actions@);
        let ghost start = (old(self)@.replies, old(self)@.bytes, Seq::<(usize, Seq<u8>)>::empty());
        let mut streams: Vec<(usize, Vec<u8>)> = Vec::new();
        let mut i: usize = 0;
        proof {
            assert(acts.take(0).len() == 0);
            assert(streams_view(streams@) =~= Seq::<(usize, Seq<u8>)>::empty());
        }
        while i < actions.len()
            invariant
                i <= actions@.len(),
                acts == actions_view(actions@),
                acts.len() == actions@.len(),
                start == (old(self)@.replies, old(self)@.bytes, Seq::<(usize, Seq<u8>)>::empty()),
                self@.inv(),
                (self@.replies, self@.bytes, streams_view(streams@)) == spec_queue(
                    start,
                    old(self)@.incoming,
                    acts.take(i as int),
                ),
                self@ == (ServiceV { replies: self@.replies, bytes: self@.bytes, ..old(self)@ }),
            decreases actions@.len() - i,
        {
            proof {
                assert(acts.take(i as int + 1).drop_last() =~= acts.take(i as int));
                assert(acts.take(i as int + 1).last() == acts[i as int]);
            }
            match &actions[i] {
                Action::Upstream(_) => {},
                Action::Reply { client, bytes } => {
                    let b = vstd::slice::slice_to_vec(bytes.as_slice());
                    match client.connection {
                        Some(id) => {
                            if has_id(&self.incoming, id) {
                                let ghost before = streams@;
                                streams.push((id, b));
                                proof {
                                    assert(streams_view(streams@) =~= streams_view(before).push((id, bytes@)));
                                }
                            }
                        },
                        None => {
                            if self.replies.len() < MAX_REPLIES && b.len() <= REPLY_BYTES - REPLY_OVERHEAD
                                && self.bytes + b.len() + REPLY_OVERHEAD <= REPLY_BYTES {
                                let ghost before = self.replies@;
                                let n = b.len();
                                self.replies.push((*client, b));
                                self.bytes = self.bytes + n + REPLY_OVERHEAD;
                                proof {
                                    let rs = replies_view(self.replies@);
                                    assert(rs =~= replies_view(before).push((*client, bytes@)));
                                    assert(rs.drop_last() =~= replies_view(before));
                                }
                            }
                        },
                    }
                },
            }
            i = i + 1;
        }
        proof {
            assert(acts.take(acts.len() as int) =~= acts);
        }
        streams
    }

    /// The reply that has waited longest, taken off the queue and its charge released.
    pub fn pop_reply(&mut self) -> (r: Option<(Client, Vec<u8>)>)
        requires
            old(self).wf(),
        ensures
            final(self).wf(),
            old(self)@.replies.len() == 0 ==> r is None && final(self)@ == old(self)@,
            old(self)@.replies.len() > 0 ==> {
                &&& r matches Some(p) && (p.0, p.1@) == old(self)@.replies[0]
                &&& final(self)@ == after_pop(old(self)@)
            },
    {
        if self.replies.len() == 0 {
            return None;
        }
        let ghost before = replies_view(self.replies@);
        proof {
            lemma_queued_front(before);
            lemma_queued_nonneg(before.drop_first());
        }
        let p = self.replies.remove(0);
        self.bytes = self.bytes - p.1.len() - REPLY_OVERHEAD;
        proof {
            assert(replies_view(self.replies@) =~= before.drop_first());
        }
        Some(p)
    }

    /// Put a reply that could not leave yet back at the front of the queue, if the bounds
    /// still admit it; whether it was put back.
    pub fn requeue_reply(&mut self, client: Client, bytes: Vec<u8>) -> (r: bool)
        requires
            old(self).wf(),
        ensures
            final(self).wf(),
            r == requeue_fits(old(self)@, bytes@),
            r ==> final(self)@ == after_requeue(old(self)@, client, bytes@),
            !r ==> final(self)@ == old(self)@,
    {
        if self.replies.len() >= MAX_REPLIES || bytes.len() > REPLY_BYTES - REPLY_OVERHEAD
            || self.bytes + bytes.len() + REPLY_OVERHEAD > REPLY_BYTES {
            return false;
        }
        let ghost before = replies_view(self.replies@);
        let ghost bv = bytes@;
        let n = bytes.len();
        self.replies.insert(0, (client, bytes));
        self.bytes = self.bytes + n + REPLY_OVERHEAD;
        proof {
            let rs = replies_view(self.replies@);
            assert(rs =~= before.insert(0, (client, bv)));
            lemma_queued_front(rs);
            assert(rs.drop_first() =~= before);
        }
        true
    }

    /// Drop the bindings whose exchange no longer queries in datagrams or whose source
    /// address is gone; the local ports to close.
    pub fn release_stale(&mut self, queries: &[UpstreamQuery], addresses: &[IpAddress]) -> (ports: Vec<u16>)
        requires
            old(self).wf(),
        ensures
            final(self).wf(),
            final(self)@ == (ServiceV {
                udp: kept_bindings(old(self)@.udp, upstream_view(queries@), addresses@),
                ..old(self)@
            }),
            ports@ == released_ports(old(self)@.udp, upstream_view(queries@), addresses@),
    {
        let ghost u = old(self)@.udp;
        let ghost qv = upstream_view(queries@);
        let mut keep: Vec<Binding> = Vec::new();
        let mut ports: Vec<u16> = Vec::new();
        let mut i: usize = 0;
        while i < self.udp.len()
            invariant
                self@ == old(self)@,
                u == self.udp@,
                qv == upstream_view(queries@),
                old(self)@.inv(),
                i <= u.len(),
                keep@ == kept_bindings(u.take(i as int), qv, addresses@),
                ports@ == released_ports(u.take(i as int), qv, addresses@),
                keep@.len() <= i,
                exchanges_ascending(keep@),
                forall|j: int| 0 <= j < keep@.len() ==> exists|k: int| 0 <= k < i && #[trigger] keep@[j] == u[k],
            decreases u.len() - i,
        {
            let b = self.udp[i];
            proof {
                assert(u.take(i as int + 1).drop_last() =~= u.take(i as int));
                assert(u.take(i as int + 1).last() == b);
            }
            if serves_exec(queries, b.exchange, false) && has_ip(addresses, b.source) {
                proof {
                    assert forall|j: int| 0 <= j < keep@.len() implies keep@[j].exchange < b.exchange by {
                        let k = choose|k: int| 0 <= k < i && #[trigger] keep@[j] == u[k];
                    }
                }
                keep.push(b);
                proof {
                    assert(keep@[keep@.len() - 1] == u[i as int]);
                }
            } else {
                ports.push(b.port);
            }
            i = i + 1;
        }
        proof {
            assert(u.take(u.len() as int) =~= u);
        }
        self.udp = keep;
        ports
    }

    /// Whether a query needs a datagram binding opened now: it goes in datagrams, none is
    /// bound for its exchange, and fewer than eight are held.
    pub fn needs_binding(&self, q: &UpstreamQuery) -> (r: bool)
        requires
            self.wf(),
        ensures
            r == (!q.tcp && self@.udp.len() < MAX_BINDINGS && !bound(self@.udp, q.exchange)),
    {
        if q.tcp || self.udp.len() >= MAX_BINDINGS {
            return false;
        }
        let mut i: usize = 0;
        while i < self.udp.len()
            invariant
                i <= self@.udp.len(),
                forall|k: int| 0 <= k < i ==> self@.udp[k].exchange != q.exchange,
            decreases self@.udp.len() - i,
        {
            if self.udp[i].exchange == q.exchange {
                return false;
            }
            i = i + 1;
        }
        true
    }

    /// Record the binding the adapters opened for an exchange, in exchange order; refused
    /// when eight are held or the exchange is bound already.
    pub fn bind(&mut self, exchange: u64, port: u16, source: IpAddress) -> (r: bool)
        requires
            old(self).wf(),
        ensures
            final(self).wf(),
            r == (old(self)@.udp.len() < MAX_BINDINGS && !bound(old(self)@.udp, exchange)),
            r ==> exists|k: int| 0 <= k <= old(self)@.udp.len() && final(self)@ == (ServiceV {
                udp: #[trigger] old(self)@.udp.insert(k, Binding { exchange, port, source }),
                ..old(self)@
            }),
            !r ==> final(self)@ == old(self)@,
    {
        if self.udp.len() >= MAX_BINDINGS {
            return false;
        }
        let ghost u = self@.udp;
        let mut k: usize = 0;
        while k < self.udp.len() && self.udp[k].exchange < exchange
            invariant
                u == self@.udp,
                k <= u.len(),
                forall|j: int| 0 <= j < k ==> u[j].exchange < exchange,
            decreases u.len() - k,
        {
            k = k + 1;
        }
        if k < self.udp.len() && self.udp[k].exchange == exchange {
            return false;
        }
        let b = Binding { exchange, port, source };
        self.udp.insert(k, b);
        proof {
            assert(!bound(u, exchange)) by {
                assert forall|j: int| 0 <= j < u.len() implies u[j].exchange != exchange by {
                    if j > k as int {
                        assert(u[k as int].exchange < u[j].exchange);
                    }
                }
            }
            let w = u.insert(k as int, b);
            assert(self@.udp == w);
            assert forall|a: int, c: int| 0 <= a < c < w.len() implies w[a].exchange < w[c].exchange by {
                if c < k { } else if c == k { } else if a < k { assert(u[a].exchange < exchange); } else if a == k {
                    assert(w[c] == u[c - 1]);
                } else { }
            }
        }
        true
    }

    /// The bindings held, in exchange order.
    pub fn bindings(&self) -> (r: Vec<Binding>)
        ensures
            r@ == self@.udp,
    {
        self.udp.clone()
    }

    /// Forget the client connections the stack no longer has; the ones forgotten, whose
    /// transactions the resolver is to cancel.
    pub fn forget_gone(&mut self, live: &[usize]) -> (gone: Vec<usize>)
        requires
            old(self).wf(),
        ensures
            final(self).wf(),
            final(self)@ == (ServiceV { incoming: kept_ids(old(self)@.incoming, live@), ..old(self)@ }),
            gone@ == gone_ids(old(self)@.incoming, live@),
    {
        let ghost u = old(self)@.incoming;
        let mut keep: Vec<usize> = Vec::new();
        let mut gone: Vec<usize> = Vec::new();
        let mut i: usize = 0;
        while i < self.incoming.len()
            invariant
                self@ == old(self)@,
                u == self.incoming@,
                old(self)@.inv(),
                i <= u.len(),
                keep@ == kept_ids(u.take(i as int), live@),
                gone@ == gone_ids(u.take(i as int), live@),
                keep@.len() <= i,
                ids_ascending(keep@),
                forall|j: int| 0 <= j < keep@.len() ==> exists|k: int| 0 <= k < i && #[trigger] keep@[j] == u[k],
            decreases u.len() - i,
        {
            let id = self.incoming[i];
            proof {
                assert(u.take(i as int + 1).drop_last() =~= u.take(i as int));
                assert(u.take(i as int + 1).last() == id);
            }
            let mut found = false;
            let mut n: usize = 0;
            while n < live.len()
                invariant
                    n <= live@.len(),
                    found == (exists|m: int| 0 <= m < n && live@[m] == id),
                decreases live@.len() - n,
            {
                if live[n] == id {
                    found = true;
                }
                n = n + 1;
            }
            proof {
                if found {
                    let m = choose|m: int| 0 <= m < live@.len() && live@[m] == id;
                    assert(live@.contains(id));
                } else {
                    assert(!live@.contains(id));
                }
            }
            if found {
                proof {
                    assert forall|j: int| 0 <= j < keep@.len() implies keep@[j] < id by {
                        let k = choose|k: int| 0 <= k < i && #[trigger] keep@[j] == u[k];
                    }
                }
                keep.push(id);
                proof {
                    assert(keep@[keep@.len() - 1] == u[i as int]);
                }
            } else {
                gone.push(id);
            }
            i = i + 1;
        }
        proof {
            assert(u.take(u.len() as int) =~= u);
        }
        self.incoming = keep;
        gone
    }

    /// Take on a client connection that reached local port `local_port`: served while fewer
    /// than 64 are, if not served already, plain on 53 or encrypted on 853 when enabled.
    pub fn accept_connection(&mut self, id: usize, local_port: u16) -> (r: bool)
        requires
            old(self).wf(),
        ensures
            final(self).wf(),
            r == (old(self)@.incoming.len() < MAX_CONNECTIONS && !old(self)@.incoming.contains(id)
                && admissible(local_port, old(self)@.tls)),
            r ==> exists|k: int| 0 <= k <= old(self)@.incoming.len() && final(self)@ == (ServiceV {
                incoming: #[trigger] old(self)@.incoming.insert(k, id),
                ..old(self)@
            }),
            !r ==> final(self)@ == old(self)@,
    {
        if self.incoming.len() >= MAX_CONNECTIONS || !(local_port == 53 || (local_port == 853 && self.tls)) {
            return false;
        }
        let ghost u = self@.incoming;
        let mut k: usize = 0;
        while k < self.incoming.len() && self.incoming[k] < id
            invariant
                u == self@.incoming,
                k <= u.len(),
                forall|j: int| 0 <= j < k ==> u[j] < id,
            decreases u.len() - k,
        {
            k = k + 1;
        }
        if k < self.incoming.len() && self.incoming[k] == id {
            assert(u[k as int] == id);
            return false;
        }
        self.incoming.insert(k, id);
        proof {
            assert(!u.contains(id)) by {
                assert forall|j: int| 0 <= j < u.len() implies u[j] != id by {
                    if j > k as int {
                        assert(u[k as int] < u[j]);
                    }
                }
            }
            let w = u.insert(k as int, id);
            assert(self@.incoming == w);
            assert forall|a: int, c: int| 0 <= a < c < w.len() implies w[a] < w[c] by {
                if c < k { } else if c == k { } else if a < k { assert(u[a] < id); } else if a == k {
                    assert(w[c] == u[c - 1]);
                } else { }
            }
        }
        true
    }

    /// The client connections to read this round, up to eight from the cursor on, wrapping;
    /// the cursor moves on by eight.
    pub fn rotation(&mut self) -> (ids: Vec<usize>)
        requires
            old(self).wf(),
        ensures
            final(self).wf(),
            ids@ == spec_rotation(old(self)@.incoming, old(self)@.cursor),
            final(self)@ == (ServiceV { cursor: advance(old(self)@.cursor), ..old(self)@ }),
    {
        let ghost u = self@.incoming;
        let len = self.incoming.len();
        let n = if len < ROTATION { len } else { ROTATION };
        let mut ids: Vec<usize> = Vec::new();
        if len > 0 {
            let base = self.cursor % len;
            let mut k: usize = 0;
            while k < n
                invariant
                    u == self@.incoming,
                    len == u.len(),
                    len > 0,
                    n <= len,
                    n <= ROTATION,
                    base == self.cursor % len,
                    base < len,
                    len <= MAX_CONNECTIONS,
                    k <= n,
                    ids@.len() == k,
                    forall|j: int| 0 <= j < k ==> ids@[j] == u[(self.cursor + j) % (len as int)],
                decreases n - k,
            {
                let idx = (base + k) % len;
                proof {
                    vstd::arithmetic::div_mod::lemma_small_mod(k as nat, len as nat);
                    vstd::arithmetic::div_mod::lemma_add_mod_noop(self.cursor as int, k as int, len as int);
                }
                ids.push(self.incoming[idx]);
                k = k + 1;
            }
        }
        proof {
            assert(ids@ =~= spec_rotation(u, self.cursor));
        }
        self.cursor = if self.cursor <= usize::MAX - ROTATION {
            self.cursor + ROTATION
        } else {
            self.cursor - (usize::MAX - ROTATION) - 1
        };
        ids
    }

    /// Drop the upstream connections whose exchange has no query left; the connections to
    /// abort.
    pub fn release_streams(&mut self, queries: &[UpstreamQuery]) -> (aborted: Vec<usize>)
        requires
            old(self).wf(),
        ensures
            final(self).wf(),
            final(self)@ == (ServiceV {
                outgoing: kept_streams(old(self)@.outgoing, upstream_view(queries@)),
                ..old(self)@
            }),
            aborted@ == dropped_streams(old(self)@.outgoing, upstream_view(queries@)),
    {
        let ghost u = old(self)@.outgoing;
        let ghost qv = upstream_view(queries@);
        let mut keep: Vec<(u64, usize)> = Vec::new();
        let mut aborted: Vec<usize> = Vec::new();
        let mut i: usize = 0;
        while i < self.outgoing.len()
            invariant
                self@ == old(self)@,
                u == self.outgoing@,
                qv == upstream_view(queries@),
                old(self)@.inv(),
                i <= u.len(),
                keep@ == kept_streams(u.take(i as int), qv),
                aborted@ == dropped_streams(u.take(i as int), qv),
                keep@.len() <= i,
                streams_ascending(keep@),
                forall|j: int| 0 <= j < keep@.len() ==> exists|k: int| 0 <= k < i && #[trigger] keep@[j] == u[k],
            decreases u.len() - i,
        {
            let e = self.outgoing[i];
            proof {
                assert(u.take(i as int + 1).drop_last() =~= u.take(i as int));
                assert(u.take(i as int + 1).last() == e);
            }
            if serves_any_exec(queries, e.0) {
                proof {
                    assert forall|j: int| 0 <= j < keep@.len() implies keep@[j].0 < e.0 by {
                        let k = choose|k: int| 0 <= k < i && #[trigger] keep@[j] == u[k];
                    }
                }
                keep.push(e);
                proof {
                    assert(keep@[keep@.len() - 1] == u[i as int]);
                }
            } else {
                aborted.push(e.1);
            }
            i = i + 1;
        }
        proof {
            assert(u.take(u.len() as int) =~= u);
        }
        self.outgoing = keep;
        aborted
    }

    /// Whether a query needs an upstream connection opened now: it goes over a plain stream,
    /// none is open for its exchange, and fewer than eight are.
    pub fn needs_stream(&self, q: &UpstreamQuery, encrypted: bool) -> (r: bool)
        requires
            self.wf(),
        ensures
            r == (q.tcp && !encrypted && self@.outgoing.len() < MAX_BINDINGS && !attached(self@.outgoing, q.exchange)),
    {
        if !q.tcp || encrypted || self.outgoing.len() >= MAX_BINDINGS {
            return false;
        }
        let mut i: usize = 0;
        while i < self.outgoing.len()
            invariant
                i <= self@.outgoing.len(),
                forall|k: int| 0 <= k < i ==> self@.outgoing[k].0 != q.exchange,
            decreases self@.outgoing.len() - i,
        {
            if self.outgoing[i].0 == q.exchange {
                return false;
            }
            i = i + 1;
        }
        true
    }

    /// Record the upstream connection the adapters opened for an exchange, in exchange order;
    /// refused when eight are open or the exchange has one.
    pub fn attach(&mut self, exchange: u64, connection: usize) -> (r: bool)
        requires
            old(self).wf(),
        ensures
            final(self).wf(),
            r == (old(self)@.outgoing.len() < MAX_BINDINGS && !attached(old(self)@.outgoing, exchange)),
            r ==> exists|k: int| 0 <= k <= old(self)@.outgoing.len() && final(self)@ == (ServiceV {
                outgoing: #[trigger] old(self)@.outgoing.insert(k, (exchange, connection)),
                ..old(self)@
            }),
            !r ==> final(self)@ == old(self)@,
    {
        if self.outgoing.len() >= MAX_BINDINGS {
            return false;
        }
        let ghost u = self@.outgoing;
        let mut k: usize = 0;
        while k < self.outgoing.len() && self.outgoing[k].0 < exchange
            invariant
                u == self@.outgoing,
                k <= u.len(),
                forall|j: int| 0 <= j < k ==> u[j].0 < exchange,
            decreases u.len() - k,
        {
            k = k + 1;
        }
        if k < self.outgoing.len() && self.outgoing[k].0 == exchange {
            return false;
        }
        self.outgoing.insert(k, (exchange, connection));
        proof {
            assert(!attached(u, exchange)) by {
                assert forall|j: int| 0 <= j < u.len() implies u[j].0 != exchange by {
                    if j > k as int {
                        assert(u[k as int].0 < u[j].0);
                    }
                }
            }
            let w = u.insert(k as int, (exchange, connection));
            assert(self@.outgoing == w);
            assert forall|a: int, c: int| 0 <= a < c < w.len() implies w[a].0 < w[c].0 by {
                if c < k { } else if c == k { } else if a < k { assert(u[a].0 < exchange); } else if a == k {
                    assert(w[c] == u[c - 1]);
                } else { }
            }
        }
        true
    }

    /// The upstream connection open for an exchange, if any.
    pub fn stream_of(&self, exchange: u64) -> (r: Option<usize>)
        requires
            self.wf(),
        ensures
            r is None <==> !attached(self@.outgoing, exchange),
            r matches Some(c) ==> self@.outgoing.contains((exchange, c)),
    {
        let mut i: usize = 0;
        while i < self.outgoing.len()
            invariant
                i <= self@.outgoing.len(),
                forall|k: int| 0 <= k < i ==> self@.outgoing[k].0 != exchange,
            decreases self@.outgoing.len() - i,
        {
            if self.outgoing[i].0 == exchange {
                assert(self@.outgoing[i as int] == (exchange, self.outgoing[i as int].1));
                return Some(self.outgoing[i].1);
            }
            i = i + 1;
        }
        None
    }
}

} // verus!
