//! Resolver configuration learned on the AIL: domain lists from router advertisements and
//! DHCPv6, and the DHCPv6 information-request client's identifiers and timing.
use crate::dns::name::{labels_bytes, labels_view, name_wire, valid_labels, Name};
use crate::error::Error;
use crate::time::RandomSource;
use vstd::prelude::*;

pub mod discovery;
pub use discovery::Discovery;
pub mod learned;

verus! {

/// `now` plus `seconds`, in milliseconds, saturating.
pub open spec fn spec_deadline(now: u64, seconds: u32) -> u64 {
    if now + seconds * 1000 > u64::MAX {
        u64::MAX
    } else {
        (now + seconds * 1000) as u64
    }
}

pub fn deadline(now: u64, seconds: u32) -> (r: u64)
    ensures
        r == spec_deadline(now, seconds),
{
    now.saturating_add((seconds as u64) * 1000)
}

/// An IPv6 resolver address: not unspecified, multicast or loopback.
pub open spec fn spec_valid6(a: Seq<u8>) -> bool {
    &&& !(forall|i: int| 0 <= i < 16 ==> a[i] == 0)
    &&& a[0] != 0xff
    &&& !(a[15] == 1 && forall|i: int| 0 <= i < 15 ==> a[i] == 0)
}

pub fn valid6(a: [u8; 16]) -> (r: Result<(), Error>)
    ensures
        r is Ok <==> spec_valid6(a@),
        r is Err ==> r == Err::<(), Error>(Error::Invalid),
{
    let mut zero_head = true;
    let mut i: usize = 0;
    while i < 15
        invariant
            i <= 15,
            zero_head == forall|j: int| 0 <= j < i ==> a@[j] == 0,
        decreases 15 - i,
    {
        zero_head = zero_head && a[i] == 0;
        i = i + 1;
    }
    if (zero_head && a[15] == 0) || a[0] == 0xff || (zero_head && a[15] == 1) {
        return Err(Error::Invalid);
    }
    proof {
        if forall|j: int| 0 <= j < 16 ==> a@[j] == 0 {
            assert(a@[15] == 0);
        }
    }
    Ok(())
}

/// One uncompressed name from `at`: labels of 1..=63 octets up to a zero octet, at most 255
/// octets in all. Gives its labels and the offset after it.
pub open spec fn name_at(b: Seq<u8>, at: int, labels: Seq<Seq<u8>>, size: int) -> Option<(Seq<Seq<u8>>, int)>
    decreases b.len() - at,
{
    if at < 0 || at >= b.len() {
        None
    } else {
        let n = b[at] as int;
        if n == 0 {
            Some((labels, at + 1))
        } else if n > 63 || at + 1 + n > b.len() || size + n + 1 > 255 {
            None
        } else {
            name_at(b, at + 1 + n, labels.push(b.subrange(at + 1, at + 1 + n)), size + n + 1)
        }
    }
}

pub proof fn lemma_name_at(b: Seq<u8>, at: int, labels: Seq<Seq<u8>>, size: int)
    requires
        0 <= at,
        size == labels_bytes(labels).len() + 1,
        valid_labels(labels),
    ensures
        name_at(b, at, labels, size) matches Some((ls, next)) ==> at < next <= b.len() && valid_labels(ls)
            && ls.len() >= labels.len(),
    decreases b.len() - at,
{
    if 0 <= at < b.len() {
        let n = b[at] as int;
        if n != 0 && !(n > 63 || at + 1 + n > b.len() || size + n + 1 > 255) {
            let l = b.subrange(at + 1, at + 1 + n);
            let ls = labels.push(l);
            assert(ls.drop_last() =~= labels);
            assert forall|i: int| 0 <= i < ls.len() implies 1 <= #[trigger] ls[i].len() <= 63 by {
                if i < labels.len() {
                    assert(ls[i] == labels[i]);
                }
            }
            lemma_name_at(b, at + 1 + n, ls, size + n + 1);
        }
    }
}

pub open spec fn zeros_from(b: Seq<u8>, at: int) -> bool {
    forall|i: int| at <= i < b.len() ==> b[i] == 0
}

/// Names one after another from `at`, at most 64, none empty; with `padding`, zero octets
/// may end the list.
pub open spec fn names_walk(b: Seq<u8>, at: int, out: Seq<Seq<Seq<u8>>>, padding: bool) -> Option<Seq<Seq<Seq<u8>>>>
    decreases b.len() - at,
{
    if at < 0 || at >= b.len() || (padding && zeros_from(b, at)) {
        if out.len() == 0 {
            None
        } else {
            Some(out)
        }
    } else {
        match name_at(b, at, Seq::empty(), 1) {
            None => None,
            Some((ls, next)) => if ls.len() == 0 || out.len() >= 64 {
                None
            } else {
                proof {
                    assert(labels_bytes(Seq::<Seq<u8>>::empty()).len() == 0);
                    lemma_name_at(b, at, Seq::empty(), 1);
                }
                names_walk(b, next, out.push(ls), padding)
            },
        }
    }
}

/// A list of uncompressed domain names (DNSSL, DHCPv6 domain list) of at most 16 KiB: at
/// least one name.
pub open spec fn spec_names(b: Seq<u8>, padding: bool) -> Option<Seq<Seq<Seq<u8>>>> {
    if b.len() > 16384 {
        None
    } else {
        names_walk(b, 0, Seq::empty(), padding)
    }
}

pub open spec fn names_view(v: Seq<Name>) -> Seq<Seq<Seq<u8>>> {
    v.map_values(|n: Name| n@)
}

fn zeros_exec(b: &[u8], at: usize) -> (r: bool)
    requires
        at <= b@.len(),
    ensures
        r == zeros_from(b@, at as int),
{
    let mut i: usize = at;
    while i < b.len()
        invariant
            at <= i <= b@.len(),
            forall|j: int| at <= j < i ==> b@[j] == 0,
        decreases b@.len() - i,
    {
        if b[i] != 0 {
            return false;
        }
        i = i + 1;
    }
    true
}

fn name_at_exec(b: &[u8], start: usize) -> (r: Result<(Vec<Vec<u8>>, usize), Error>)
    requires
        start < b@.len(),
        b@.len() <= 16384,
    ensures
        match name_at(b@, start as int, Seq::empty(), 1) {
            None => r is Err,
            Some((ls, next)) => r matches Ok((v, n)) && labels_view(v@) == ls && n == next,
        },
{
    let l = b.len();
    let mut at: usize = start;
    let mut labels: Vec<Vec<u8>> = Vec::new();
    let mut size: usize = 1;
    let ghost goal = name_at(b@, start as int, Seq::empty(), 1);
    assert(labels_view(labels@) =~= Seq::<Seq<u8>>::empty());
    loop
        invariant
            l == b@.len(),
            l <= 16384,
            at <= l,
            size <= 255,
            goal == name_at(b@, start as int, Seq::empty(), 1),
            goal == name_at(b@, at as int, labels_view(labels@), size as int),
        decreases l - at,
    {
        if at >= l {
            return Err(Error::Invalid);
        }
        let n = b[at] as usize;
        if n == 0 {
            return Ok((labels, at + 1));
        }
        if n > 63 || at + 1 + n > l || size + n + 1 > 255 {
            return Err(Error::Invalid);
        }
        let label = crate::bytes::copy_range(b, at + 1, at + 1 + n);
        let ghost lv = labels_view(labels@);
        labels.push(label);
        assert(labels_view(labels@) =~= lv.push(b@.subrange(at + 1, at + 1 + n as int)));
        size = size + n + 1;
        at = at + 1 + n;
    }
}

/// Reads a list of uncompressed domain names.
pub fn names(b: &[u8], padding: bool) -> (r: Result<Vec<Name>, Error>)
    ensures
        match spec_names(b@, padding) {
            None => r == Err::<Vec<Name>, Error>(Error::Invalid),
            Some(v) => r matches Ok(x) && names_view(x@) == v,
        },
{
    let l = b.len();
    if l > 16384 {
        return Err(Error::Invalid);
    }
    let mut at: usize = 0;
    let mut out: Vec<Name> = Vec::new();
    assert(names_view(out@) =~= Seq::<Seq<Seq<u8>>>::empty());
    while at < l
        invariant
            l == b@.len(),
            l <= 16384,
            at <= l,
            spec_names(b@, padding) == names_walk(b@, at as int, names_view(out@), padding),
        ensures
            spec_names(b@, padding) == names_walk(b@, at as int, names_view(out@), padding),
            at >= l || (padding && zeros_from(b@, at as int)),
        decreases l - at,
    {
        if padding && zeros_exec(b, at) {
            break;
        }
        proof {
            assert(labels_bytes(Seq::<Seq<u8>>::empty()).len() == 0);
            lemma_name_at(b@, at as int, Seq::empty(), 1);
        }
        let (labels, next) = match name_at_exec(b, at) {
            Ok(x) => x,
            Err(_) => return Err(Error::Invalid),
        };
        if labels.len() == 0 || out.len() >= 64 {
            return Err(Error::Invalid);
        }
        let ghost lv = labels_view(labels@);
        let name = match Name::from_labels(labels) {
            Ok(n) => n,
            Err(_) => return Err(Error::Invalid),
        };
        let ghost before = names_view(out@);
        out.push(name);
        assert(names_view(out@) =~= before.push(lv));
        at = next;
    }
    if out.len() == 0 {
        return Err(Error::Invalid);
    }
    Ok(out)
}

/// What a DHCPv6 information reply configures.
#[derive(Clone, Debug)]
pub struct DhcpConfiguration {
    pub servers: Vec<[u8; 16]>,
    pub domains: Vec<Name>,
    pub refresh: u32,
    pub inf_max_rt: Option<u32>,
}

/// The DHCPv6 information-request client's state.
pub struct InformationClient {
    duid: Vec<u8>,
    xid: Option<[u8; 3]>,
    started: u64,
    next: u64,
    interval: u64,
    max: u64,
    reserved_xid: Option<[u8; 3]>,
}

pub struct InformationClientV {
    pub duid: Seq<u8>,
    pub xid: Option<[u8; 3]>,
    pub started: u64,
    pub next: u64,
    pub interval: u64,
    pub max: u64,
    pub reserved_xid: Option<[u8; 3]>,
}

/// A client just made: the DUID, transaction ID `xid`, started at `now`, first sending
/// `delay` milliseconds later, with no retransmission yet and no reserved ID.
pub open spec fn fresh_client(duid: Seq<u8>, now: u64, xid: [u8; 3], delay: u64) -> InformationClientV {
    InformationClientV {
        duid,
        xid: Some(xid),
        started: now,
        next: crate::ipv4::sat_add(now, delay as int),
        interval: 0,
        max: 3600000,
        reserved_xid: None,
    }
}

impl View for InformationClient {
    type V = InformationClientV;

    closed spec fn view(&self) -> InformationClientV {
        InformationClientV {
            duid: self.duid@,
            xid: self.xid,
            started: self.started,
            next: self.next,
            interval: self.interval,
            max: self.max,
            reserved_xid: self.reserved_xid,
        }
    }
}

impl InformationClient {
    /// The client for the given DUID with transaction ID `xid`, first sending `delay`
    /// milliseconds after `now`.
    pub fn from_draw(duid: Vec<u8>, now: u64, xid: [u8; 3], delay: u64) -> (c: InformationClient)
        ensures
            c@ == fresh_client(duid@, now, xid, delay),
    {
        InformationClient {
            duid,
            xid: Some(xid),
            started: now,
            next: now.saturating_add(delay),
            interval: 0,
            max: 3600000,
            reserved_xid: None,
        }
    }

    /// A client for the given DUID (1..=128 octets) with a transaction ID of three random
    /// octets, first sending a random delay of up to a second after `now`. A DUID out of range
    /// is refused before anything is drawn; an error of the random source is passed on.
    pub fn new<R: RandomSource>(duid: Vec<u8>, now: u64, rng: &mut R) -> (r: Result<InformationClient, Error>)
        ensures
            (duid@.len() == 0 || duid@.len() > 128) ==> r == Err::<InformationClient, Error>(Error::Invalid)
                && *final(rng) == *old(rng),
            r matches Ok(c) ==> 1 <= duid@.len() <= 128 && exists|x: [u8; 3], d: u64| c@ == fresh_client(duid@, now, x, d),
    {
        if duid.len() == 0 || duid.len() > 128 {
            return Err(Error::Invalid);
        }
        let x = match rng.fill(3) {
            Ok(v) => v,
            Err(e) => return Err(e),
        };
        if x.len() != 3 {
            return Err(Error::Io);
        }
        let delay = match rng.sample(1000) {
            Ok(v) => v,
            Err(e) => return Err(e),
        };
        let xid = [x[0], x[1], x[2]];
        let c = InformationClient::from_draw(duid, now, xid, delay);
        Ok(c)
    }

    /// The transaction ID of the exchange in progress, if any.
    pub fn xid(&self) -> (r: Option<[u8; 3]>)
        ensures
            r == self@.xid,
    {
        self.xid
    }

    /// Keeps clear of a transaction ID in use elsewhere: remembers it, and if it is the
    /// current one, switches to one differing in the last bit and restarts at once.
    pub fn avoid_xid(&mut self, xid: [u8; 3], now: u64)
        ensures
            final(self)@.reserved_xid == Some(xid),
            final(self)@.duid == old(self)@.duid,
            final(self)@.max == old(self)@.max,
            old(self)@.xid == Some(xid) ==> {
                &&& final(self)@.xid == Some([xid[0], xid[1], xid[2] ^ 1u8])
                &&& final(self)@.next == now
                &&& final(self)@.started == now
                &&& final(self)@.interval == 0
            },
            old(self)@.xid != Some(xid) ==> final(self)@ == (InformationClientV { reserved_xid: Some(xid), ..old(self)@ }),
    {
        self.reserved_xid = Some(xid);
        let same = match self.xid {
            Some(x) => x[0] == xid[0] && x[1] == xid[1] && x[2] == xid[2],
            None => false,
        };
        proof {
            if let Some(x) = old(self).xid {
                if same {
                    assert(x =~= xid);
                } else if x == xid {
                    assert(x[0] == xid[0] && x[1] == xid[1] && x[2] == xid[2]);
                }
            }
        }
        if same {
            self.xid = Some([xid[0], xid[1], xid[2] ^ 1]);
            self.next = now;
            self.started = now;
            self.interval = 0;
        }
    }

    /// When the client next wants to send.
    pub fn next_deadline(&self) -> (r: u64)
        ensures
            r == self@.next,
    {
        self.next
    }
}

} // verus!
