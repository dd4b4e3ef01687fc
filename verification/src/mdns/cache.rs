//! Record comparisons and budgets shared by the mDNS cache, publisher and proxies.
use crate::dns::name::{canonical_wire, labels_view, Name};
use crate::dns::wire::{options_view, spec_encode, Context, Message, MessageV, Question, QuestionV, Rdata, RdataV, Record, RecordV};
use vstd::prelude::*;

pub mod store;

pub use store::Cache;

verus! {

pub open spec fn same_name(a: Seq<Seq<u8>>, b: Seq<Seq<u8>>) -> bool {
    canonical_wire(a) == canonical_wire(b)
}

/// RDATA equality: names compare without ASCII case, everything else octet for octet.
pub open spec fn rdata_eq(a: RdataV, b: RdataV) -> bool {
    match (a, b) {
        (RdataV::Empty, RdataV::Empty) => true,
        (RdataV::A(x), RdataV::A(y)) => x == y,
        (RdataV::Aaaa(x), RdataV::Aaaa(y)) => x == y,
        (RdataV::Name(x), RdataV::Name(y)) => same_name(x, y),
        (
            RdataV::Srv { priority: p1, weight: w1, port: o1, target: t1 },
            RdataV::Srv { priority: p2, weight: w2, port: o2, target: t2 },
        ) => p1 == p2 && w1 == w2 && o1 == o2 && same_name(t1, t2),
        (RdataV::Txt(x), RdataV::Txt(y)) => x == y,
        (RdataV::Preference { preference: p1, name: n1 }, RdataV::Preference { preference: p2, name: n2 }) => p1 == p2
            && same_name(n1, n2),
        (RdataV::TwoNames { first: f1, second: s1 }, RdataV::TwoNames { first: f2, second: s2 }) => same_name(f1, f2)
            && same_name(s1, s2),
        (
            RdataV::Px { preference: p1, map822: a1, mapx400: b1 },
            RdataV::Px { preference: p2, map822: a2, mapx400: b2 },
        ) => p1 == p2 && same_name(a1, a2) && same_name(b1, b2),
        (
            RdataV::Soa { mname: m1, rname: r1, serial: s1, refresh: f1, retry: t1, expire: e1, minimum: n1 },
            RdataV::Soa { mname: m2, rname: r2, serial: s2, refresh: f2, retry: t2, expire: e2, minimum: n2 },
        ) => same_name(m1, m2) && same_name(r1, r2) && s1 == s2 && f1 == f2 && t1 == t2 && e1 == e2 && n1 == n2,
        (
            RdataV::Key { flags: f1, protocol: p1, algorithm: a1, key: k1 },
            RdataV::Key { flags: f2, protocol: p2, algorithm: a2, key: k2 },
        ) => f1 == f2 && p1 == p2 && a1 == a2 && k1 == k2,
        (
            RdataV::Sig {
                covered: c1,
                algorithm: a1,
                labels: l1,
                original_ttl: o1,
                expiration: x1,
                inception: i1,
                key_tag: k1,
                signer: s1,
                signature: g1,
            },
            RdataV::Sig {
                covered: c2,
                algorithm: a2,
                labels: l2,
                original_ttl: o2,
                expiration: x2,
                inception: i2,
                key_tag: k2,
                signer: s2,
                signature: g2,
            },
        ) => c1 == c2 && a1 == a2 && l1 == l2 && o1 == o2 && x1 == x2 && i1 == i2 && k1 == k2 && same_name(s1, s2)
            && g1 == g2,
        (RdataV::Opt(x), RdataV::Opt(y)) => x == y,
        (RdataV::Nsec { next: n1, bitmap: b1 }, RdataV::Nsec { next: n2, bitmap: b2 }) => same_name(n1, n2) && b1 == b2,
        (
            RdataV::Svcb { priority: p1, target: t1, params: q1 },
            RdataV::Svcb { priority: p2, target: t2, params: q2 },
        ) => p1 == p2 && same_name(t1, t2) && q1 == q2,
        (RdataV::Bytes(x), RdataV::Bytes(y)) => x == y,
        (RdataV::Opaque(x), RdataV::Opaque(y)) => x == y,
        _ => false,
    }
}

/// The same record of an RRset: owner, type, class without the cache-flush bit, RDATA.
pub open spec fn spec_same(a: RecordV, b: RecordV) -> bool {
    same_name(a.name, b.name) && a.kind == b.kind && a.class & 0x7fffu16 == b.class & 0x7fffu16 && rdata_eq(a.data, b.data)
}

/// A record that answers a question: same owner, a matching or ANY class, a matching or
/// ANY type, or a CNAME.
pub open spec fn spec_matches(q: QuestionV, r: RecordV) -> bool {
    same_name(q.name, r.name) && (q.class & 0x7fffu16 == 255 || q.class & 0x7fffu16 == r.class & 0x7fffu16) && (q.kind
        == 255 || q.kind == r.kind || r.kind == 5)
}

/// A record that may be cached: not a meta type, not opaque or empty data, not a SIG(0),
/// and of a real class.
pub open spec fn spec_cacheable(r: RecordV) -> bool {
    &&& !(r.kind == 0 || r.kind == 41 || (249 <= r.kind <= 255))
    &&& !(r.data is Opaque || r.data is Empty || (r.data matches RdataV::Sig { covered, .. } && covered == 0))
    &&& r.class & 0x7fffu16 != 0
    &&& r.class & 0x7fffu16 != 255
}

pub open spec fn single_answer(r: RecordV) -> MessageV {
    MessageV {
        id: 0,
        flags: 0x8400,
        questions: Seq::empty(),
        answers: seq![r],
        authority: Seq::empty(),
        additional: Seq::empty(),
        original: Seq::empty(),
        spans: Seq::empty(),
    }
}

/// What a cached record is charged: a fixed part and sixteen octets per encoded octet.
pub open spec fn spec_charge(r: RecordV) -> Option<int> {
    match spec_encode(single_answer(r), Context::Unicast) {
        Some(b) => Some(1024 + 16 * b.len() as int),
        None => None,
    }
}

pub fn same_bytes(a: &[u8], b: &[u8]) -> (r: bool)
    ensures
        r == (a@ == b@),
{
    if a.len() != b.len() {
        return false;
    }
    let mut i: usize = 0;
    while i < a.len()
        invariant
            a@.len() == b@.len(),
            i <= a@.len(),
            forall|j: int| 0 <= j < i ==> a@[j] == b@[j],
        decreases a@.len() - i,
    {
        if a[i] != b[i] {
            return false;
        }
        i = i + 1;
    }
    assert(a@ =~= b@);
    true
}

fn same_labels(a: &Vec<Vec<u8>>, b: &Vec<Vec<u8>>) -> (r: bool)
    ensures
        r == (labels_view(a@) == labels_view(b@)),
{
    if a.len() != b.len() {
        assert(labels_view(a@).len() != labels_view(b@).len());
        return false;
    }
    let mut i: usize = 0;
    while i < a.len()
        invariant
            a@.len() == b@.len(),
            i <= a@.len(),
            forall|j: int| 0 <= j < i ==> #[trigger] labels_view(a@)[j] == labels_view(b@)[j],
        decreases a@.len() - i,
    {
        if !same_bytes(a[i].as_slice(), b[i].as_slice()) {
            assert(labels_view(a@)[i as int] != labels_view(b@)[i as int]);
            return false;
        }
        i = i + 1;
    }
    assert(labels_view(a@) =~= labels_view(b@));
    true
}

fn same_options(a: &Vec<(u16, Vec<u8>)>, b: &Vec<(u16, Vec<u8>)>) -> (r: bool)
    ensures
        r == (options_view(a@) == options_view(b@)),
{
    if a.len() != b.len() {
        assert(options_view(a@).len() != options_view(b@).len());
        return false;
    }
    let mut i: usize = 0;
    while i < a.len()
        invariant
            a@.len() == b@.len(),
            i <= a@.len(),
            forall|j: int| 0 <= j < i ==> #[trigger] options_view(a@)[j] == options_view(b@)[j],
        decreases a@.len() - i,
    {
        if a[i].0 != b[i].0 || !same_bytes(a[i].1.as_slice(), b[i].1.as_slice()) {
            assert(options_view(a@)[i as int] != options_view(b@)[i as int]);
            return false;
        }
        i = i + 1;
    }
    assert(options_view(a@) =~= options_view(b@));
    true
}

fn same_array<const N: usize>(a: &[u8; N], b: &[u8; N]) -> (r: bool)
    ensures
        r == (a@ == b@),
{
    same_bytes(a, b)
}

pub fn rdata_same(a: &Rdata, b: &Rdata) -> (r: bool)
    ensures
        r == rdata_eq(a@, b@),
{
    match (a, b) {
        (Rdata::Empty, Rdata::Empty) => true,
        (Rdata::A(x), Rdata::A(y)) => same_array(x, y),
        (Rdata::Aaaa(x), Rdata::Aaaa(y)) => same_array(x, y),
        (Rdata::Name(x), Rdata::Name(y)) => x.eq(y),
        (
            Rdata::Srv { priority: p1, weight: w1, port: o1, target: t1 },
            Rdata::Srv { priority: p2, weight: w2, port: o2, target: t2 },
        ) => *p1 == *p2 && *w1 == *w2 && *o1 == *o2 && t1.eq(t2),
        (Rdata::Txt(x), Rdata::Txt(y)) => same_labels(x, y),
        (Rdata::Preference { preference: p1, name: n1 }, Rdata::Preference { preference: p2, name: n2 }) => *p1 == *p2
            && n1.eq(n2),
        (Rdata::TwoNames { first: f1, second: s1 }, Rdata::TwoNames { first: f2, second: s2 }) => f1.eq(f2) && s1.eq(
            s2,
        ),
        (
            Rdata::Px { preference: p1, map822: a1, mapx400: b1 },
            Rdata::Px { preference: p2, map822: a2, mapx400: b2 },
        ) => *p1 == *p2 && a1.eq(a2) && b1.eq(b2),
        (
            Rdata::Soa { mname: m1, rname: r1, serial: s1, refresh: f1, retry: t1, expire: e1, minimum: n1 },
            Rdata::Soa { mname: m2, rname: r2, serial: s2, refresh: f2, retry: t2, expire: e2, minimum: n2 },
        ) => m1.eq(m2) && r1.eq(r2) && *s1 == *s2 && *f1 == *f2 && *t1 == *t2 && *e1 == *e2 && *n1 == *n2,
        (
            Rdata::Key { flags: f1, protocol: p1, algorithm: a1, key: k1 },
            Rdata::Key { flags: f2, protocol: p2, algorithm: a2, key: k2 },
        ) => *f1 == *f2 && *p1 == *p2 && *a1 == *a2 && same_bytes(k1.as_slice(), k2.as_slice()),
        (
            Rdata::Sig {
                covered: c1,
                algorithm: a1,
                labels: l1,
                original_ttl: o1,
                expiration: x1,
                inception: i1,
                key_tag: k1,
                signer: s1,
                signature: g1,
            },
            Rdata::Sig {
                covered: c2,
                algorithm: a2,
                labels: l2,
                original_ttl: o2,
                expiration: x2,
                inception: i2,
                key_tag: k2,
                signer: s2,
                signature: g2,
            },
        ) => *c1 == *c2 && *a1 == *a2 && *l1 == *l2 && *o1 == *o2 && *x1 == *x2 && *i1 == *i2 && *k1 == *k2 && s1.eq(s2)
            && same_bytes(g1.as_slice(), g2.as_slice()),
        (Rdata::Opt(x), Rdata::Opt(y)) => same_options(x, y),
        (Rdata::Nsec { next: n1, bitmap: b1 }, Rdata::Nsec { next: n2, bitmap: b2 }) => n1.eq(n2) && same_bytes(
            b1.as_slice(),
            b2.as_slice(),
        ),
        (
            Rdata::Svcb { priority: p1, target: t1, params: q1 },
            Rdata::Svcb { priority: p2, target: t2, params: q2 },
        ) => *p1 == *p2 && t1.eq(t2) && same_options(q1, q2),
        (Rdata::Bytes(x), Rdata::Bytes(y)) => same_bytes(x.as_slice(), y.as_slice()),
        (Rdata::Opaque(x), Rdata::Opaque(y)) => same_bytes(x.as_slice(), y.as_slice()),
        _ => false,
    }
}

/// Whether two records are the same member of one RRset.
pub fn same(a: &Record, b: &Record) -> (r: bool)
    ensures
        r == spec_same(a@, b@),
{
    a.name.eq(&b.name) && a.kind == b.kind && a.class & 0x7fff == b.class & 0x7fff && rdata_same(&a.data, &b.data)
}

/// Whether a record answers a question.
pub fn matches(q: &Question, r: &Record) -> (res: bool)
    ensures
        res == spec_matches(q@, r@),
{
    q.name.eq(&r.name) && (q.class & 0x7fff == 255 || q.class & 0x7fff == r.class & 0x7fff) && (q.kind == 255 || q.kind
        == r.kind || r.kind == 5)
}

/// Whether a record may be cached.
pub fn cacheable(r: &Record) -> (res: bool)
    ensures
        res == spec_cacheable(r@),
{
    let k = r.kind;
    let meta = k == 0 || k == 41 || (249 <= k && k <= 255);
    let bad_data = match &r.data {
        Rdata::Opaque(_) => true,
        Rdata::Empty => true,
        Rdata::Sig { covered, .. } => *covered == 0,
        _ => false,
    };
    !meta && !bad_data && r.class & 0x7fff != 0 && r.class & 0x7fff != 255
}

/// The memory a cached record is charged, if it encodes.
pub fn charge(r: &Record) -> (res: Option<usize>)
    ensures
        match spec_charge(r@) {
            Some(n) => res == Some(n as usize),
            None => res is None,
        },
{
    let mut m = Message::new(0, 0x8400);
    m.answers.push(r.clone());
    proof {
        assert(m@.answers =~= seq![r@]);
        assert(m@.spans =~= Seq::<crate::dns::wire::SpanV>::empty());
        assert(m@ == single_answer(r@));
    }
    match m.encode() {
        Ok(b) => {
            assert(b@.len() <= 65535);
            Some(1024 + 16 * b.len())
        },
        Err(_) => None,
    }
}

/// Whether a type bitmap names a type; a malformed window ends the search.
pub open spec fn spec_bitmap_has(b: Seq<u8>, kind: u16) -> bool
    decreases b.len(),
{
    if b.len() < 2 {
        false
    } else {
        let n = b[1] as int;
        if n == 0 || n > 32 || b.len() < n + 2 {
            false
        } else if b[0] as int == kind / 256 {
            let bit = (kind % 256) as int;
            bit / 8 < n && b[2 + bit / 8] & (0x80u8 >> ((bit % 8) as u8)) != 0
        } else {
            spec_bitmap_has(b.skip(2 + n), kind)
        }
    }
}

pub fn bitmap_has(b: &[u8], kind: u16) -> (r: bool)
    ensures
        r == spec_bitmap_has(b@, kind),
{
    let l = b.len();
    let mut at: usize = 0;
    assert(b@.skip(0) =~= b@);
    while at <= l && l - at >= 2
        invariant
            l == b@.len(),
            at <= l,
            spec_bitmap_has(b@, kind) == spec_bitmap_has(b@.skip(at as int), kind),
        decreases l - at,
    {
        let ghost s = b@.skip(at as int);
        let n = b[at + 1] as usize;
        assert(s[0] == b@[at as int] && s[1] == b@[at + 1]);
        if n == 0 || n > 32 || l - at < n + 2 {
            return false;
        }
        if b[at] as u16 == kind / 256 {
            let bit = (kind % 256) as usize;
            if bit / 8 < n {
                assert(s[2 + bit / 8] == b@[at + 2 + bit / 8]);
                return b[at + 2 + bit / 8] & (0x80u8 >> ((bit % 8) as u8)) != 0;
            }
            return false;
        }
        assert(s.skip(2 + n) =~= b@.skip(at + 2 + n));
        at = at + 2 + n;
    }
    proof {
        assert(b@.skip(at as int).len() < 2);
    }
    false
}

} // verus!
