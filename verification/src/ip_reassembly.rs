//! Bounded IP reassembly. A fragment that overlaps another, or disagrees with the datagram's
//! end, invalidates the whole datagram.
use crate::bytes::{be16, be16_bytes, push_bytes};
use crate::mdns::cache::same_bytes;
use crate::error::Error;
use crate::ipv4::wire::{checksum, parse_ipv4, spec_checksum, Packet};
use vstd::prelude::*;

verus! {

/// The byte budget of all datagrams under reassembly.
pub const CAP: usize = 4194304;

/// Most datagrams under reassembly.
pub const MAX_CONTEXTS: usize = 64;

/// How long a datagram may take to arrive in full, in milliseconds.
pub const LIFETIME_MS: u64 = 60000;

/// What identifies a datagram: source and destination address octets, protocol, and the
/// identification field.
#[derive(Debug)]
pub struct Key {
    pub source: Vec<u8>,
    pub destination: Vec<u8>,
    pub protocol: u8,
    pub id: u32,
}

pub struct KeyV {
    pub source: Seq<u8>,
    pub destination: Seq<u8>,
    pub protocol: u8,
    pub id: u32,
}

impl View for Key {
    type V = KeyV;

    open spec fn view(&self) -> KeyV {
        KeyV { source: self.source@, destination: self.destination@, protocol: self.protocol, id: self.id }
    }
}

/// One fragment: its datagram, the header the datagram is rebuilt under, where its payload
/// starts, whether more follow, and the payload.
#[derive(Debug)]
pub struct Fragment {
    pub key: Key,
    pub header: Vec<u8>,
    pub offset: usize,
    pub more: bool,
    pub payload: Vec<u8>,
}

pub struct FragmentV {
    pub key: KeyV,
    pub header: Seq<u8>,
    pub offset: int,
    pub more: bool,
    pub payload: Seq<u8>,
}

impl View for Fragment {
    type V = FragmentV;

    open spec fn view(&self) -> FragmentV {
        FragmentV {
            key: self.key@,
            header: self.header@,
            offset: self.offset as int,
            more: self.more,
            payload: self.payload@,
        }
    }
}

struct Context {
    key: Key,
    header: Vec<u8>,
    parts: Vec<(usize, Vec<u8>)>,
    end: Option<usize>,
    deadline: u64,
}

pub struct ContextV {
    pub key: KeyV,
    pub header: Seq<u8>,
    pub parts: Seq<(int, Seq<u8>)>,
    pub end: Option<int>,
    pub deadline: u64,
}

pub open spec fn parts_view(v: Seq<(usize, Vec<u8>)>) -> Seq<(int, Seq<u8>)> {
    v.map_values(|p: (usize, Vec<u8>)| (p.0 as int, p.1@))
}

pub open spec fn opt_int(o: Option<usize>) -> Option<int> {
    match o {
        Some(v) => Some(v as int),
        None => None,
    }
}

impl View for Context {
    type V = ContextV;

    closed spec fn view(&self) -> ContextV {
        ContextV {
            key: self.key@,
            header: self.header@,
            parts: parts_view(self.parts@),
            end: opt_int(self.end),
            deadline: self.deadline,
        }
    }
}

pub open spec fn contexts_view(v: Seq<Context>) -> Seq<ContextV> {
    v.map_values(|c: Context| c@)
}

/// Datagrams under reassembly.
pub struct Reassembler {
    contexts: Vec<Context>,
}

impl View for Reassembler {
    type V = Seq<ContextV>;

    closed spec fn view(&self) -> Seq<ContextV> {
        contexts_view(self.contexts@)
    }
}

pub open spec fn parts_bytes(ps: Seq<(int, Seq<u8>)>) -> int
    decreases ps.len(),
{
    if ps.len() == 0 {
        0
    } else {
        parts_bytes(ps.drop_last()) + ps.last().1.len() + 128
    }
}

/// What a datagram under reassembly is charged.
pub open spec fn ctx_bytes(c: ContextV) -> int {
    128 + c.header.len() + parts_bytes(c.parts)
}

/// What all datagrams under reassembly are charged.
pub open spec fn retained(cs: Seq<ContextV>) -> int
    decreases cs.len(),
{
    if cs.len() == 0 {
        0
    } else {
        retained(cs.drop_last()) + ctx_bytes(cs.last())
    }
}

pub open spec fn parts_sorted(ps: Seq<(int, Seq<u8>)>) -> bool {
    forall|a: int, b: int| 0 <= a < b < ps.len() ==> ps[a].0 < ps[b].0
}

/// Reassembly state that can be: at most 64 datagrams, distinct, within the budget, each
/// with its parts in order under an IPv4 header.
pub open spec fn contexts_ok(cs: Seq<ContextV>) -> bool {
    &&& cs.len() <= MAX_CONTEXTS
    &&& forall|a: int, b: int| 0 <= a < b < cs.len() ==> cs[a].key != cs[b].key
    &&& retained(cs) <= CAP
    &&& forall|i: int| 0 <= i < cs.len() ==> ctx_ok(#[trigger] cs[i])
}

/// A datagram under reassembly: parts in order, none empty, under an IPv4 header.
pub open spec fn ctx_ok(c: ContextV) -> bool {
    &&& parts_sorted(c.parts)
    &&& forall|j: int| 0 <= j < c.parts.len() ==> (#[trigger] c.parts[j]).1.len() > 0 && c.parts[j].0 >= 0 && c.parts[j].0
        + c.parts[j].1.len() <= 65535
    &&& 20 <= c.header.len() <= 60
}

/// The datagrams still within their time at `now`.
pub open spec fn unexpired(cs: Seq<ContextV>, now: u64) -> Seq<ContextV>
    decreases cs.len(),
{
    if cs.len() == 0 {
        cs
    } else if now < cs.last().deadline {
        unexpired(cs.drop_last(), now).push(cs.last())
    } else {
        unexpired(cs.drop_last(), now)
    }
}

/// The datagram with this key.
pub open spec fn find_ctx(cs: Seq<ContextV>, k: KeyV) -> Option<int> {
    if exists|i: int| 0 <= i < cs.len() && cs[i].key == k {
        Some(choose|i: int| 0 <= i < cs.len() && cs[i].key == k)
    } else {
        None
    }
}

/// Whether a fragment ending at `end` disagrees with what the datagram holds: another
/// header, an overlap, an end beyond or off the known end, or, for the last fragment, parts
/// beyond it.
pub open spec fn conflicts(c: ContextV, f: FragmentV, end: int) -> bool {
    ||| c.header != f.header
    ||| exists|i: int| 0 <= i < c.parts.len() && f.offset < c.parts[i].0 + c.parts[i].1.len() && c.parts[i].0 < end
    ||| (c.end matches Some(e) && (end > e || (!f.more && end != e)))
    ||| (!f.more && exists|i: int| 0 <= i < c.parts.len() && c.parts[i].0 + c.parts[i].1.len() > end)
}

/// How many parts start before `at`.
pub open spec fn part_place(ps: Seq<(int, Seq<u8>)>, at: int) -> int
    decreases ps.len(),
{
    if ps.len() == 0 {
        0
    } else if ps.last().0 < at {
        ps.len() as int
    } else {
        part_place(ps.drop_last(), at)
    }
}

/// Where the parts reach when they follow each other from offset 0 without a gap.
pub open spec fn contiguous(ps: Seq<(int, Seq<u8>)>) -> Option<int>
    decreases ps.len(),
{
    if ps.len() == 0 {
        Some(0)
    } else {
        match contiguous(ps.drop_last()) {
            Some(n) => if ps.last().0 == n { Some(n + ps.last().1.len()) } else { None },
            None => None,
        }
    }
}

/// The parts' payloads one after another.
pub open spec fn joined(ps: Seq<(int, Seq<u8>)>) -> Seq<u8>
    decreases ps.len(),
{
    if ps.len() == 0 {
        Seq::empty()
    } else {
        joined(ps.drop_last()) + ps.last().1
    }
}


proof fn lemma_parts_bytes_nonneg(ps: Seq<(int, Seq<u8>)>)
    ensures
        parts_bytes(ps) >= 0,
    decreases ps.len(),
{
    if ps.len() > 0 {
        lemma_parts_bytes_nonneg(ps.drop_last());
    }
}

proof fn lemma_retained_prefix(cs: Seq<ContextV>, k: int)
    requires
        0 <= k <= cs.len(),
    ensures
        0 <= retained(cs.take(k)) <= retained(cs),
    decreases cs.len(),
{
    if cs.len() > 0 {
        if k == cs.len() {
            assert(cs.take(k) =~= cs);
            lemma_retained_prefix(cs.drop_last(), k - 1);
            assert(cs.drop_last().take(k - 1) =~= cs.drop_last());
        } else {
            lemma_retained_prefix(cs.drop_last(), k);
            assert(cs.drop_last().take(k) =~= cs.take(k));
        }
        lemma_parts_bytes_nonneg(cs.last().parts);
    } else {
        assert(cs.take(k).len() == 0);
    }
}

proof fn lemma_retained_update(cs: Seq<ContextV>, i: int, c: ContextV)
    requires
        0 <= i < cs.len(),
    ensures
        retained(cs.update(i, c)) == retained(cs) - ctx_bytes(cs[i]) + ctx_bytes(c),
    decreases cs.len(),
{
    if i == cs.len() - 1 {
        assert(cs.update(i, c).drop_last() =~= cs.drop_last());
    } else {
        lemma_retained_update(cs.drop_last(), i, c);
        assert(cs.update(i, c).drop_last() =~= cs.drop_last().update(i, c));
    }
}

proof fn lemma_retained_remove(cs: Seq<ContextV>, i: int)
    requires
        0 <= i < cs.len(),
    ensures
        retained(cs.remove(i)) == retained(cs) - ctx_bytes(cs[i]),
    decreases cs.len(),
{
    if i == cs.len() - 1 {
        assert(cs.remove(i) =~= cs.drop_last());
    } else {
        lemma_retained_remove(cs.drop_last(), i);
        assert(cs.remove(i).drop_last() =~= cs.drop_last().remove(i));
    }
}

proof fn lemma_parts_bytes_insert(ps: Seq<(int, Seq<u8>)>, k: int, p: (int, Seq<u8>))
    requires
        0 <= k <= ps.len(),
    ensures
        parts_bytes(ps.insert(k, p)) == parts_bytes(ps) + p.1.len() + 128,
    decreases ps.len(),
{
    if k == ps.len() {
        assert(ps.insert(k, p) =~= ps.push(p));
        assert(ps.push(p).drop_last() =~= ps);
    } else {
        lemma_parts_bytes_insert(ps.drop_last(), k, p);
        assert(ps.insert(k, p).drop_last() =~= ps.drop_last().insert(k, p));
    }
}

proof fn lemma_part_place(ps: Seq<(int, Seq<u8>)>, at: int)
    requires
        parts_sorted(ps),
    ensures
        0 <= part_place(ps, at) <= ps.len(),
        forall|j: int| 0 <= j < part_place(ps, at) ==> ps[j].0 < at,
        forall|j: int| part_place(ps, at) <= j < ps.len() ==> ps[j].0 >= at,
    decreases ps.len(),
{
    if ps.len() > 0 {
        if ps.last().0 < at {
        } else {
            let d = ps.drop_last();
            lemma_part_place(d, at);
            assert forall|j: int| 0 <= j < part_place(d, at) implies ps[j].0 < at by {
                assert(d[j] == ps[j]);
            }
            assert forall|j: int| part_place(d, at) <= j < ps.len() implies ps[j].0 >= at by {
                if j < ps.len() - 1 {
                    assert(d[j] == ps[j]);
                }
            }
        }
    }
}

proof fn lemma_find_ctx(cs: Seq<ContextV>, k: KeyV, i: int)
    requires
        contexts_ok(cs),
        0 <= i < cs.len(),
        cs[i].key == k,
    ensures
        find_ctx(cs, k) == Some(i),
{
    let j = choose|j: int| 0 <= j < cs.len() && cs[j].key == k;
    if j != i {
        if j < i {
            assert(cs[j].key != cs[i].key);
        } else {
            assert(cs[i].key != cs[j].key);
        }
    }
}

/// The rebuilt IPv4 datagram: total length set, checksum recomputed over the header; `None`
/// when it would exceed 65535 octets.
pub open spec fn spec_complete(header: Seq<u8>, data: Seq<u8>) -> Option<Seq<u8>> {
    let n = header.len() + data.len();
    if n > 65535 {
        None
    } else {
        let h1 = header.update(2, be16_bytes(n as u16)[0]).update(3, be16_bytes(n as u16)[1]);
        let c = spec_checksum(h1);
        Some(h1.update(10, be16_bytes(c)[0]).update(11, be16_bytes(c)[1]) + data)
    }
}

/// A fragment taken in (the datagrams expired already): the datagram completes, waits for
/// more, or the fragment is refused: malformed (`Invalid`, dropping a datagram it conflicts
/// with), or over the bounds (`Capacity`).
pub open spec fn spec_insert(cs: Seq<ContextV>, f: FragmentV, now: u64) -> (Seq<ContextV>, Result<Option<Seq<u8>>, Error>) {
    let end = f.offset + f.payload.len();
    if f.payload.len() == 0 || end > 65535 || (f.more && f.payload.len() % 8 != 0) {
        (cs, Err(Error::Invalid))
    } else {
        let found = find_ctx(cs, f.key);
        if found is Some && conflicts(cs[found->0], f, end) {
            (cs.remove(found->0), Err(Error::Invalid))
        } else {
            let fresh = found is None;
            let charge = f.payload.len() + 128 + if fresh { 128 + f.header.len() } else { 0 };
            if (fresh && cs.len() >= MAX_CONTEXTS) || retained(cs) + charge > CAP {
                (cs, Err(Error::Capacity))
            } else {
                let c0 = if fresh {
                    ContextV { key: f.key, header: f.header, parts: Seq::empty(), end: None, deadline: sat_add(now, LIFETIME_MS) }
                } else {
                    cs[found->0]
                };
                let c1 = ContextV {
                    end: if !f.more { Some(end) } else { c0.end },
                    parts: c0.parts.insert(part_place(c0.parts, f.offset), (f.offset, f.payload)),
                    ..c0
                };
                let done = contiguous(c1.parts) is Some && c1.end == contiguous(c1.parts);
                if done {
                    let rest = if fresh { cs } else { cs.remove(found->0) };
                    match spec_complete(c1.header, joined(c1.parts)) {
                        Some(d) => (rest, Ok(Some(d))),
                        None => (rest, Err(Error::Invalid)),
                    }
                } else {
                    (if fresh { cs.push(c1) } else { cs.update(found->0, c1) }, Ok(None))
                }
            }
        }
    }
}

pub open spec fn sat_add(a: u64, b: u64) -> u64 {
    if a + b > u64::MAX {
        u64::MAX
    } else {
        (a + b) as u64
    }
}

/// The header a fragment's datagram is rebuilt under: the fragment's own, with total
/// length, flags and offset, and checksum cleared.
pub open spec fn rebuilt_header(b: Seq<u8>, h: int) -> Seq<u8> {
    b.take(h).update(2, 0).update(3, 0).update(6, 0).update(7, 0).update(10, 0).update(11, 0)
}

/// What an IPv4 packet is to reassembly: `None` when it is not a valid packet,
/// `Some(None)` when it is whole, or the fragment it carries.
pub open spec fn v4_fragment(b: Seq<u8>) -> Option<Option<FragmentV>> {
    match parse_ipv4(b, false) {
        None => None,
        Some(p) => if p.bytes.len() != b.len() {
            None
        } else if !p.more_fragments && p.fragment_offset == 0 {
            Some(None)
        } else {
            Some(Some(FragmentV {
                key: KeyV { source: p.source, destination: p.destination, protocol: p.protocol, id: p.id as u32 },
                header: rebuilt_header(b, p.header_len),
                offset: p.fragment_offset,
                more: p.more_fragments,
                payload: p.payload,
            }))
        },
    }
}

/// An IPv4 packet taken in at `now`: expired datagrams leave first; a whole packet passes
/// through; a fragment goes to `spec_insert`.
pub open spec fn spec_input_v4(cs: Seq<ContextV>, b: Seq<u8>, now: u64) -> (Seq<ContextV>, Result<Option<Seq<u8>>, Error>) {
    let live = unexpired(cs, now);
    match v4_fragment(b) {
        None => (live, Err(Error::Invalid)),
        Some(None) => (live, Ok(Some(b))),
        Some(Some(f)) => spec_insert(live, f, now),
    }
}


proof fn lemma_joined_len(ps: Seq<(int, Seq<u8>)>)
    ensures
        joined(ps).len() + 128 * ps.len() == parts_bytes(ps),
    decreases ps.len(),
{
    if ps.len() > 0 {
        lemma_joined_len(ps.drop_last());
    }
}


proof fn lemma_contiguous_len(ps: Seq<(int, Seq<u8>)>)
    ensures
        contiguous(ps) matches Some(n) ==> n == joined(ps).len(),
    decreases ps.len(),
{
    if ps.len() > 0 {
        lemma_contiguous_len(ps.drop_last());
    }
}


proof fn lemma_ctx_le_retained(cs: Seq<ContextV>, k: int)
    requires
        0 <= k < cs.len(),
    ensures
        ctx_bytes(cs[k]) <= retained(cs),
    decreases cs.len(),
{
    if k == cs.len() - 1 {
        lemma_retained_prefix(cs.drop_last(), 0);
        assert(cs.drop_last().take(0).len() == 0);
    } else {
        lemma_ctx_le_retained(cs.drop_last(), k);
        lemma_parts_bytes_nonneg(cs.last().parts);
    }
}

proof fn lemma_remove_ok(cs: Seq<ContextV>, k: int)
    requires
        contexts_ok(cs),
        0 <= k < cs.len(),
    ensures
        contexts_ok(cs.remove(k)),
{
    let r = cs.remove(k);
    lemma_retained_remove(cs, k);
    lemma_parts_bytes_nonneg(cs[k].parts);
    assert forall|a: int, b: int| 0 <= a < b < r.len() implies r[a].key != r[b].key by {
        let a0 = if a < k { a } else { a + 1 };
        let b0 = if b < k { b } else { b + 1 };
        assert(r[a] == cs[a0] && r[b] == cs[b0]);
    }
    assert forall|i: int| 0 <= i < r.len() implies ctx_ok(#[trigger] r[i]) by {
        let i0 = if i < k { i } else { i + 1 };
        assert(r[i] == cs[i0]);
    }
}

/// The outcome as plain values.
pub open spec fn outcome_view(r: Result<Option<Vec<u8>>, Error>) -> Result<Option<Seq<u8>>, Error> {
    match r {
        Ok(Some(v)) => Ok(Some(v@)),
        Ok(None) => Ok(None),
        Err(e) => Err(e),
    }
}

fn same_key(a: &Key, b: &Key) -> (r: bool)
    ensures
        r == (a@ == b@),
{
    same_bytes(a.source.as_slice(), b.source.as_slice()) && same_bytes(a.destination.as_slice(), b.destination.as_slice())
        && a.protocol == b.protocol && a.id == b.id
}

fn complete(header: Vec<u8>, data: &Vec<u8>) -> (r: Option<Vec<u8>>)
    requires
        20 <= header@.len() <= 60,
    ensures
        match r {
            Some(v) => spec_complete(header@, data@) == Some(v@),
            None => spec_complete(header@, data@) is None,
        },
{
    if data.len() > 65535 - header.len() {
        return None;
    }
    let n = (header.len() + data.len()) as u16;
    let mut h = header;
    h.set(2, (n / 256) as u8);
    h.set(3, (n % 256) as u8);
    let ghost h1 = h@;
    assert(h1 == header@.update(2, be16_bytes(n)[0]).update(3, be16_bytes(n)[1]));
    let c = checksum(h.as_slice());
    h.set(10, (c / 256) as u8);
    h.set(11, (c % 256) as u8);
    assert(h@ == h1.update(10, be16_bytes(c)[0]).update(11, be16_bytes(c)[1]));
    push_bytes(&mut h, data.as_slice());
    Some(h)
}

impl Reassembler {
    pub open spec fn wf(&self) -> bool {
        contexts_ok(self@)
    }

    /// Nothing under reassembly.
    pub fn new() -> (r: Reassembler)
        ensures
            r.wf(),
            r@.len() == 0,
    {
        let r = Reassembler { contexts: Vec::new() };
        assert(r@ =~= Seq::<ContextV>::empty());
        r
    }

    /// How many datagrams are under reassembly.
    pub fn context_count(&self) -> (r: usize)
        ensures
            r == self@.len(),
    {
        self.contexts.len()
    }

    /// What the datagrams under reassembly are charged.
    pub fn retained_bytes(&self) -> (r: usize)
        requires
            self.wf(),
        ensures
            r == retained(self@),
    {
        let ghost cs = self@;
        let mut total: usize = 0;
        let mut i: usize = 0;
        while i < self.contexts.len()
            invariant
                cs == self@,
                contexts_ok(cs),
                i <= cs.len(),
                total == retained(cs.take(i as int)),
            decreases cs.len() - i,
        {
            proof {
                assert(cs.take(i as int + 1).drop_last() =~= cs.take(i as int));
                assert(cs.take(i as int + 1).last() == cs[i as int]);
                lemma_retained_prefix(cs, i as int + 1);
                assert(cs[i as int] == self.contexts@[i as int]@);
            }
            let c = &self.contexts[i];
            let ghost ps = cs[i as int].parts;
            let mut sum: usize = 0;
            let mut j: usize = 0;
            while j < c.parts.len()
                invariant
                    ps == parts_view(c.parts@),
                    j <= ps.len(),
                    sum == parts_bytes(ps.take(j as int)),
                    parts_bytes(ps) <= CAP,
                decreases ps.len() - j,
            {
                proof {
                    assert(ps.take(j as int + 1).drop_last() =~= ps.take(j as int));
                    assert(ps.take(j as int + 1).last() == ps[j as int]);
                    lemma_parts_prefix(ps, j as int + 1);
                }
                sum = sum + c.parts[j].1.len() + 128;
                j = j + 1;
            }
            assert(ps.take(ps.len() as int) =~= ps);
            total = total + 128 + c.header.len() + sum;
            i = i + 1;
        }
        assert(cs.take(cs.len() as int) =~= cs);
        total
    }

    /// Drops the datagrams whose time ran out at `now`.
    pub fn expire(&mut self, now: u64)
        requires
            old(self).wf(),
        ensures
            final(self).wf(),
            final(self)@ == unexpired(old(self)@, now),
    {
        let ghost cs = self@;
        let mut old_v: Vec<Context> = Vec::new();
        std::mem::swap(&mut old_v, &mut self.contexts);
        let mut keep: Vec<Context> = Vec::new();
        let mut i: usize = 0;
        assert(cs.take(0) =~= Seq::<ContextV>::empty());
        assert(contexts_view(keep@) =~= Seq::<ContextV>::empty());
        assert(contexts_view(old_v@) =~= cs.skip(0));
        assert(contexts_view(old_v@).len() == old_v@.len());
        while old_v.len() > 0
            invariant
                contexts_ok(cs),
                i <= cs.len(),
                contexts_view(old_v@) == cs.skip(i as int),
                old_v@.len() == cs.len() - i,
                contexts_view(keep@) == unexpired(cs.take(i as int), now),
                keep@.len() <= i,
                retained(contexts_view(keep@)) <= retained(cs.take(i as int)),
                forall|a: int| 0 <= a < keep@.len() ==> exists|k: int| 0 <= k < i && #[trigger] contexts_view(keep@)[a] == cs[k],
                forall|a: int, b: int| 0 <= a < b < keep@.len() ==> contexts_view(keep@)[a].key != contexts_view(keep@)[b].key,
            decreases old_v@.len(),
        {
            let ghost kv = contexts_view(keep@);
            let ghost ov = old_v@;
            assert(contexts_view(ov)[0] == ov[0]@);
            let c = old_v.remove(0);
            proof {
                assert(cs.skip(i as int)[0] == cs[i as int]);
                assert(old_v@ =~= ov.remove(0));
                assert(c@ == cs[i as int]);
                assert forall|j: int| 0 <= j < contexts_view(old_v@).len() implies contexts_view(old_v@)[j] == cs.skip(i as int + 1)[j] by {
                    assert(old_v@[j] == ov[j + 1]);
                    assert(contexts_view(ov)[j + 1] == cs.skip(i as int)[j + 1]);
                }
                assert(contexts_view(old_v@) =~= cs.skip(i as int + 1));
                assert(cs.take(i as int + 1).drop_last() =~= cs.take(i as int));
                assert(cs.take(i as int + 1).last() == cs[i as int]);
                lemma_parts_bytes_nonneg(cs[i as int].parts);
            }
            if now < c.deadline {
                proof {
                    assert forall|a: int| 0 <= a < kv.len() implies kv[a].key != cs[i as int].key by {
                        let k = choose|k: int| 0 <= k < i && #[trigger] kv[a] == cs[k];
                    }
                }
                keep.push(c);
                proof {
                    assert(contexts_view(keep@) =~= kv.push(cs[i as int]));
                    assert(kv.push(cs[i as int]).drop_last() =~= kv);
                }
            }
            i = i + 1;
        }
        proof {
            assert(cs.skip(i as int).len() == 0);
            assert(cs.take(i as int) =~= cs);
            let kv = contexts_view(keep@);
            assert forall|a: int| 0 <= a < kv.len() implies ctx_ok(#[trigger] kv[a]) by {
                let k = choose|k: int| 0 <= k < i && #[trigger] kv[a] == cs[k];
            }
        }
        self.contexts = keep;
    }
}

proof fn lemma_parts_prefix(ps: Seq<(int, Seq<u8>)>, k: int)
    requires
        0 <= k <= ps.len(),
    ensures
        0 <= parts_bytes(ps.take(k)) <= parts_bytes(ps),
    decreases ps.len(),
{
    if ps.len() > 0 {
        if k == ps.len() {
            assert(ps.take(k) =~= ps);
            lemma_parts_prefix(ps.drop_last(), k - 1);
            assert(ps.drop_last().take(k - 1) =~= ps.drop_last());
        } else {
            lemma_parts_prefix(ps.drop_last(), k);
            assert(ps.drop_last().take(k) =~= ps.take(k));
        }
    } else {
        assert(ps.take(k).len() == 0);
    }
}



fn find(cs: &Vec<Context>, key: &Key) -> (r: Option<usize>)
    requires
        contexts_ok(contexts_view(cs@)),
    ensures
        r matches Some(k) ==> k < cs@.len(),
        opt_int(r) == find_ctx(contexts_view(cs@), key@),
{
    let ghost v = contexts_view(cs@);
    let mut i: usize = 0;
    while i < cs.len()
        invariant
            v == contexts_view(cs@),
            contexts_ok(v),
            i <= v.len(),
            forall|j: int| 0 <= j < i ==> v[j].key != key@,
        decreases v.len() - i,
    {
        assert(v[i as int] == cs@[i as int]@);
        if same_key(&cs[i].key, key) {
            proof {
                lemma_find_ctx(v, key@, i as int);
            }
            return Some(i);
        }
        i = i + 1;
    }
    None
}

fn conflicts_exec(c: &Context, f: &Fragment, end: usize) -> (r: bool)
    requires
        ctx_ok(c@),
        end == f@.offset + f@.payload.len(),
        end <= 65535,
    ensures
        r == conflicts(c@, f@, end as int),
{
    let ghost cv = c@;
    let ghost fv = f@;
    let mut conflict = !same_bytes(c.header.as_slice(), f.header.as_slice());
    match c.end {
        Some(e) => {
            if end > e || (!f.more && end != e) {
                conflict = true;
            }
        },
        None => {},
    }
    let mut overlap = false;
    let mut beyond = false;
    let mut j: usize = 0;
    while j < c.parts.len()
        invariant
            cv == c@,
            fv == f@,
            ctx_ok(cv),
            j <= cv.parts.len(),
            end == fv.offset + fv.payload.len(),
            overlap == exists|m: int| 0 <= m < j && fv.offset < cv.parts[m].0 + cv.parts[m].1.len() && cv.parts[m].0 < end,
            beyond == exists|m: int| 0 <= m < j && cv.parts[m].0 + cv.parts[m].1.len() > end,
        decreases cv.parts.len() - j,
    {
        assert(cv.parts[j as int] == (c.parts@[j as int].0 as int, c.parts@[j as int].1@));
        let at = c.parts[j].0;
        let len = c.parts[j].1.len();
        if f.offset < at + len && at < end {
            overlap = true;
        }
        if at + len > end {
            beyond = true;
        }
        j = j + 1;
    }
    conflict || overlap || (!f.more && beyond)
}

fn place(c: &Context, offset: usize) -> (r: usize)
    requires
        ctx_ok(c@),
    ensures
        r == part_place(c@.parts, offset as int),
{
    let ghost ps = c@.parts;
    proof {
        lemma_part_place(ps, offset as int);
    }
    let mut p: usize = 0;
    while p < c.parts.len() && c.parts[p].0 < offset
        invariant
            ps == c@.parts,
            p <= ps.len(),
            forall|m: int| 0 <= m < p ==> ps[m].0 < offset,
        decreases ps.len() - p,
    {
        assert(ps[p as int].0 == c.parts@[p as int].0);
        p = p + 1;
    }
    proof {
        let q = part_place(ps, offset as int);
        if p < ps.len() {
            assert(ps[p as int].0 == c.parts@[p as int].0);
        }
        if (p as int) < q {
            assert(ps[p as int].0 < offset);
        }
        if q < (p as int) {
            assert(ps[q].0 >= offset);
        }
    }
    p
}

fn contiguous_exec(c: &Context) -> (r: Option<usize>)
    requires
        parts_bytes(c@.parts) <= CAP,
    ensures
        opt_int(r) == contiguous(c@.parts),
{
    let ghost ps = c@.parts;
    let mut reach: Option<usize> = Some(0);
    let mut q: usize = 0;
    assert(ps.take(0) =~= Seq::<(int, Seq<u8>)>::empty());
    while q < c.parts.len()
        invariant
            ps == c@.parts,
            q <= ps.len(),
            opt_int(reach) == contiguous(ps.take(q as int)),
            parts_bytes(ps) <= CAP,
        decreases ps.len() - q,
    {
        proof {
            assert(ps.take(q as int + 1).drop_last() =~= ps.take(q as int));
            assert(ps.take(q as int + 1).last() == ps[q as int]);
            assert(ps[q as int] == (c.parts@[q as int].0 as int, c.parts@[q as int].1@));
            lemma_parts_prefix(ps, q as int + 1);
            lemma_contiguous_len(ps.take(q as int));
            lemma_joined_len(ps.take(q as int));
            lemma_parts_prefix(ps, q as int);
        }
        reach = match reach {
            Some(n) => if c.parts[q].0 == n {
                Some(n + c.parts[q].1.len())
            } else {
                None
            },
            None => None,
        };
        q = q + 1;
    }
    assert(ps.take(ps.len() as int) =~= ps);
    reach
}

fn join(c: &Context) -> (r: Vec<u8>)
    ensures
        r@ == joined(c@.parts),
{
    let ghost ps = c@.parts;
    let mut data: Vec<u8> = Vec::new();
    let mut q: usize = 0;
    assert(ps.take(0) =~= Seq::<(int, Seq<u8>)>::empty());
    while q < c.parts.len()
        invariant
            ps == c@.parts,
            q <= ps.len(),
            data@ == joined(ps.take(q as int)),
        decreases ps.len() - q,
    {
        proof {
            assert(ps.take(q as int + 1).drop_last() =~= ps.take(q as int));
            assert(ps.take(q as int + 1).last() == ps[q as int]);
            assert(ps[q as int].1 == c.parts@[q as int].1@);
        }
        push_bytes(&mut data, c.parts[q].1.as_slice());
        q = q + 1;
    }
    assert(ps.take(ps.len() as int) =~= ps);
    data
}

impl Reassembler {
    /// Takes one fragment in (see `spec_insert`).
    fn insert(&mut self, f: Fragment, now: u64) -> (r: Result<Option<Vec<u8>>, Error>)
        requires
            old(self).wf(),
            20 <= f.header@.len() <= 60,
        ensures
            final(self).wf(),
            (final(self)@, outcome_view(r)) == spec_insert(old(self)@, f@, now),
    {
        let ghost cs = self@;
        let ghost fv = f@;
        if f.payload.len() == 0 || f.offset > 65535 || f.payload.len() > 65535 - f.offset || (f.more && f.payload.len() % 8
            != 0) {
            return Err(Error::Invalid);
        }
        let end = f.offset + f.payload.len();
        let found = find(&self.contexts, &f.key);
        if let Some(k) = found {
            assert(cs[k as int] == self.contexts@[k as int]@);
            if conflicts_exec(&self.contexts[k], &f, end) {
                proof {
                    lemma_remove_ok(cs, k as int);
                }
                let ghost before = self.contexts@;
                self.contexts.remove(k);
                proof {
                    assert(self.contexts@ == before.remove(k as int));
                    assert(self@ =~= cs.remove(k as int));
                }
                return Err(Error::Invalid);
            }
        }
        let fresh = found.is_none();
        let total = self.retained_bytes();
        let charge = f.payload.len() + 128 + if fresh { 128 + f.header.len() } else { 0 };
        if (fresh && self.contexts.len() >= MAX_CONTEXTS) || total + charge > CAP {
            return Err(Error::Capacity);
        }
        let offset = f.offset;
        let more = f.more;
        let payload = f.payload;
        let ghost before = self.contexts@;
        let mut c: Context = match found {
            Some(k) => self.contexts.remove(k),
            None => {
                let deadline = if now > u64::MAX - LIFETIME_MS { u64::MAX } else { now + LIFETIME_MS };
                let c = Context { key: f.key, header: f.header, parts: Vec::new(), end: None, deadline };
                assert(parts_view(c.parts@) =~= Seq::<(int, Seq<u8>)>::empty());
                c
            },
        };
        let ghost c0 = c@;
        proof {
            if let Some(k) = found {
                assert(c0 == cs[k as int]);
                assert(self.contexts@ == before.remove(k as int));
                assert(self@ =~= cs.remove(k as int));
            }
        }
        if !more {
            c.end = Some(end);
        }
        let p = place(&c, offset);
        proof {
            lemma_part_place(c0.parts, offset as int);
            assert(c@.parts == c0.parts);
        }
        let ghost pv = payload@;
        let ghost pre = c.parts@;
        c.parts.insert(p, (offset, payload));
        let ghost c1 = c@;
        proof {
            assert(c1.parts =~= c0.parts.insert(p as int, (offset as int, pv)));
            lemma_parts_bytes_insert(c0.parts, p as int, (offset as int, pv));
            lemma_c1_ok(c0, fv, p as int, end as int);
            if let Some(k) = found {
                lemma_retained_update(cs, k as int, c1);
                lemma_ctx_le_retained(cs.update(k as int, c1), k as int);
            }
        }
        let reach = contiguous_exec(&c);
        let done = match reach {
            Some(n) => match c.end {
                Some(e) => e == n,
                None => false,
            },
            None => false,
        };
        if done {
            let data = join(&c);
            proof {
                lemma_joined_len(c1.parts);
                match found {
                    Some(k) => {
                        lemma_remove_ok(cs, k as int);
                    },
                    None => {},
                }
            }
            return match complete(c.header, &data) {
                Some(v) => Ok(Some(v)),
                None => Err(Error::Invalid),
            };
        }
        match found {
            Some(k) => {
                let ghost mid = self.contexts@;
                self.contexts.insert(k, c);
                proof {
                    assert(self.contexts@ == mid.insert(k as int, c));
                    assert(self@ =~= cs.update(k as int, c1));
                    lemma_retained_update(cs, k as int, c1);
                    let w = cs.update(k as int, c1);
                    assert forall|a: int, b: int| 0 <= a < b < w.len() implies w[a].key != w[b].key by {
                        assert(cs[a].key != cs[b].key);
                    }
                    assert forall|i: int| 0 <= i < w.len() implies ctx_ok(#[trigger] w[i]) by {
                        if i != k {
                            assert(w[i] == cs[i]);
                        }
                    }
                }
            },
            None => {
                let ghost mid = self.contexts@;
                self.contexts.push(c);
                proof {
                    assert(self@ =~= cs.push(c1));
                    assert(cs.push(c1).drop_last() =~= cs);
                    let w = cs.push(c1);
                    assert forall|i: int| 0 <= i < w.len() implies ctx_ok(#[trigger] w[i]) by {
                        if i < cs.len() {
                            assert(w[i] == cs[i]);
                        }
                    }
                }
            },
        }
        Ok(None)
    }
}

/// The datagram with the new part is one that can be: parts in order, none empty, within
/// the datagram's bounds.
proof fn lemma_c1_ok(c0: ContextV, f: FragmentV, p: int, end: int)
    requires
        ctx_ok(c0),
        p == part_place(c0.parts, f.offset),
        end == f.offset + f.payload.len(),
        f.payload.len() > 0,
        f.offset >= 0,
        end <= 65535,
        !(exists|i: int| 0 <= i < c0.parts.len() && f.offset < c0.parts[i].0 + c0.parts[i].1.len() && c0.parts[i].0 < end),
    ensures
        ctx_ok(ContextV { end: if !f.more { Some(end) } else { c0.end }, parts: c0.parts.insert(p, (f.offset, f.payload)), ..c0 }),
{
    lemma_part_place(c0.parts, f.offset);
    let ps = c0.parts.insert(p, (f.offset, f.payload));
    if p < c0.parts.len() {
        assert(c0.parts[p].0 != f.offset);
    }
    assert forall|a: int, b: int| 0 <= a < b < ps.len() implies ps[a].0 < ps[b].0 by {
        if b < p {
        } else if b == p {
        } else if a < p {
        } else if a == p {
        } else {
        }
    }
    assert forall|j: int| 0 <= j < ps.len() implies (#[trigger] ps[j]).1.len() > 0 && ps[j].0 >= 0 && ps[j].0 + ps[j].1.len() <= 65535 by {
        if j < p {
            assert(ps[j] == c0.parts[j]);
        } else if j > p {
            assert(ps[j] == c0.parts[j - 1]);
        }
    }
}


impl Reassembler {
    /// Takes one IPv4 packet in at `now` (see `spec_input_v4`): a whole packet comes back as
    /// it is, a fragment joins its datagram, and the datagram comes back once complete.
    pub fn input_v4(&mut self, b: &[u8], now: u64) -> (r: Result<Option<Vec<u8>>, Error>)
        requires
            old(self).wf(),
        ensures
            final(self).wf(),
            (final(self)@, outcome_view(r)) == spec_input_v4(old(self)@, b@, now),
    {
        self.expire(now);
        let p = match Packet::parse(b) {
            Ok(p) => p,
            Err(_) => return Err(Error::Invalid),
        };
        if p.bytes.len() != b.len() {
            return Err(Error::Invalid);
        }
        if !p.more_fragments && p.fragment_offset == 0 {
            return Ok(Some(vstd::slice::slice_to_vec(b)));
        }
        let h = p.header_len;
        let mut header = vstd::slice::slice_to_vec(vstd::slice::slice_subrange(b, 0, h));
        header.set(2, 0);
        header.set(3, 0);
        header.set(6, 0);
        header.set(7, 0);
        header.set(10, 0);
        header.set(11, 0);
        assert(header@ =~= rebuilt_header(b@, h as int));
        let source = vec![p.source[0], p.source[1], p.source[2], p.source[3]];
        let destination = vec![p.destination[0], p.destination[1], p.destination[2], p.destination[3]];
        assert(source@ =~= p.source@);
        assert(destination@ =~= p.destination@);
        let f = Fragment {
            key: Key { source, destination, protocol: p.protocol, id: p.id as u32 },
            header,
            offset: p.fragment_offset,
            more: p.more_fragments,
            payload: vstd::slice::slice_to_vec(p.payload),
        };
        self.insert(f, now)
    }
}


/// The header of the `i`-th piece of `b` cut in `chunk`-octet pieces: the packet's own
/// header with total length, identification, offset and more-fragments flag set, and the
/// checksum recomputed.
pub open spec fn piece_header(b: Seq<u8>, offset: int, len: int, more: bool, id: u32) -> Seq<u8> {
    let total = (len + 20) as u16;
    let flags = (((offset as u16) / 8) as int + if more { 0x2000int } else { 0 }) as u16;
    let h = b.take(20).update(2, be16_bytes(total)[0]).update(3, be16_bytes(total)[1]).update(4, be16_bytes(id as u16)[0]).update(
        5,
        be16_bytes(id as u16)[1],
    ).update(6, be16_bytes(flags)[0]).update(7, be16_bytes(flags)[1]).update(10, 0).update(11, 0);
    let c = spec_checksum(h);
    h.update(10, be16_bytes(c)[0]).update(11, be16_bytes(c)[1])
}

/// The `i`-th piece: its header and its share of the payload.
pub open spec fn piece(b: Seq<u8>, i: int, chunk: int, id: u32) -> Seq<u8> {
    let payload = b.skip(20);
    let start = i * chunk;
    let stop = if start + chunk < payload.len() { start + chunk } else { payload.len() as int };
    let data = payload.subrange(start, stop);
    piece_header(b, start, data.len() as int, stop < payload.len(), id) + data
}

/// How many pieces of `chunk` octets a payload of `n` octets takes.
pub open spec fn piece_count(n: int, chunk: int) -> int {
    (n + chunk - 1) / chunk
}

/// A locally made IPv4 packet cut to the egress MTU: unchanged if it fits; otherwise a
/// packet with a plain 20-octet header, not itself a fragment, cut in pieces of the largest
/// multiple of eight octets that fits, for an MTU of at least 68; `None` otherwise.
pub open spec fn spec_fragment_v4(b: Seq<u8>, mtu: int, id: u32) -> Option<Seq<Seq<u8>>> {
    if b.len() <= mtu {
        Some(seq![b])
    } else {
        match parse_ipv4(b, false) {
            None => None,
            Some(p) => if p.header_len != 20 || p.more_fragments || p.fragment_offset != 0 || mtu < 68 {
                None
            } else {
                let chunk = (mtu - 20) / 8 * 8;
                Some(Seq::new(piece_count(b.len() - 20, chunk) as nat, |i: int| piece(b, i, chunk, id)))
            },
        }
    }
}

/// Cuts a locally made IPv4 packet to the egress MTU (see `spec_fragment_v4`).
pub fn fragment_v4(b: &[u8], mtu: usize, id: u32) -> (r: Result<Vec<Vec<u8>>, Error>)
    ensures
        match spec_fragment_v4(b@, mtu as int, id) {
            Some(ps) => r matches Ok(v) && v@.map_values(|x: Vec<u8>| x@) == ps,
            None => r == Err::<Vec<Vec<u8>>, Error>(Error::Invalid),
        },
{
    if b.len() <= mtu {
        let v = vec![vstd::slice::slice_to_vec(b)];
        assert(v@.map_values(|x: Vec<u8>| x@) =~= seq![b@]);
        return Ok(v);
    }
    let p = match Packet::parse(b) {
        Ok(p) => p,
        Err(_) => return Err(Error::Invalid),
    };
    if p.header_len != 20 || p.more_fragments || p.fragment_offset != 0 || mtu < 68 {
        return Err(Error::Invalid);
    }
    let chunk = (mtu - 20) / 8 * 8;
    let n = b.len() - 20;
    let ghost count = piece_count(n as int, chunk as int);
    assert(chunk >= 48);
    let mut out: Vec<Vec<u8>> = Vec::new();
    let mut start: usize = 0;
    let mut i: usize = 0;
    proof {
        assert(count >= 1) by (nonlinear_arith)
            requires
                n >= 1,
                chunk >= 48,
                count == (n as int + chunk as int - 1) / (chunk as int),
        ;
    }
    while start < n
        invariant
            b@.len() == n + 20,
            n + 20 <= usize::MAX,
            chunk >= 48,
            count == piece_count(n as int, chunk as int),
            start == (if i * chunk < n { i * chunk } else { n as int }),
            start <= n,
            i <= start,
            i <= count,
            start < n ==> i < count,
            start >= n ==> i == count,
            out@.len() == i,
            forall|k: int| 0 <= k < i ==> (#[trigger] out@[k])@ == piece(b@, k, chunk as int, id),
        decreases n - start,
    {
        assert(start == i * chunk);
        let stop = if chunk < n - start { start + chunk } else { n };
        assert(stop <= n && start < stop);
        let more = stop < n;
        let len = stop - start;
        let total: u16 = (len + 20) as u16;
        let flags: u16 = ((start as u16) / 8) + if more { 0x2000u16 } else { 0 };
        let mut h = vstd::slice::slice_to_vec(vstd::slice::slice_subrange(b, 0, 20));
        h.set(2, (total / 256) as u8);
        h.set(3, (total % 256) as u8);
        h.set(4, ((id as u16) / 256) as u8);
        h.set(5, ((id as u16) % 256) as u8);
        h.set(6, (flags / 256) as u8);
        h.set(7, (flags % 256) as u8);
        h.set(10, 0);
        h.set(11, 0);
        let c = checksum(h.as_slice());
        h.set(10, (c / 256) as u8);
        h.set(11, (c % 256) as u8);
        let data = vstd::slice::slice_subrange(b, 20 + start, 20 + stop);
        proof {
            let payload = b@.skip(20);
            assert(data@ =~= payload.subrange(start as int, stop as int));
            assert((((start as u16) / 8) as int + if more { 0x2000int } else { 0 }) < 65536) by (nonlinear_arith)
                requires
                    (start as u16) as int <= 65535,
            ;
            assert(h@ =~= piece_header(b@, start as int, len as int, more, id));
        }
        push_bytes(&mut h, data);
        proof {
            assert(h@ == piece(b@, i as int, chunk as int, id));
        }
        out.push(h);
        proof {
            assert forall|k: int| 0 <= k < i + 1 implies (#[trigger] out@[k])@ == piece(b@, k, chunk as int, id) by {}
            assert((i + 1) * chunk == i * chunk + chunk) by (nonlinear_arith);
            assert(i + 1 <= stop);
            if stop < n {
                assert(i + 1 < count) by (nonlinear_arith)
                    requires
                        (i + 1) * chunk < n,
                        count == (n as int + chunk as int - 1) / (chunk as int),
                        chunk >= 48,
                ;
            } else {
                assert(i + 1 == count) by (nonlinear_arith)
                    requires
                        i * chunk < n,
                        (i + 1) * chunk >= n,
                        count == (n as int + chunk as int - 1) / (chunk as int),
                        chunk >= 48,
                ;
            }
        }
        start = stop;
        i = i + 1;
    }
    proof {
        assert(out@.map_values(|x: Vec<u8>| x@) =~= Seq::new(count as nat, |k: int| piece(b@, k, chunk as int, id)));
    }
    Ok(out)
}

} // verus!
