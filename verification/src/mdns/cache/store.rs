//! Records learned on the AIL, in sets by owner, type and class, with least-recently-used
//! eviction under a byte budget. Registrations are owned by SRP, never by this cache.
use super::{bitmap_has, cacheable, charge, same, same_name, spec_bitmap_has, spec_cacheable, spec_charge, spec_matches, spec_same};
use crate::dns::wire::{Rdata, RdataV};
use crate::dns::name::canonical_wire;
use crate::dns::wire::{Message, MessageV, Question, QuestionV, Record, RecordV};
use crate::error::Error;
use crate::ipv4::sat_add;
use vstd::prelude::*;

verus! {

/// At most this many record sets.
pub const SETS: usize = 1024;

/// At most this many charged octets.
pub const BYTES: usize = 4194304;

/// Lexicographic order on octet strings.
pub open spec fn bytes_lt(a: Seq<u8>, b: Seq<u8>) -> bool
    decreases a.len(),
{
    if a.len() == 0 {
        b.len() > 0
    } else if b.len() == 0 {
        false
    } else if a[0] != b[0] {
        a[0] < b[0]
    } else {
        bytes_lt(a.drop_first(), b.drop_first())
    }
}

pub proof fn lemma_bytes_lt_irreflexive(a: Seq<u8>)
    ensures
        !bytes_lt(a, a),
    decreases a.len(),
{
    if a.len() > 0 {
        lemma_bytes_lt_irreflexive(a.drop_first());
    }
}

pub proof fn lemma_bytes_lt_total(a: Seq<u8>, b: Seq<u8>)
    ensures
        a == b || bytes_lt(a, b) || bytes_lt(b, a),
        !(bytes_lt(a, b) && bytes_lt(b, a)),
    decreases a.len(),
{
    if a.len() > 0 && b.len() > 0 && a[0] == b[0] {
        lemma_bytes_lt_total(a.drop_first(), b.drop_first());
        if a.drop_first() == b.drop_first() {
            assert(a =~= seq![a[0]] + a.drop_first());
            assert(b =~= seq![b[0]] + b.drop_first());
        }
    } else if a.len() == 0 && b.len() == 0 {
        assert(a =~= b);
    }
}

pub proof fn lemma_bytes_lt_transitive(a: Seq<u8>, b: Seq<u8>, c: Seq<u8>)
    requires
        bytes_lt(a, b),
        bytes_lt(b, c),
    ensures
        bytes_lt(a, c),
    decreases a.len(),
{
    if a.len() > 0 && b.len() > 0 && c.len() > 0 && a[0] == b[0] && b[0] == c[0] {
        lemma_bytes_lt_transitive(a.drop_first(), b.drop_first(), c.drop_first());
    }
}

/// A set's key: the owner's canonical wire form, the type, and the class without the
/// cache-flush bit.
pub type KeyV = (Seq<u8>, u16, u16);

pub open spec fn key_lt(a: KeyV, b: KeyV) -> bool {
    bytes_lt(a.0, b.0) || (a.0 == b.0 && (a.1 < b.1 || (a.1 == b.1 && a.2 < b.2)))
}

pub proof fn lemma_key_lt(a: KeyV, b: KeyV, c: KeyV)
    ensures
        !key_lt(a, a),
        a == b || key_lt(a, b) || key_lt(b, a),
        !(key_lt(a, b) && key_lt(b, a)),
        key_lt(a, b) && key_lt(b, c) ==> key_lt(a, c),
{
    lemma_bytes_lt_irreflexive(a.0);
    lemma_bytes_lt_total(a.0, b.0);
    lemma_bytes_lt_total(b.0, c.0);
    lemma_bytes_lt_total(a.0, c.0);
    if bytes_lt(a.0, b.0) && bytes_lt(b.0, c.0) {
        lemma_bytes_lt_transitive(a.0, b.0, c.0);
    }
}

pub open spec fn record_key(r: RecordV) -> KeyV {
    (canonical_wire(r.name), r.kind, r.class & 0x7fffu16)
}

pub struct EntryV {
    pub record: RecordV,
    pub received: u64,
    pub expires: u64,
    pub charge: int,
    /// First unanswered multicast question, last distinct query, and their count.
    pub failure: Option<(u64, u64, u8)>,
}

pub struct SetV {
    pub key: KeyV,
    pub records: Seq<EntryV>,
    pub used: u64,
}

/// When an entry stops being used: at expiry, or ten seconds after the first of two or
/// more questions that it did not see answered, if sooner.
pub open spec fn entry_deadline(e: EntryV) -> u64 {
    match e.failure {
        Some(f) => if f.2 >= 2 {
            let cap = sat_add(f.0, 10000);
            if e.expires < cap {
                e.expires
            } else {
                cap
            }
        } else {
            e.expires
        },
        None => e.expires,
    }
}

/// Total charge of a set's entries.
pub open spec fn entries_charge(rs: Seq<EntryV>) -> int
    decreases rs.len(),
{
    if rs.len() == 0 {
        0
    } else {
        entries_charge(rs.drop_last()) + rs.last().charge
    }
}

/// Total charge of all sets.
pub open spec fn sets_charge(ss: Seq<SetV>) -> int
    decreases ss.len(),
{
    if ss.len() == 0 {
        0
    } else {
        sets_charge(ss.drop_last()) + entries_charge(ss.last().records)
    }
}

/// Number of entries in all sets.
pub open spec fn sets_entries(ss: Seq<SetV>) -> int
    decreases ss.len(),
{
    if ss.len() == 0 {
        0
    } else {
        sets_entries(ss.drop_last()) + ss.last().records.len()
    }
}

/// Sets in increasing key order; each entry's record belongs to its set's key and is
/// charged at least the fixed part.
pub open spec fn sets_ok(ss: Seq<SetV>) -> bool {
    &&& forall|i: int, j: int| 0 <= i < j < ss.len() ==> key_lt(#[trigger] ss[i].key, #[trigger] ss[j].key)
    &&& forall|i: int, j: int|
        0 <= i < ss.len() && 0 <= j < ss[i].records.len() ==> record_key(#[trigger] ss[i].records[j].record) == ss[i].key
            && ss[i].records[j].charge >= 1024
}

pub proof fn lemma_entries_charge(rs: Seq<EntryV>)
    requires
        forall|j: int| 0 <= j < rs.len() ==> (#[trigger] rs[j]).charge >= 1024,
    ensures
        entries_charge(rs) >= 1024 * rs.len(),
    decreases rs.len(),
{
    if rs.len() > 0 {
        lemma_entries_charge(rs.drop_last());
        assert(rs.last() == rs[rs.len() - 1]);
    }
}

pub proof fn lemma_sets_charge(ss: Seq<SetV>)
    requires
        sets_ok(ss),
    ensures
        sets_charge(ss) >= 1024 * sets_entries(ss),
        sets_charge(ss) >= 0,
        sets_entries(ss) >= 0,
    decreases ss.len(),
{
    if ss.len() > 0 {
        let d = ss.drop_last();
        assert(sets_ok(d)) by {
            assert forall|i: int, j: int| 0 <= i < j < d.len() implies key_lt(#[trigger] d[i].key, #[trigger] d[j].key) by {
                assert(d[i] == ss[i] && d[j] == ss[j]);
            }
            assert forall|i: int, j: int| 0 <= i < d.len() && 0 <= j < d[i].records.len() implies record_key(
                #[trigger] d[i].records[j].record,
            ) == d[i].key && d[i].records[j].charge >= 1024 by {
                assert(d[i] == ss[i]);
            }
        }
        lemma_sets_charge(d);
        let last = ss[ss.len() - 1];
        assert forall|j: int| 0 <= j < last.records.len() implies (#[trigger] last.records[j]).charge >= 1024 by {
            assert(record_key(ss[ss.len() - 1].records[j].record) == ss[ss.len() - 1].key);
        }
        lemma_entries_charge(last.records);
    }
}

pub proof fn lemma_sets_charge_prefix(ss: Seq<SetV>, i: int)
    requires
        sets_ok(ss),
        0 <= i <= ss.len(),
    ensures
        sets_charge(ss.take(i)) <= sets_charge(ss),
        sets_entries(ss.take(i)) <= sets_entries(ss),
    decreases ss.len() - i,
{
    if i < ss.len() {
        lemma_sets_charge_prefix(ss, i + 1);
        assert(ss.take(i + 1).drop_last() =~= ss.take(i));
        let last = ss[i];
        assert forall|j: int| 0 <= j < last.records.len() implies (#[trigger] last.records[j]).charge >= 1024 by {
            assert(record_key(ss[i].records[j].record) == ss[i].key);
        }
        lemma_entries_charge(last.records);
    } else {
        assert(ss.take(i) =~= ss);
    }
}

/// The earliest deadline among entries.
pub open spec fn entries_min(rs: Seq<EntryV>) -> Option<u64>
    decreases rs.len(),
{
    if rs.len() == 0 {
        None
    } else {
        let d = entry_deadline(rs.last());
        match entries_min(rs.drop_last()) {
            None => Some(d),
            Some(m) => Some(if d < m { d } else { m }),
        }
    }
}

/// The earliest deadline in the cache.
pub open spec fn sets_min(ss: Seq<SetV>) -> Option<u64>
    decreases ss.len(),
{
    if ss.len() == 0 {
        None
    } else {
        match (sets_min(ss.drop_last()), entries_min(ss.last().records)) {
            (None, m) => m,
            (m, None) => m,
            (Some(a), Some(b)) => Some(if b < a { b } else { a }),
        }
    }
}

/// The entries still in use at `now`.
pub open spec fn keep_entries(rs: Seq<EntryV>, now: u64) -> Seq<EntryV>
    decreases rs.len(),
{
    if rs.len() == 0 {
        rs
    } else {
        let sub = keep_entries(rs.drop_last(), now);
        if entry_deadline(rs.last()) > now {
            sub.push(rs.last())
        } else {
            sub
        }
    }
}

/// Drops entries whose deadline has passed, then sets left empty.
pub open spec fn expire_sets(ss: Seq<SetV>, now: u64) -> Seq<SetV>
    decreases ss.len(),
{
    if ss.len() == 0 {
        ss
    } else {
        let sub = expire_sets(ss.drop_last(), now);
        let rs = keep_entries(ss.last().records, now);
        if rs.len() > 0 {
            sub.push(SetV { records: rs, ..ss.last() })
        } else {
            sub
        }
    }
}

pub proof fn lemma_keep_entries(rs: Seq<EntryV>, now: u64)
    ensures
        keep_entries(rs, now).len() <= rs.len(),
        forall|i: int| 0 <= i < keep_entries(rs, now).len() ==> exists|j: int| 0 <= j < rs.len() && #[trigger] keep_entries(rs, now)[i] == rs[j],
        (forall|j: int| 0 <= j < rs.len() ==> (#[trigger] rs[j]).charge >= 0) ==> entries_charge(keep_entries(rs, now))
            <= entries_charge(rs),
    decreases rs.len(),
{
    if rs.len() > 0 {
        let sub = keep_entries(rs.drop_last(), now);
        lemma_keep_entries(rs.drop_last(), now);
        let out = keep_entries(rs, now);
        assert forall|i: int| 0 <= i < out.len() implies exists|j: int| 0 <= j < rs.len() && #[trigger] out[i] == rs[j] by {
            if i < sub.len() {
                assert(out[i] == sub[i]);
                let j = choose|j: int| 0 <= j < rs.drop_last().len() && sub[i] == rs.drop_last()[j];
                assert(rs.drop_last()[j] == rs[j]);
            } else {
                assert(out[i] == rs[rs.len() - 1]);
            }
        }
        if forall|j: int| 0 <= j < rs.len() ==> (#[trigger] rs[j]).charge >= 0 {
            assert(forall|j: int| 0 <= j < rs.drop_last().len() ==> (#[trigger] rs.drop_last()[j]).charge >= 0) by {
                assert forall|j: int| 0 <= j < rs.drop_last().len() implies (#[trigger] rs.drop_last()[j]).charge >= 0 by {
                    assert(rs.drop_last()[j] == rs[j]);
                }
            }
            assert(rs.last() == rs[rs.len() - 1]);
            if entry_deadline(rs.last()) > now {
                assert(out.drop_last() =~= sub);
            }
        }
    }
}

pub proof fn lemma_expire_sets(ss: Seq<SetV>, now: u64)
    requires
        sets_ok(ss),
    ensures
        sets_ok(expire_sets(ss, now)),
        expire_sets(ss, now).len() <= ss.len(),
        sets_charge(expire_sets(ss, now)) <= sets_charge(ss),
        forall|i: int| 0 <= i < expire_sets(ss, now).len() ==> exists|j: int| 0 <= j < ss.len() && (#[trigger] expire_sets(ss, now)[i]).key == ss[j].key,
    decreases ss.len(),
{
    if ss.len() > 0 {
        let d = ss.drop_last();
        assert(sets_ok(d)) by {
            assert forall|i: int, j: int| 0 <= i < j < d.len() implies key_lt(#[trigger] d[i].key, #[trigger] d[j].key) by {
                assert(d[i] == ss[i] && d[j] == ss[j]);
            }
            assert forall|i: int, j: int| 0 <= i < d.len() && 0 <= j < d[i].records.len() implies record_key(
                #[trigger] d[i].records[j].record,
            ) == d[i].key && d[i].records[j].charge >= 1024 by {
                assert(d[i] == ss[i]);
            }
        }
        lemma_expire_sets(d, now);
        let sub = expire_sets(d, now);
        let last = ss.last();
        assert(last == ss[ss.len() - 1]);
        let rs = keep_entries(last.records, now);
        lemma_keep_entries(last.records, now);
        assert forall|j: int| 0 <= j < last.records.len() implies (#[trigger] last.records[j]).charge >= 0 by {
            assert(record_key(ss[ss.len() - 1].records[j].record) == ss[ss.len() - 1].key);
        }
        let out = expire_sets(ss, now);
        assert forall|i: int| 0 <= i < out.len() implies exists|j: int| 0 <= j < ss.len() && (#[trigger] out[i]).key == ss[j].key by {
            if i < sub.len() {
                assert(out[i] == sub[i]);
                let j = choose|j: int| 0 <= j < d.len() && sub[i].key == d[j].key;
                assert(d[j] == ss[j]);
            } else {
                assert(out[i].key == ss[ss.len() - 1].key);
            }
        }
        if rs.len() > 0 {
            assert(out.drop_last() =~= sub);
            let ns = SetV { records: rs, ..last };
            assert(out.last() == ns);
            assert forall|i: int, j: int| 0 <= i < j < out.len() implies key_lt(#[trigger] out[i].key, #[trigger] out[j].key) by {
                assert(out[i] == sub[i]);
                if j < sub.len() {
                    assert(out[j] == sub[j]);
                } else {
                    let k = choose|k: int| 0 <= k < d.len() && sub[i].key == d[k].key;
                    assert(d[k] == ss[k]);
                    assert(key_lt(ss[k].key, ss[ss.len() - 1].key));
                }
            }
            assert forall|i: int, j: int| 0 <= i < out.len() && 0 <= j < out[i].records.len() implies record_key(
                #[trigger] out[i].records[j].record,
            ) == out[i].key && out[i].records[j].charge >= 1024 by {
                if i < sub.len() {
                    assert(out[i] == sub[i]);
                } else {
                    let k = choose|k: int| 0 <= k < last.records.len() && rs[j] == last.records[k];
                    assert(record_key(ss[ss.len() - 1].records[k].record) == ss[ss.len() - 1].key);
                }
            }
        } else {
            assert(out == sub);
        }
    }
}

struct Entry {
    record: Record,
    received: u64,
    expires: u64,
    charge: usize,
    failure: Option<(u64, u64, u8)>,
}

struct RecordSet {
    name: Vec<u8>,
    kind: u16,
    class: u16,
    records: Vec<Entry>,
    used: u64,
}

spec fn entry_view(e: Entry) -> EntryV {
    EntryV { record: e.record@, received: e.received, expires: e.expires, charge: e.charge as int, failure: e.failure }
}

spec fn entries_view(v: Seq<Entry>) -> Seq<EntryV> {
    v.map_values(|e: Entry| entry_view(e))
}

spec fn set_view(s: RecordSet) -> SetV {
    SetV { key: (s.name@, s.kind, s.class), records: entries_view(s.records@), used: s.used }
}

spec fn sets_view(v: Seq<RecordSet>) -> Seq<SetV> {
    v.map_values(|s: RecordSet| set_view(s))
}

/// The learned-record cache.
pub struct Cache {
    sets: Vec<RecordSet>,
    bytes: usize,
}

impl View for Cache {
    type V = Seq<SetV>;

    closed spec fn view(&self) -> Seq<SetV> {
        sets_view(self.sets@)
    }
}

impl Cache {
    /// Sets in key order, at most `SETS` of them, charged in all at most `BYTES`, with the
    /// byte count kept.
    pub closed spec fn wf(&self) -> bool {
        &&& sets_ok(self@)
        &&& self@.len() <= SETS
        &&& self.bytes as int == sets_charge(self@)
        &&& self.bytes <= BYTES
    }

    /// The octets charged in all.
    pub closed spec fn charged(&self) -> int {
        self.bytes as int
    }

    pub proof fn lemma_wf(&self)
        requires
            self.wf(),
        ensures
            sets_ok(self@),
            self@.len() <= SETS,
            self.charged() == sets_charge(self@),
            self.charged() <= BYTES,
    {
    }

    /// An empty cache.
    pub fn new() -> (r: Cache)
        ensures
            r.wf(),
            r@.len() == 0,
    {
        let r = Cache { sets: Vec::new(), bytes: 0 };
        assert(r@ =~= Seq::<SetV>::empty());
        r
    }

    /// Forgets everything.
    pub fn clear(&mut self)
        ensures
            final(self).wf(),
            final(self)@.len() == 0,
    {
        self.sets = Vec::new();
        self.bytes = 0;
        assert(self@ =~= Seq::<SetV>::empty());
    }
}

impl Default for Cache {
    fn default() -> (r: Cache)
        ensures
            r.wf(),
            r@.len() == 0,
    {
        Cache::new()
    }
}

fn deadline_of(e: &Entry) -> (r: u64)
    ensures
        r == entry_deadline(entry_view(*e)),
{
    match e.failure {
        Some(f) => if f.2 >= 2 {
            let cap = f.0.saturating_add(10000);
            if e.expires < cap {
                e.expires
            } else {
                cap
            }
        } else {
            e.expires
        },
        None => e.expires,
    }
}

impl Cache {
    /// The number of sets, of records, and the octets charged.
    pub fn counts(&self) -> (r: (usize, usize, usize))
        requires
            self.wf(),
        ensures
            r.0 == self@.len(),
            r.1 == sets_entries(self@),
            r.2 == self.charged(),
    {
        let ghost ss = self@;
        let mut n: usize = 0;
        let mut i: usize = 0;
        proof {
            lemma_sets_charge(ss);
        }
        while i < self.sets.len()
            invariant
                i <= self.sets@.len(),
                ss == sets_view(self.sets@),
                sets_ok(ss),
                sets_charge(ss) <= BYTES,
                sets_charge(ss) >= 1024 * sets_entries(ss),
                n == sets_entries(ss.take(i as int)),
            decreases self.sets@.len() - i,
        {
            proof {
                lemma_sets_charge_prefix(ss, i + 1);
                assert(ss.take(i + 1).drop_last() =~= ss.take(i as int));
                lemma_sets_charge(ss.take(i + 1));
                assert(sets_ok(ss.take(i + 1))) by {
                    let t = ss.take(i + 1);
                    assert forall|a: int, b: int| 0 <= a < b < t.len() implies key_lt(#[trigger] t[a].key, #[trigger] t[b].key) by {
                        assert(t[a] == ss[a] && t[b] == ss[b]);
                    }
                    assert forall|a: int, b: int| 0 <= a < t.len() && 0 <= b < t[a].records.len() implies record_key(
                        #[trigger] t[a].records[b].record,
                    ) == t[a].key && t[a].records[b].charge >= 1024 by {
                        assert(t[a] == ss[a]);
                    }
                }
            }
            n = n + self.sets[i].records.len();
            i = i + 1;
        }
        assert(ss.take(ss.len() as int) =~= ss);
        (self.sets.len(), n, self.bytes)
    }

    /// When the next entry stops being used, if any.
    pub fn next_deadline(&self) -> (r: Option<u64>)
        ensures
            r == sets_min(self@),
    {
        let ghost ss = self@;
        let mut best: Option<u64> = None;
        let mut i: usize = 0;
        while i < self.sets.len()
            invariant
                i <= self.sets@.len(),
                ss == sets_view(self.sets@),
                best == sets_min(ss.take(i as int)),
            decreases self.sets@.len() - i,
        {
            let rs = &self.sets[i].records;
            let ghost rv = entries_view(rs@);
            let mut m: Option<u64> = None;
            let mut j: usize = 0;
            while j < rs.len()
                invariant
                    j <= rs@.len(),
                    rv == entries_view(rs@),
                    m == entries_min(rv.take(j as int)),
                decreases rs@.len() - j,
            {
                let d = deadline_of(&rs[j]);
                assert(rv.take(j + 1).drop_last() =~= rv.take(j as int));
                m = match m {
                    None => Some(d),
                    Some(x) => Some(if d < x { d } else { x }),
                };
                j = j + 1;
            }
            assert(rv.take(rv.len() as int) =~= rv);
            assert(ss.take(i + 1).drop_last() =~= ss.take(i as int));
            assert(ss.take(i + 1).last().records == rv);
            best = match (best, m) {
                (None, m) => m,
                (b, None) => b,
                (Some(a), Some(b)) => Some(if b < a { b } else { a }),
            };
            i = i + 1;
        }
        assert(ss.take(ss.len() as int) =~= ss);
        best
    }

    /// Drops entries whose deadline has passed and sets left empty.
    pub fn expire(&mut self, now: u64)
        requires
            old(self).wf(),
        ensures
            final(self).wf(),
            final(self)@ == expire_sets(old(self)@, now),
    {
        let ghost orig = self@;
        proof {
            lemma_expire_sets(orig, now);
        }
        if !self.anything_due(now) {
            proof {
                lemma_expire_none(orig, now);
            }
            return;
        }
        let mut rest: Vec<RecordSet> = Vec::new();
        std::mem::swap(&mut rest, &mut self.sets);
        let mut kept: Vec<RecordSet> = Vec::new();
        let mut bytes: usize = 0;
        assert(sets_view(kept@) =~= expire_sets(orig.take(0), now));
        assert(sets_view(rest@) =~= orig.skip(0));
        while rest.len() > 0
            invariant
                orig.len() >= rest@.len(),
                sets_ok(orig),
                sets_charge(orig) <= BYTES,
                sets_view(kept@) == expire_sets(orig.take(orig.len() - rest@.len()), now),
                sets_view(rest@) == orig.skip(orig.len() - rest@.len()),
                bytes == sets_charge(sets_view(kept@)),
            decreases rest@.len(),
        {
            let ghost k = orig.len() - rest@.len();
            let ghost rv = sets_view(rest@);
            let ghost r0 = rest@[0];
            assert(rv[0] == set_view(r0));
            assert(rv[0] == orig[k]);
            let mut s = rest.remove(0);
            assert(s == r0);
            assert(sets_view(rest@) =~= rv.drop_first());
            assert(orig.take(k + 1).drop_last() =~= orig.take(k));
            assert(orig.take(k + 1).last() == set_view(s));
            assert(orig.skip(k + 1) =~= orig.skip(k).drop_first());
            let mut entries: Vec<Entry> = Vec::new();
            std::mem::swap(&mut entries, &mut s.records);
            let ghost ev = entries_view(entries@);
            assert(ev == orig[k].records);
            let mut live: Vec<Entry> = Vec::new();
            let mut charge: usize = 0;
            proof {
                lemma_sets_ok_take(orig, k + 1);
                lemma_sets_ok_take(orig, k);
                lemma_sets_charge(orig.take(k));
                assert(orig.take(k + 1).last() == orig[k]);
                assert(sets_charge(orig.take(k + 1)) == sets_charge(orig.take(k)) + entries_charge(ev));
                lemma_expire_sets(orig.take(k + 1), now);
                lemma_sets_charge_prefix(orig, k + 1);
                lemma_sets_charge(expire_sets(orig.take(k + 1), now));
                assert forall|j: int| 0 <= j < ev.len() implies (#[trigger] ev[j]).charge >= 0 by {
                    assert(record_key(orig[k].records[j].record) == orig[k].key);
                }
            }
            let ghost evk = entries_view(entries@);
            assert(entries_view(live@) =~= keep_entries(ev.take(0), now));
            while entries.len() > 0
                invariant
                    ev.len() >= entries@.len(),
                    forall|j: int| 0 <= j < ev.len() ==> (#[trigger] ev[j]).charge >= 0,
                    entries_view(live@) == keep_entries(ev.take(ev.len() - entries@.len()), now),
                    entries_view(entries@) == ev.skip(ev.len() - entries@.len()),
                    charge == entries_charge(entries_view(live@)),
                    entries_charge(ev) <= BYTES,
                decreases entries@.len(),
            {
                let ghost m = ev.len() - entries@.len();
                let ghost wv = entries_view(entries@);
                let ghost w0 = entries@[0];
                assert(wv[0] == entry_view(w0));
                assert(wv[0] == ev[m]);
                let e = entries.remove(0);
                assert(e == w0);
                assert(entries_view(entries@) =~= wv.drop_first());
                assert(ev.take(m + 1).drop_last() =~= ev.take(m));
                assert(ev.take(m + 1).last() == entry_view(e));
                assert(ev.skip(m + 1) =~= ev.skip(m).drop_first());
                proof {
                    lemma_keep_entries(ev.take(m + 1), now);
                    assert forall|j: int| 0 <= j < ev.take(m + 1).len() implies (#[trigger] ev.take(m + 1)[j]).charge >= 0 by {
                        assert(ev.take(m + 1)[j] == ev[j]);
                    }
                    lemma_entries_prefix(ev, m + 1);
                }
                if deadline_of(&e) > now {
                    assert(keep_entries(ev.take(m + 1), now) == keep_entries(ev.take(m), now).push(entry_view(e)));
                    assert(keep_entries(ev.take(m + 1), now).drop_last() =~= keep_entries(ev.take(m), now));
                    let ghost lv = entries_view(live@);
                    charge = charge + e.charge;
                    live.push(e);
                    assert(entries_view(live@) =~= lv.push(entry_view(e)));
                    assert(entries_view(live@).drop_last() =~= lv);
                }
            }
            assert(ev.take(ev.len() as int) =~= ev);
            proof {
                let sub = expire_sets(orig.take(k), now);
                let rs = keep_entries(orig.take(k + 1).last().records, now);
                assert(rs == keep_entries(ev, now));
                if rs.len() > 0 {
                    let ns = SetV { records: rs, ..orig.take(k + 1).last() };
                    assert(expire_sets(orig.take(k + 1), now) == sub.push(ns));
                    assert(sub.push(ns).drop_last() =~= sub);
                    assert(sets_charge(sub.push(ns)) == sets_charge(sub) + entries_charge(rs));
                }
            }
            if live.len() > 0 {
                s.records = live;
                let ghost before = sets_view(kept@);
                bytes = bytes + charge;
                kept.push(s);
                assert(sets_view(kept@) =~= before.push(set_view(s)));
                assert(sets_view(kept@).drop_last() =~= before);
            }
        }
        assert(orig.take(orig.len() as int) =~= orig);
        self.sets = kept;
        self.bytes = bytes;
    }
}

pub proof fn lemma_sets_ok_take(ss: Seq<SetV>, i: int)
    requires
        sets_ok(ss),
        0 <= i <= ss.len(),
    ensures
        sets_ok(ss.take(i)),
{
    let t = ss.take(i);
    assert forall|a: int, b: int| 0 <= a < b < t.len() implies key_lt(#[trigger] t[a].key, #[trigger] t[b].key) by {
        assert(t[a] == ss[a] && t[b] == ss[b]);
    }
    assert forall|a: int, b: int| 0 <= a < t.len() && 0 <= b < t[a].records.len() implies record_key(
        #[trigger] t[a].records[b].record,
    ) == t[a].key && t[a].records[b].charge >= 1024 by {
        assert(t[a] == ss[a]);
    }
}

/// Two caches whose sets have the same keys and entries with the same records and charges.
pub open spec fn same_shape(a: Seq<SetV>, b: Seq<SetV>) -> bool {
    &&& a.len() == b.len()
    &&& forall|i: int|
        0 <= i < a.len() ==> (#[trigger] a[i]).key == b[i].key && a[i].records.len() == b[i].records.len()
    &&& forall|i: int, j: int|
        0 <= i < a.len() && 0 <= j < a[i].records.len() ==> record_key((#[trigger] a[i].records[j]).record) == record_key(
            b[i].records[j].record,
        ) && a[i].records[j].charge == b[i].records[j].charge
}

pub proof fn lemma_entries_same_charge(a: Seq<EntryV>, b: Seq<EntryV>)
    requires
        a.len() == b.len(),
        forall|j: int| 0 <= j < a.len() ==> (#[trigger] a[j]).charge == b[j].charge,
    ensures
        entries_charge(a) == entries_charge(b),
    decreases a.len(),
{
    if a.len() > 0 {
        lemma_entries_same_charge(a.drop_last(), b.drop_last());
        assert(a.last() == a[a.len() - 1] && b.last() == b[b.len() - 1]);
    }
}

pub proof fn lemma_same_shape(a: Seq<SetV>, b: Seq<SetV>)
    requires
        same_shape(a, b),
    ensures
        sets_charge(a) == sets_charge(b),
        sets_entries(a) == sets_entries(b),
        sets_ok(a) ==> sets_ok(b),
    decreases a.len(),
{
    if a.len() > 0 {
        let (da, db) = (a.drop_last(), b.drop_last());
        assert(same_shape(da, db)) by {
            assert forall|i: int| 0 <= i < da.len() implies (#[trigger] da[i]).key == db[i].key && da[i].records.len()
                == db[i].records.len() by {
                assert(da[i] == a[i] && db[i] == b[i]);
            }
            assert forall|i: int, j: int| 0 <= i < da.len() && 0 <= j < da[i].records.len() implies record_key(
                (#[trigger] da[i].records[j]).record,
            ) == record_key(db[i].records[j].record) && da[i].records[j].charge == db[i].records[j].charge by {
                assert(da[i] == a[i] && db[i] == b[i]);
            }
        }
        lemma_same_shape(da, db);
        let k = a.len() - 1;
        assert(a.last() == a[k] && b.last() == b[k]);
        assert forall|j: int| 0 <= j < a[k].records.len() implies (#[trigger] a[k].records[j]).charge == b[k].records[j].charge by {
        }
        lemma_entries_same_charge(a[k].records, b[k].records);
        if sets_ok(a) {
            assert forall|i: int, j: int| 0 <= i < j < b.len() implies key_lt(#[trigger] b[i].key, #[trigger] b[j].key) by {
                assert(a[i].key == b[i].key && a[j].key == b[j].key);
            }
            assert forall|i: int, j: int| 0 <= i < b.len() && 0 <= j < b[i].records.len() implies record_key(
                #[trigger] b[i].records[j].record,
            ) == b[i].key && b[i].records[j].charge >= 1024 by {
                assert(record_key(a[i].records[j].record) == record_key(b[i].records[j].record));
                assert(record_key(a[i].records[j].record) == a[i].key);
            }
        }
    }
}

/// The set with key `k` at or after `i`.
pub open spec fn find_set_from(ss: Seq<SetV>, k: KeyV, i: int) -> Option<int>
    decreases ss.len() - i,
{
    if i < 0 || i >= ss.len() {
        None
    } else if ss[i].key == k {
        Some(i)
    } else {
        find_set_from(ss, k, i + 1)
    }
}

pub open spec fn find_set(ss: Seq<SetV>, k: KeyV) -> Option<int> {
    find_set_from(ss, k, 0)
}

pub proof fn lemma_find_set_from(ss: Seq<SetV>, k: KeyV, i: int)
    requires
        0 <= i,
    ensures
        find_set_from(ss, k, i) matches Some(x) ==> i <= x < ss.len() && ss[x].key == k,
        find_set_from(ss, k, i) is None ==> forall|j: int| i <= j < ss.len() ==> ss[j].key != k,
    decreases ss.len() - i,
{
    if i < ss.len() && ss[i].key != k {
        lemma_find_set_from(ss, k, i + 1);
    }
}

/// TTLs are kept to 31 bits.
pub open spec fn ttl_clamp(t: u32) -> u32 {
    if t > 0x7fff_ffff {
        0x7fff_ffff
    } else {
        t
    }
}

/// An entry that is to go within a second.
pub open spec fn shorten(e: EntryV, now: u64) -> EntryV {
    let cap = sat_add(now, 1000);
    EntryV { expires: if e.expires < cap { e.expires } else { cap }, ..e }
}

/// A goodbye (TTL zero) shortens the entries of the same record.
pub open spec fn shorten_same(rs: Seq<EntryV>, r: RecordV, now: u64) -> Seq<EntryV> {
    Seq::new(rs.len(), |j: int| if spec_same(rs[j].record, r) { shorten(rs[j], now) } else { rs[j] })
}

/// A cache-flush record shortens the entries received more than a second ago.
pub open spec fn flush_stale(rs: Seq<EntryV>, now: u64) -> Seq<EntryV> {
    Seq::new(rs.len(), |j: int| if now > rs[j].received + 1000 { shorten(rs[j], now) } else { rs[j] })
}

/// The first entry holding the same record as `r`, at or after `j`.
pub open spec fn first_same_from(rs: Seq<EntryV>, r: RecordV, j: int) -> Option<int>
    decreases rs.len() - j,
{
    if j < 0 || j >= rs.len() {
        None
    } else if spec_same(rs[j].record, r) {
        Some(j)
    } else {
        first_same_from(rs, r, j + 1)
    }
}

/// A record seen again: received now, with its new TTL and class.
pub open spec fn refresh(e: EntryV, r: RecordV, now: u64) -> EntryV {
    EntryV {
        record: RecordV { ttl: ttl_clamp(r.ttl), class: r.class, ..e.record },
        received: now,
        expires: sat_add(now, ttl_clamp(r.ttl) * 1000),
        failure: None,
        ..e
    }
}

/// The first of the least recently used sets, searching from `i` with the best so far.
pub open spec fn oldest_from(ss: Seq<SetV>, i: int, best: int) -> int
    decreases ss.len() - i,
{
    if i < 0 || i >= ss.len() {
        best
    } else if ss[i].used < ss[best].used {
        oldest_from(ss, i + 1, i)
    } else {
        oldest_from(ss, i + 1, best)
    }
}

pub open spec fn oldest(ss: Seq<SetV>) -> int {
    oldest_from(ss, 1, 0)
}

pub proof fn lemma_oldest_from(ss: Seq<SetV>, i: int, best: int)
    requires
        0 <= best < ss.len(),
        1 <= i,
    ensures
        0 <= oldest_from(ss, i, best) < ss.len(),
    decreases ss.len() - i,
{
    if i < ss.len() {
        if ss[i].used < ss[best].used {
            lemma_oldest_from(ss, i + 1, i);
        } else {
            lemma_oldest_from(ss, i + 1, best);
        }
    }
}

/// Room is needed for a new entry of `cost` octets under key `k`.
pub open spec fn must_evict(ss: Seq<SetV>, k: KeyV, cost: int) -> bool {
    sets_charge(ss) + cost > BYTES || (find_set(ss, k) is None && ss.len() == SETS)
}

/// Drops least recently used sets until there is room.
pub open spec fn evict(ss: Seq<SetV>, k: KeyV, cost: int) -> Seq<SetV>
    decreases ss.len(),
{
    if ss.len() > 0 && must_evict(ss, k, cost) {
        proof {
            lemma_oldest_from(ss, 1, 0);
        }
        evict(ss.remove(oldest(ss)), k, cost)
    } else {
        ss
    }
}

/// Where a new set with key `k` goes.
pub open spec fn set_place(ss: Seq<SetV>, k: KeyV) -> int
    decreases ss.len(),
{
    if ss.len() == 0 {
        0
    } else if key_lt(ss.last().key, k) {
        ss.len() as int
    } else {
        set_place(ss.drop_last(), k)
    }
}

pub open spec fn new_entry(r: RecordV, cost: int, now: u64) -> EntryV {
    EntryV {
        record: RecordV { ttl: ttl_clamp(r.ttl), ..r },
        received: now,
        expires: sat_add(now, ttl_clamp(r.ttl) * 1000),
        charge: cost,
        failure: None,
    }
}

/// Adds an entry to the set of key `k`, creating the set at its place if needed.
pub open spec fn add_entry(ss: Seq<SetV>, k: KeyV, e: EntryV, now: u64) -> Seq<SetV> {
    match find_set(ss, k) {
        Some(i) => ss.update(i, SetV { records: ss[i].records.push(e), used: now, ..ss[i] }),
        None => ss.insert(set_place(ss, k), SetV { key: k, records: seq![e], used: now }),
    }
}

/// What one received record does to the cache.
pub open spec fn receive_one(ss: Seq<SetV>, r: RecordV, now: u64) -> Seq<SetV> {
    if !spec_cacheable(r) {
        ss
    } else {
        let k = record_key(r);
        if r.ttl == 0 {
            match find_set(ss, k) {
                Some(i) => ss.update(i, SetV { records: shorten_same(ss[i].records, r, now), ..ss[i] }),
                None => ss,
            }
        } else {
            match spec_charge(r) {
                None => ss,
                Some(cost) => if cost > BYTES {
                    ss
                } else {
                    let ss1 = match find_set(ss, k) {
                        Some(i) => if r.class & 0x8000u16 != 0 {
                            ss.update(i, SetV { records: flush_stale(ss[i].records, now), ..ss[i] })
                        } else {
                            ss
                        },
                        None => ss,
                    };
                    let hit = match find_set(ss1, k) {
                        Some(i) => first_same_from(ss1[i].records, r, 0),
                        None => None,
                    };
                    match (find_set(ss1, k), hit) {
                        (Some(i), Some(j)) => ss1.update(
                            i,
                            SetV { records: ss1[i].records.update(j, refresh(ss1[i].records[j], r, now)), used: now, ..ss1[i] },
                        ),
                        _ => add_entry(evict(ss1, k, cost), k, new_entry(r, cost, now), now),
                    }
                },
            }
        }
    }
}

/// The records of a response, one after another.
pub open spec fn receive_all(ss: Seq<SetV>, rs: Seq<RecordV>, now: u64) -> Seq<SetV>
    decreases rs.len(),
{
    if rs.len() == 0 {
        ss
    } else {
        receive_one(receive_all(ss, rs.drop_last(), now), rs.last(), now)
    }
}

/// What receiving a message does: queries are ignored; a response of more than 512 records
/// is refused; otherwise expired entries go and each record is taken in turn.
pub open spec fn spec_cache_receive(ss: Seq<SetV>, m: MessageV, now: u64) -> (Result<(), Error>, Seq<SetV>) {
    if m.flags & 0x8000u16 == 0 {
        (Ok(()), ss)
    } else if m.answers.len() + m.authority.len() + m.additional.len() > 512 {
        (Err(Error::Invalid), ss)
    } else {
        (Ok(()), receive_all(expire_sets(ss, now), m.answers + m.authority + m.additional, now))
    }
}

pub proof fn lemma_sets_charge_concat(a: Seq<SetV>, b: Seq<SetV>)
    ensures
        sets_charge(a + b) == sets_charge(a) + sets_charge(b),
    decreases b.len(),
{
    if b.len() == 0 {
        assert(a + b =~= a);
    } else {
        assert((a + b).drop_last() =~= a + b.drop_last());
        lemma_sets_charge_concat(a, b.drop_last());
    }
}

pub proof fn lemma_sets_charge_one(s: SetV)
    ensures
        sets_charge(seq![s]) == entries_charge(s.records),
{
    assert(seq![s].drop_last() =~= Seq::<SetV>::empty());
    assert(seq![s].last() == s);
    assert(sets_charge(Seq::<SetV>::empty()) == 0);
}

pub proof fn lemma_sets_remove(ss: Seq<SetV>, i: int)
    requires
        sets_ok(ss),
        0 <= i < ss.len(),
    ensures
        sets_ok(ss.remove(i)),
        sets_charge(ss.remove(i)) + entries_charge(ss[i].records) == sets_charge(ss),
{
    let a = ss.take(i);
    let c = ss.skip(i + 1);
    assert(ss =~= a + seq![ss[i]] + c);
    assert(ss.remove(i) =~= a + c);
    lemma_sets_charge_concat(a + seq![ss[i]], c);
    lemma_sets_charge_concat(a, seq![ss[i]]);
    lemma_sets_charge_concat(a, c);
    lemma_sets_charge_one(ss[i]);
    let out = ss.remove(i);
    assert forall|x: int, y: int| 0 <= x < y < out.len() implies key_lt(#[trigger] out[x].key, #[trigger] out[y].key) by {
        let xo = if x < i { x } else { x + 1 };
        let yo = if y < i { y } else { y + 1 };
        assert(out[x] == ss[xo] && out[y] == ss[yo]);
    }
    assert forall|x: int, j: int| 0 <= x < out.len() && 0 <= j < out[x].records.len() implies record_key(
        #[trigger] out[x].records[j].record,
    ) == out[x].key && out[x].records[j].charge >= 1024 by {
        let xo = if x < i { x } else { x + 1 };
        assert(out[x] == ss[xo]);
    }
}

pub proof fn lemma_evict(ss: Seq<SetV>, k: KeyV, cost: int)
    requires
        sets_ok(ss),
        0 <= cost <= BYTES,
    ensures
        sets_ok(evict(ss, k, cost)),
        !must_evict(evict(ss, k, cost), k, cost),
        sets_charge(evict(ss, k, cost)) <= sets_charge(ss),
        evict(ss, k, cost).len() <= ss.len(),
    decreases ss.len(),
{
    if ss.len() > 0 && must_evict(ss, k, cost) {
        lemma_oldest_from(ss, 1, 0);
        let o = oldest(ss);
        lemma_sets_remove(ss, o);
        lemma_sets_charge(ss);
        assert(record_key(ss[o].records[0].record) == ss[o].key || ss[o].records.len() == 0);
        assert forall|j: int| 0 <= j < ss[o].records.len() implies (#[trigger] ss[o].records[j]).charge >= 1024 by {
            assert(record_key(ss[o].records[j].record) == ss[o].key);
        }
        lemma_entries_charge(ss[o].records);
        lemma_evict(ss.remove(o), k, cost);
    } else if ss.len() == 0 {
        assert(sets_charge(ss) == 0);
        assert(find_set(ss, k) is None);
    }
}

pub proof fn lemma_set_place(ss: Seq<SetV>, k: KeyV)
    requires
        sets_ok(ss),
    ensures
        0 <= set_place(ss, k) <= ss.len(),
        forall|i: int| 0 <= i < set_place(ss, k) ==> key_lt(#[trigger] ss[i].key, k),
        forall|i: int| set_place(ss, k) <= i < ss.len() ==> !key_lt(#[trigger] ss[i].key, k),
    decreases ss.len(),
{
    if ss.len() > 0 {
        let d = ss.drop_last();
        lemma_sets_ok_take(ss, ss.len() - 1);
        assert(d =~= ss.take(ss.len() - 1));
        lemma_set_place(d, k);
        let last = ss[ss.len() - 1];
        assert(ss.last() == last);
        if key_lt(last.key, k) {
            assert forall|i: int| 0 <= i < ss.len() implies key_lt(#[trigger] ss[i].key, k) by {
                if i < ss.len() - 1 {
                    lemma_key_lt(ss[i].key, last.key, k);
                }
            }
        } else {
            assert forall|i: int| set_place(ss, k) <= i < ss.len() implies !key_lt(#[trigger] ss[i].key, k) by {
                if i < ss.len() - 1 {
                    assert(d[i] == ss[i]);
                }
            }
            assert forall|i: int| 0 <= i < set_place(ss, k) implies key_lt(#[trigger] ss[i].key, k) by {
                assert(d[i] == ss[i]);
            }
        }
    }
}

/// Adding an entry that belongs under `k` keeps the sets ordered and charged.
pub proof fn lemma_add_entry(ss: Seq<SetV>, k: KeyV, e: EntryV, now: u64)
    requires
        sets_ok(ss),
        record_key(e.record) == k,
        e.charge >= 1024,
    ensures
        sets_ok(add_entry(ss, k, e, now)),
        sets_charge(add_entry(ss, k, e, now)) == sets_charge(ss) + e.charge,
        add_entry(ss, k, e, now).len() <= ss.len() + 1,
        find_set(ss, k) is Some ==> add_entry(ss, k, e, now).len() == ss.len(),
{
    lemma_find_set_from(ss, k, 0);
    let out = add_entry(ss, k, e, now);
    match find_set(ss, k) {
        Some(i) => {
            let ns = SetV { records: ss[i].records.push(e), used: now, ..ss[i] };
            let a = ss.take(i);
            let c = ss.skip(i + 1);
            assert(ss =~= a + seq![ss[i]] + c);
            assert(out =~= a + seq![ns] + c);
            lemma_sets_charge_concat(a + seq![ss[i]], c);
            lemma_sets_charge_concat(a, seq![ss[i]]);
            lemma_sets_charge_concat(a + seq![ns], c);
            lemma_sets_charge_concat(a, seq![ns]);
            lemma_sets_charge_one(ss[i]);
            lemma_sets_charge_one(ns);
            assert(ns.records.drop_last() =~= ss[i].records);
            assert(entries_charge(ns.records) == entries_charge(ss[i].records) + e.charge);
            assert forall|x: int, y: int| 0 <= x < y < out.len() implies key_lt(#[trigger] out[x].key, #[trigger] out[y].key) by {
                assert(out[x].key == ss[x].key && out[y].key == ss[y].key);
            }
            assert forall|x: int, j: int| 0 <= x < out.len() && 0 <= j < out[x].records.len() implies record_key(
                #[trigger] out[x].records[j].record,
            ) == out[x].key && out[x].records[j].charge >= 1024 by {
                if x != i {
                    assert(out[x] == ss[x]);
                } else if j < ss[i].records.len() {
                    assert(out[x].records[j] == ss[i].records[j]);
                }
            }
        },
        None => {
            let p = set_place(ss, k);
            lemma_set_place(ss, k);
            let ns = SetV { key: k, records: seq![e], used: now };
            let a = ss.take(p);
            let c = ss.skip(p);
            assert(ss =~= a + c);
            assert(out =~= a + seq![ns] + c);
            lemma_sets_charge_concat(a, c);
            lemma_sets_charge_concat(a + seq![ns], c);
            lemma_sets_charge_concat(a, seq![ns]);
            lemma_sets_charge_one(ns);
            assert(seq![e].drop_last() =~= Seq::<EntryV>::empty());
            assert(seq![e].last() == e);
            assert(entries_charge(Seq::<EntryV>::empty()) == 0);
            assert(entries_charge(ns.records) == e.charge);
            assert forall|x: int, y: int| 0 <= x < y < out.len() implies key_lt(#[trigger] out[x].key, #[trigger] out[y].key) by {
                if x < p && y < p {
                    assert(out[x] == ss[x] && out[y] == ss[y]);
                } else if x < p && y == p {
                    assert(out[x] == ss[x]);
                } else if x < p {
                    assert(out[x] == ss[x] && out[y] == ss[y - 1]);
                } else if x == p {
                    assert(out[y] == ss[y - 1]);
                    lemma_key_lt(ss[y - 1].key, k, k);
                } else {
                    assert(out[x] == ss[x - 1] && out[y] == ss[y - 1]);
                }
            }
            assert forall|x: int, j: int| 0 <= x < out.len() && 0 <= j < out[x].records.len() implies record_key(
                #[trigger] out[x].records[j].record,
            ) == out[x].key && out[x].records[j].charge >= 1024 by {
                if x < p {
                    assert(out[x] == ss[x]);
                } else if x > p {
                    assert(out[x] == ss[x - 1]);
                }
            }
        },
    }
}

pub proof fn lemma_find_set_same_keys(a: Seq<SetV>, b: Seq<SetV>, k: KeyV, i: int)
    requires
        a.len() == b.len(),
        forall|j: int| 0 <= j < a.len() ==> (#[trigger] a[j]).key == b[j].key,
    ensures
        find_set_from(a, k, i) == find_set_from(b, k, i),
    decreases a.len() - i,
{
    if 0 <= i < a.len() {
        lemma_find_set_from(a, k, i);
        lemma_find_set_same_keys(a, b, k, i + 1);
    }
}

/// Replacing set `i`'s entries by ones with the same record keys and charges keeps the
/// cache well formed.
pub proof fn lemma_update_entries(ss: Seq<SetV>, i: int, rs: Seq<EntryV>, used: u64)
    requires
        sets_ok(ss),
        0 <= i < ss.len(),
        rs.len() == ss[i].records.len(),
        forall|j: int| 0 <= j < rs.len() ==> record_key((#[trigger] rs[j]).record) == record_key(ss[i].records[j].record)
            && rs[j].charge == ss[i].records[j].charge,
    ensures
        sets_ok(ss.update(i, SetV { records: rs, used, ..ss[i] })),
        sets_charge(ss.update(i, SetV { records: rs, used, ..ss[i] })) == sets_charge(ss),
        forall|k: KeyV, x: int| find_set_from(ss.update(i, SetV { records: rs, used, ..ss[i] }), k, x) == find_set_from(ss, k, x),
{
    let out = ss.update(i, SetV { records: rs, used, ..ss[i] });
    assert(same_shape(ss, out)) by {
        assert forall|a: int| 0 <= a < ss.len() implies (#[trigger] ss[a]).key == out[a].key && ss[a].records.len()
            == out[a].records.len() by {}
        assert forall|a: int, j: int| 0 <= a < ss.len() && 0 <= j < ss[a].records.len() implies record_key(
            (#[trigger] ss[a].records[j]).record,
        ) == record_key(out[a].records[j].record) && ss[a].records[j].charge == out[a].records[j].charge by {
            if a == i {
                assert(out[a].records[j] == rs[j]);
            }
        }
    }
    lemma_same_shape(ss, out);
    assert forall|k: KeyV, x: int| find_set_from(out, k, x) == find_set_from(ss, k, x) by {
        assert forall|j: int| 0 <= j < out.len() implies (#[trigger] out[j]).key == ss[j].key by {}
        lemma_find_set_same_keys(out, ss, k, x);
    }
}

pub proof fn lemma_first_same_from(rs: Seq<EntryV>, r: RecordV, j: int)
    requires
        0 <= j,
    ensures
        first_same_from(rs, r, j) matches Some(x) ==> j <= x < rs.len() && spec_same(rs[x].record, r),
    decreases rs.len() - j,
{
    if j < rs.len() && !spec_same(rs[j].record, r) {
        lemma_first_same_from(rs, r, j + 1);
    }
}

/// Nothing changes when every set has entries and every entry is live.
pub open spec fn all_live(ss: Seq<SetV>, now: u64) -> bool {
    &&& forall|i: int| 0 <= i < ss.len() ==> (#[trigger] ss[i]).records.len() > 0
    &&& forall|i: int, j: int| 0 <= i < ss.len() && 0 <= j < ss[i].records.len() ==> entry_deadline(#[trigger] ss[i].records[j]) > now
}

pub proof fn lemma_keep_all(rs: Seq<EntryV>, now: u64)
    requires
        forall|j: int| 0 <= j < rs.len() ==> entry_deadline(#[trigger] rs[j]) > now,
    ensures
        keep_entries(rs, now) == rs,
    decreases rs.len(),
{
    if rs.len() > 0 {
        lemma_keep_all(rs.drop_last(), now);
        assert(rs.last() == rs[rs.len() - 1]);
        assert(rs.drop_last().push(rs.last()) =~= rs);
    }
}

pub proof fn lemma_expire_none(ss: Seq<SetV>, now: u64)
    requires
        all_live(ss, now),
    ensures
        expire_sets(ss, now) == ss,
    decreases ss.len(),
{
    if ss.len() > 0 {
        let d = ss.drop_last();
        assert(all_live(d, now)) by {
            assert forall|i: int| 0 <= i < d.len() implies (#[trigger] d[i]).records.len() > 0 by {
                assert(d[i] == ss[i]);
            }
            assert forall|i: int, j: int| 0 <= i < d.len() && 0 <= j < d[i].records.len() implies entry_deadline(
                #[trigger] d[i].records[j],
            ) > now by {
                assert(d[i] == ss[i]);
            }
        }
        lemma_expire_none(d, now);
        let last = ss[ss.len() - 1];
        assert(ss.last() == last);
        assert forall|j: int| 0 <= j < last.records.len() implies entry_deadline(#[trigger] last.records[j]) > now by {}
        lemma_keep_all(last.records, now);
        assert(SetV { records: last.records, ..last } == last);
        assert(d.push(last) =~= ss);
    }
}

pub proof fn lemma_entries_prefix(rs: Seq<EntryV>, i: int)
    requires
        0 <= i <= rs.len(),
        forall|j: int| 0 <= j < rs.len() ==> (#[trigger] rs[j]).charge >= 0,
    ensures
        entries_charge(rs.take(i)) <= entries_charge(rs),
    decreases rs.len() - i,
{
    if i < rs.len() {
        lemma_entries_prefix(rs, i + 1);
        assert(rs.take(i + 1).drop_last() =~= rs.take(i));
        assert(rs.take(i + 1).last() == rs[i]);
    } else {
        assert(rs.take(i) =~= rs);
    }
}

/// Seconds left until `deadline`, rounded up and capped to 32 bits.
pub open spec fn ttl_left(deadline: u64, now: u64) -> u32 {
    let ms = deadline - now;
    let s = (ms + 999) / 1000;
    if s > u32::MAX {
        u32::MAX
    } else {
        s as u32
    }
}

/// An entry as an answer: the class without the cache-flush bit and the time left.
pub open spec fn answer_of(e: EntryV, now: u64) -> RecordV {
    RecordV { class: e.record.class & 0x7fffu16, ttl: ttl_left(entry_deadline(e), now), ..e.record }
}

/// Whether an entry answers `q` at `now`.
pub open spec fn answers_q(e: EntryV, q: QuestionV, now: u64) -> bool {
    entry_deadline(e) > now && spec_matches(q, e.record)
}

/// The answers among entries, in order.
pub open spec fn entry_answers(rs: Seq<EntryV>, q: QuestionV, now: u64) -> Seq<RecordV>
    decreases rs.len(),
{
    if rs.len() == 0 {
        Seq::empty()
    } else {
        let sub = entry_answers(rs.drop_last(), q, now);
        if answers_q(rs.last(), q, now) {
            sub.push(answer_of(rs.last(), now))
        } else {
            sub
        }
    }
}

/// The answers of all sets, in key order.
pub open spec fn sets_answers(ss: Seq<SetV>, q: QuestionV, now: u64) -> Seq<RecordV>
    decreases ss.len(),
{
    if ss.len() == 0 {
        Seq::empty()
    } else {
        sets_answers(ss.drop_last(), q, now) + entry_answers(ss.last().records, q, now)
    }
}

/// Sets that answered are marked used at `now`.
pub open spec fn touch(ss: Seq<SetV>, q: QuestionV, now: u64) -> Seq<SetV> {
    Seq::new(
        ss.len(),
        |i: int|
            if entry_answers(ss[i].records, q, now).len() > 0 {
                SetV { used: now, ..ss[i] }
            } else {
                ss[i]
            },
    )
}

/// Whether a live NSEC record for the question's owner denies its type (and CNAME).
pub open spec fn denies(e: EntryV, q: QuestionV, now: u64) -> bool {
    &&& entry_deadline(e) > now
    &&& same_name(e.record.name, q.name)
    &&& e.record.class & 0x7fffu16 == q.class & 0x7fffu16
    &&& e.record.data matches RdataV::Nsec { next, bitmap } && same_name(next, q.name) && !spec_bitmap_has(bitmap, q.kind)
        && !spec_bitmap_has(bitmap, 5)
}

pub open spec fn spec_negative(ss: Seq<SetV>, q: QuestionV, now: u64) -> bool {
    q.kind != 255 && exists|i: int, j: int| 0 <= i < ss.len() && 0 <= j < ss[i].records.len() && #[trigger] denies(ss[i].records[j], q, now)
}

fn seconds_left(deadline: u64, now: u64) -> (r: u32)
    requires
        deadline > now,
    ensures
        r == ttl_left(deadline, now),
{
    let ms = deadline - now;
    let s = ms / 1000 + if ms % 1000 != 0 { 1 } else { 0 };
    assert(s == (ms + 999) / 1000) by (nonlinear_arith)
        requires
            s == ms / 1000 + if ms % 1000 != 0 { 1int } else { 0int },
            ms >= 0,
    ;
    if s > 0xffff_ffffu64 {
        0xffff_ffffu32
    } else {
        s as u32
    }
}

impl Cache {
    /// The live records that answer `q`, with the class without the cache-flush bit and the
    /// seconds left; the sets that answered count as used now.
    pub fn answers(&mut self, q: &Question, now: u64) -> (r: Vec<Record>)
        requires
            old(self).wf(),
        ensures
            final(self).wf(),
            final(self)@ == touch(old(self)@, q@, now),
            crate::dns::wire::records_view(r@) == sets_answers(old(self)@, q@, now),
    {
        let ghost orig = self@;
        let mut out: Vec<Record> = Vec::new();
        let mut i: usize = 0;
        assert(crate::dns::wire::records_view(out@) =~= Seq::<RecordV>::empty());
        while i < self.sets.len()
            invariant
                i <= self.sets@.len(),
                self.sets@.len() == orig.len(),
                forall|k: int| 0 <= k < i ==> #[trigger] self@[k] == touch(orig, q@, now)[k],
                forall|k: int| i <= k < orig.len() ==> #[trigger] self@[k] == orig[k],
                crate::dns::wire::records_view(out@) == sets_answers(orig.take(i as int), q@, now),
                self.bytes == old(self).bytes,
            decreases self.sets@.len() - i,
        {
            let ghost rv = entries_view(self.sets@[i as int].records@);
            assert(self@[i as int] == set_view(self.sets@[i as int]));
            assert(rv == orig[i as int].records);
            let ghost out0 = crate::dns::wire::records_view(out@);
            let mut found = false;
            let mut j: usize = 0;
            while j < self.sets[i].records.len()
                invariant
                    i < self.sets@.len(),
                    j <= self.sets@[i as int].records@.len(),
                    rv == entries_view(self.sets@[i as int].records@),
                    crate::dns::wire::records_view(out@) == out0 + entry_answers(rv.take(j as int), q@, now),
                    found == (entry_answers(rv.take(j as int), q@, now).len() > 0),
                decreases self.sets@[i as int].records@.len() - j,
            {
                let e = &self.sets[i].records[j];
                assert(rv.take(j + 1).drop_last() =~= rv.take(j as int));
                assert(rv.take(j + 1).last() == entry_view(*e));
                let d = deadline_of(e);
                if d > now && crate::mdns::cache::matches(q, &e.record) {
                    let mut a = e.record.clone();
                    a.class = a.class & 0x7fff;
                    a.ttl = seconds_left(d, now);
                    let ghost before = crate::dns::wire::records_view(out@);
                    out.push(a);
                    assert(a@ == answer_of(entry_view(*e), now));
                    assert(crate::dns::wire::records_view(out@) =~= before.push(a@));
                    found = true;
                }
                j = j + 1;
            }
            assert(rv.take(rv.len() as int) =~= rv);
            assert(orig.take(i + 1).drop_last() =~= orig.take(i as int));
            assert(orig.take(i + 1).last() == orig[i as int]);
            let ghost before = self.sets@;
            let ghost vb = self@;
            if found {
                self.sets[i].used = now;
            }
            assert(self@[i as int] == set_view(self.sets@[i as int]));
            assert(self@[i as int] == touch(orig, q@, now)[i as int]);
            assert forall|k: int| 0 <= k < self.sets@.len() && k != i implies #[trigger] self@[k] == vb[k] by {
                assert(self.sets@[k] == before[k]);
                assert(self@[k] == set_view(self.sets@[k]));
                assert(vb[k] == set_view(before[k]));
            }
            i = i + 1;
        }
        assert(orig.take(orig.len() as int) =~= orig);
        assert(self@ =~= touch(orig, q@, now));
        proof {
            assert(same_shape(orig, self@));
            lemma_same_shape(orig, self@);
        }
        out
    }
}

/// A known answer in the question that covers at least half the record's TTL.
pub open spec fn known_fresh(known: Seq<RecordV>, rec: RecordV) -> bool {
    exists|i: int| 0 <= i < known.len() && spec_same(#[trigger] known[i], rec) && known[i].ttl >= (rec.ttl + 1) / 2
}

/// A query that a live matching entry was not seen answered in: the first starts a failure
/// record, and each later one at least a second after the last counts.
pub open spec fn observe_entry(e: EntryV, q: QuestionV, known: Seq<RecordV>, now: u64) -> EntryV {
    if entry_deadline(e) <= now || !spec_matches(q, e.record) || known_fresh(known, e.record) {
        e
    } else {
        match e.failure {
            None => EntryV { failure: Some((now, now, 1u8)), ..e },
            Some(f) => if now >= f.1 && now - f.1 >= 1000 {
                EntryV { failure: Some((f.0, now, if f.2 == 255 { 255u8 } else { (f.2 + 1) as u8 })), ..e }
            } else {
                e
            },
        }
    }
}

pub open spec fn spec_observe(ss: Seq<SetV>, q: QuestionV, known: Seq<RecordV>, now: u64) -> Seq<SetV> {
    if q.class & 0x8000u16 != 0 {
        ss
    } else {
        Seq::new(
            ss.len(),
            |i: int|
                SetV {
                    records: Seq::new(ss[i].records.len(), |j: int| observe_entry(ss[i].records[j], q, known, now)),
                    ..ss[i]
                },
        )
    }
}

fn fresh_in(known: &[Record], rec: &Record) -> (r: bool)
    ensures
        r == known_fresh(crate::dns::wire::records_view(known@), rec@),
{
    let ghost kv = crate::dns::wire::records_view(known@);
    let half = rec.ttl / 2 + rec.ttl % 2;
    assert(half == (rec.ttl + 1) / 2);
    let mut i: usize = 0;
    while i < known.len()
        invariant
            i <= known@.len(),
            kv == crate::dns::wire::records_view(known@),
            half == (rec.ttl + 1) / 2,
            forall|k: int| 0 <= k < i ==> !(spec_same(#[trigger] kv[k], rec@) && kv[k].ttl >= (rec@.ttl + 1) / 2),
        decreases known@.len() - i,
    {
        assert(kv[i as int] == known@[i as int]@);
        if same(&known[i], rec) && known[i].ttl >= half {
            return true;
        }
        i = i + 1;
    }
    false
}

impl Cache {
    /// Whether a live NSEC record for the question's name denies its type, so the question
    /// has no answer (never for ANY).
    pub fn negative(&self, q: &Question, now: u64) -> (r: bool)
        ensures
            r == spec_negative(self@, q@, now),
    {
        if q.kind == 255 {
            return false;
        }
        let ghost ss = self@;
        let mut i: usize = 0;
        while i < self.sets.len()
            invariant
                i <= self.sets@.len(),
                ss == sets_view(self.sets@),
                q.kind != 255,
                forall|k: int, j: int| 0 <= k < i && 0 <= j < ss[k].records.len() ==> !#[trigger] denies(ss[k].records[j], q@, now),
            decreases self.sets@.len() - i,
        {
            let rs = &self.sets[i].records;
            assert(ss[i as int].records == entries_view(rs@));
            let mut j: usize = 0;
            while j < rs.len()
                invariant
                    i < ss.len(),
                    ss == self@,
                    q.kind != 255,
                    j <= rs@.len(),
                    ss[i as int].records == entries_view(rs@),
                    forall|x: int| 0 <= x < j ==> !#[trigger] denies(ss[i as int].records[x], q@, now),
                decreases rs@.len() - j,
            {
                let e = &rs[j];
                assert(ss[i as int].records[j as int] == entry_view(*e));
                if deadline_of(e) > now && e.record.name.eq(&q.name) && e.record.class & 0x7fff == q.class & 0x7fff {
                    match &e.record.data {
                        Rdata::Nsec { next, bitmap } => {
                            if next.eq(&q.name) && !bitmap_has(bitmap.as_slice(), q.kind) && !bitmap_has(bitmap.as_slice(), 5) {
                                assert(denies(ss[i as int].records[j as int], q@, now));
                                return true;
                            }
                        },
                        _ => {},
                    }
                }
                j = j + 1;
            }
            i = i + 1;
        }
        false
    }

    /// Notes a multicast question that live matching entries were not seen answered in.
    pub fn observe_question(&mut self, q: &Question, known: &[Record], now: u64)
        requires
            old(self).wf(),
        ensures
            final(self).wf(),
            final(self)@ == spec_observe(old(self)@, q@, crate::dns::wire::records_view(known@), now),
    {
        let ghost orig = self@;
        let ghost kv = crate::dns::wire::records_view(known@);
        if q.class & 0x8000 != 0 {
            return;
        }
        let ghost goal = spec_observe(orig, q@, kv, now);
        let mut i: usize = 0;
        while i < self.sets.len()
            invariant
                i <= self.sets@.len(),
                self.sets@.len() == orig.len(),
                goal == spec_observe(orig, q@, kv, now),
                q.class & 0x8000 == 0,
                kv == crate::dns::wire::records_view(known@),
                forall|k: int| 0 <= k < i ==> #[trigger] self@[k] == goal[k],
                forall|k: int| i <= k < orig.len() ==> #[trigger] self@[k] == orig[k],
                self.bytes == old(self).bytes,
            decreases self.sets@.len() - i,
        {
            assert(self@[i as int] == set_view(self.sets@[i as int]));
            let ghost vb = self@;
            let ghost sb = self.sets@;
            let ghost rv = orig[i as int].records;
            let n = self.sets[i].records.len();
            let mut j: usize = 0;
            while j < n
                invariant
                    i < self.sets@.len(),
                    n == self.sets@[i as int].records@.len(),
                    n == rv.len(),
                    j <= n,
                    self.sets@.len() == sb.len(),
                    forall|k: int| 0 <= k < sb.len() && k != i ==> #[trigger] self.sets@[k] == sb[k],
                    (self.sets@[i as int].name, self.sets@[i as int].kind, self.sets@[i as int].class, self.sets@[i as int].used)
                        == (sb[i as int].name, sb[i as int].kind, sb[i as int].class, sb[i as int].used),
                    forall|x: int| 0 <= x < j ==> #[trigger] entry_view(self.sets@[i as int].records@[x]) == observe_entry(rv[x], q@, kv, now),
                    forall|x: int| j <= x < n ==> #[trigger] entry_view(self.sets@[i as int].records@[x]) == rv[x],
                    kv == crate::dns::wire::records_view(known@),
                    self.bytes == old(self).bytes,
                decreases n - j,
            {
                let ghost ib = self.sets@[i as int].records@;
                let e = &self.sets[i].records[j];
                let live = deadline_of(e) > now;
                let skip = !live || !crate::mdns::cache::matches(q, &e.record) || fresh_in(known, &e.record);
                if !skip {
                    let nf = match e.failure {
                        None => Some((now, now, 1u8)),
                        Some(f) => if now >= f.1 && now - f.1 >= 1000 {
                            Some((f.0, now, f.2.saturating_add(1)))
                        } else {
                            Some(f)
                        },
                    };
                    self.sets[i].records[j].failure = nf;
                }
                assert(forall|x: int| 0 <= x < n && x != j ==> #[trigger] self.sets@[i as int].records@[x] == ib[x]);
                j = j + 1;
            }
            proof {
                let a = self.sets@[i as int];
                assert(set_view(a).records =~= goal[i as int].records);
                assert(self@[i as int] == set_view(a));
                assert forall|k: int| 0 <= k < self.sets@.len() && k != i implies #[trigger] self@[k] == vb[k] by {
                    assert(self@[k] == set_view(self.sets@[k]));
                    assert(vb[k] == set_view(sb[k]));
                }
            }
            i = i + 1;
        }
        assert(self@ =~= goal);
        proof {
            assert(same_shape(orig, self@));
            lemma_same_shape(orig, self@);
        }
    }
}

pub(crate) fn bytes_less(a: &[u8], b: &[u8]) -> (r: bool)
    ensures
        r == bytes_lt(a@, b@),
{
    let mut i: usize = 0;
    assert(a@.skip(0) =~= a@ && b@.skip(0) =~= b@);
    loop
        invariant
            i <= a@.len(),
            i <= b@.len(),
            bytes_lt(a@, b@) == bytes_lt(a@.skip(i as int), b@.skip(i as int)),
        decreases a@.len() - i,
    {
        let ghost (sa, sb) = (a@.skip(i as int), b@.skip(i as int));
        if i == a.len() {
            return i < b.len();
        }
        if i == b.len() {
            return false;
        }
        assert(sa[0] == a@[i as int] && sb[0] == b@[i as int]);
        if a[i] != b[i] {
            return a[i] < b[i];
        }
        assert(sa.drop_first() =~= a@.skip(i + 1));
        assert(sb.drop_first() =~= b@.skip(i + 1));
        i = i + 1;
    }
}

fn key_less(s: &RecordSet, name: &[u8], kind: u16, class: u16) -> (r: bool)
    ensures
        r == key_lt(set_view(*s).key, (name@, kind, class)),
{
    if bytes_less(s.name.as_slice(), name) {
        return true;
    }
    if !super::same_bytes(s.name.as_slice(), name) {
        return false;
    }
    s.kind < kind || (s.kind == kind && s.class < class)
}

fn key_is(s: &RecordSet, name: &[u8], kind: u16, class: u16) -> (r: bool)
    ensures
        r == (set_view(*s).key == (name@, kind, class)),
{
    super::same_bytes(s.name.as_slice(), name) && s.kind == kind && s.class == class
}

impl Cache {
    fn find_set_exec(&self, name: &[u8], kind: u16, class: u16) -> (r: Option<usize>)
        ensures
            match find_set(self@, (name@, kind, class)) {
                None => r is None,
                Some(i) => r == Some(i as usize),
            },
    {
        let ghost k = (name@, kind, class);
        let mut i: usize = 0;
        while i < self.sets.len()
            invariant
                i <= self.sets@.len(),
                k == (name@, kind, class),
                find_set(self@, k) == find_set_from(self@, k, i as int),
            decreases self.sets@.len() - i,
        {
            assert(self@[i as int] == set_view(self.sets@[i as int]));
            let hit = key_is(&self.sets[i], name, kind, class);
            assert(hit == (self@[i as int].key == k));
            if hit {
                assert(find_set_from(self@, k, i as int) == Some(i as int));
                return Some(i);
            }
            assert(find_set_from(self@, k, i as int) == find_set_from(self@, k, i + 1));
            i = i + 1;
        }
        None
    }

    fn oldest_exec(&self) -> (r: usize)
        requires
            self@.len() > 0,
        ensures
            r == oldest(self@),
            r < self@.len(),
    {
        let mut best: usize = 0;
        let mut i: usize = 1;
        proof {
            lemma_oldest_from(self@, 1, 0);
        }
        while i < self.sets.len()
            invariant
                1 <= i <= self.sets@.len(),
                best < i,
                oldest(self@) == oldest_from(self@, i as int, best as int),
            decreases self.sets@.len() - i,
        {
            assert(self@[i as int] == set_view(self.sets@[i as int]));
            assert(self@[best as int] == set_view(self.sets@[best as int]));
            if self.sets[i].used < self.sets[best].used {
                best = i;
            }
            i = i + 1;
        }
        best
    }

    fn place_exec(&self, name: &[u8], kind: u16, class: u16) -> (r: usize)
        ensures
            r == set_place(self@, (name@, kind, class)),
            r <= self@.len(),
    {
        let ghost k = (name@, kind, class);
        let ghost ss = self@;
        let mut p: usize = self.sets.len();
        assert(ss.take(p as int) =~= ss);
        loop
            invariant
                p <= self.sets@.len(),
                ss == self@,
                k == (name@, kind, class),
                set_place(ss, k) == set_place(ss.take(p as int), k),
            decreases p,
        {
            if p == 0 {
                return 0;
            }
            assert(ss.take(p as int).last() == ss[p - 1]);
            assert(ss[p - 1] == set_view(self.sets@[p - 1]));
            if key_less(&self.sets[p - 1], name, kind, class) {
                return p;
            }
            assert(ss.take(p as int).drop_last() =~= ss.take(p - 1));
            p = p - 1;
        }
    }

    /// Removes a set and its charge.
    fn remove_set(&mut self, i: usize)
        requires
            old(self).wf(),
            i < old(self)@.len(),
        ensures
            final(self).wf(),
            final(self)@ == old(self)@.remove(i as int),
    {
        let ghost ss = self@;
        proof {
            lemma_sets_remove(ss, i as int);
            lemma_sets_ok_take(ss.remove(i as int), 0);
            lemma_sets_charge(ss.remove(i as int));
        }
        let ghost vr = ss.remove(i as int);
        let old_set = self.sets.remove(i);
        assert(self@ =~= vr);
        let rs = &old_set.records;
        let ghost ev = entries_view(rs@);
        assert(ev == ss[i as int].records);
        let mut sum: usize = 0;
        let mut j: usize = 0;
        proof {
            assert forall|x: int| 0 <= x < ev.len() implies (#[trigger] ev[x]).charge >= 0 by {
                assert(record_key(ss[i as int].records[x].record) == ss[i as int].key);
            }
        }
        while j < rs.len()
            invariant
                j <= rs@.len(),
                ev == entries_view(rs@),
                forall|x: int| 0 <= x < ev.len() ==> (#[trigger] ev[x]).charge >= 0,
                entries_charge(ev) <= self.bytes,
                sum == entries_charge(ev.take(j as int)),
            decreases rs@.len() - j,
        {
            proof {
                lemma_entries_prefix(ev, j + 1);
                assert(ev.take(j + 1).drop_last() =~= ev.take(j as int));
                assert(ev.take(j + 1).last() == ev[j as int]);
            }
            sum = sum + rs[j].charge;
            j = j + 1;
        }
        assert(ev.take(ev.len() as int) =~= ev);
        self.bytes = self.bytes - sum;
    }
}

impl Cache {
    fn shorten_same_exec(&mut self, i: usize, r: &Record, now: u64)
        requires
            old(self).wf(),
            i < old(self)@.len(),
        ensures
            final(self).wf(),
            final(self)@ == old(self)@.update(
                i as int,
                SetV { records: shorten_same(old(self)@[i as int].records, r@, now), ..old(self)@[i as int] },
            ),
    {
        let ghost ss = self@;
        let ghost sb = self.sets@;
        assert(ss[i as int] == set_view(sb[i as int]));
        let ghost rv = ss[i as int].records;
        let ghost goal = shorten_same(rv, r@, now);
        let n = self.sets[i].records.len();
        let cap = now.saturating_add(1000);
        let mut j: usize = 0;
        while j < n
            invariant
                i < self.sets@.len(),
                self.sets@.len() == sb.len(),
                n == rv.len(),
                n == self.sets@[i as int].records@.len(),
                j <= n,
                cap == sat_add(now, 1000),
                goal == shorten_same(rv, r@, now),
                forall|k: int| 0 <= k < sb.len() && k != i ==> #[trigger] self.sets@[k] == sb[k],
                (self.sets@[i as int].name, self.sets@[i as int].kind, self.sets@[i as int].class, self.sets@[i as int].used)
                    == (sb[i as int].name, sb[i as int].kind, sb[i as int].class, sb[i as int].used),
                forall|x: int| 0 <= x < j ==> #[trigger] entry_view(self.sets@[i as int].records@[x]) == goal[x],
                forall|x: int| j <= x < n ==> #[trigger] entry_view(self.sets@[i as int].records@[x]) == rv[x],
                self.bytes == old(self).bytes,
            decreases n - j,
        {
            let ghost ib = self.sets@[i as int].records@;
            assert(entry_view(ib[j as int]) == rv[j as int]);
            if same(&self.sets[i].records[j].record, r) {
                let e = self.sets[i].records[j].expires;
                self.sets[i].records[j].expires = if e < cap { e } else { cap };
            }
            assert(forall|x: int| 0 <= x < n && x != j ==> #[trigger] self.sets@[i as int].records@[x] == ib[x]);
            j = j + 1;
        }
        proof {
            assert(set_view(self.sets@[i as int]).records =~= goal);
            assert forall|k: int| 0 <= k < goal.len() implies record_key((#[trigger] goal[k]).record) == record_key(
                rv[k].record,
            ) && goal[k].charge == rv[k].charge by {}
            lemma_update_entries(ss, i as int, goal, ss[i as int].used);
            assert(self@ =~= ss.update(i as int, SetV { records: goal, ..ss[i as int] })) by {
                assert forall|k: int| 0 <= k < self@.len() implies #[trigger] self@[k] == ss.update(
                    i as int,
                    SetV { records: goal, ..ss[i as int] },
                )[k] by {
                    assert(self@[k] == set_view(self.sets@[k]));
                    assert(ss[k] == set_view(sb[k]));
                }
            }
        }
    }

    fn flush_stale_exec(&mut self, i: usize, now: u64)
        requires
            old(self).wf(),
            i < old(self)@.len(),
        ensures
            final(self).wf(),
            final(self)@ == old(self)@.update(
                i as int,
                SetV { records: flush_stale(old(self)@[i as int].records, now), ..old(self)@[i as int] },
            ),
    {
        let ghost ss = self@;
        let ghost sb = self.sets@;
        assert(ss[i as int] == set_view(sb[i as int]));
        let ghost rv = ss[i as int].records;
        let ghost goal = flush_stale(rv, now);
        let n = self.sets[i].records.len();
        let cap = now.saturating_add(1000);
        let mut j: usize = 0;
        while j < n
            invariant
                i < self.sets@.len(),
                self.sets@.len() == sb.len(),
                n == rv.len(),
                n == self.sets@[i as int].records@.len(),
                j <= n,
                cap == sat_add(now, 1000),
                goal == flush_stale(rv, now),
                forall|k: int| 0 <= k < sb.len() && k != i ==> #[trigger] self.sets@[k] == sb[k],
                (self.sets@[i as int].name, self.sets@[i as int].kind, self.sets@[i as int].class, self.sets@[i as int].used)
                    == (sb[i as int].name, sb[i as int].kind, sb[i as int].class, sb[i as int].used),
                forall|x: int| 0 <= x < j ==> #[trigger] entry_view(self.sets@[i as int].records@[x]) == goal[x],
                forall|x: int| j <= x < n ==> #[trigger] entry_view(self.sets@[i as int].records@[x]) == rv[x],
                self.bytes == old(self).bytes,
            decreases n - j,
        {
            let ghost ib = self.sets@[i as int].records@;
            assert(entry_view(ib[j as int]) == rv[j as int]);
            let received = self.sets[i].records[j].received;
            if now.saturating_sub(received) > 1000 {
                let e = self.sets[i].records[j].expires;
                self.sets[i].records[j].expires = if e < cap { e } else { cap };
            }
            assert(forall|x: int| 0 <= x < n && x != j ==> #[trigger] self.sets@[i as int].records@[x] == ib[x]);
            j = j + 1;
        }
        proof {
            assert(set_view(self.sets@[i as int]).records =~= goal);
            assert forall|k: int| 0 <= k < goal.len() implies record_key((#[trigger] goal[k]).record) == record_key(
                rv[k].record,
            ) && goal[k].charge == rv[k].charge by {}
            lemma_update_entries(ss, i as int, goal, ss[i as int].used);
            assert(self@ =~= ss.update(i as int, SetV { records: goal, ..ss[i as int] })) by {
                assert forall|k: int| 0 <= k < self@.len() implies #[trigger] self@[k] == ss.update(
                    i as int,
                    SetV { records: goal, ..ss[i as int] },
                )[k] by {
                    assert(self@[k] == set_view(self.sets@[k]));
                    assert(ss[k] == set_view(sb[k]));
                }
            }
        }
    }

    fn first_same_exec(&self, i: usize, r: &Record) -> (res: Option<usize>)
        requires
            i < self@.len(),
        ensures
            res is None <==> first_same_from(self@[i as int].records, r@, 0) is None,
            res matches Some(j) ==> first_same_from(self@[i as int].records, r@, 0) == Some(j as int) && j
                < self@[i as int].records.len(),
    {
        let ghost rv = self@[i as int].records;
        assert(self@[i as int] == set_view(self.sets@[i as int]));
        let rs = &self.sets[i].records;
        let mut j: usize = 0;
        while j < rs.len()
            invariant
                j <= rs@.len(),
                i < self@.len(),
                rv == self@[i as int].records,
                rv == entries_view(rs@),
                first_same_from(rv, r@, 0) == first_same_from(rv, r@, j as int),
            decreases rs@.len() - j,
        {
            assert(rv[j as int] == entry_view(rs@[j as int]));
            if same(&rs[j].record, r) {
                return Some(j);
            }
            j = j + 1;
        }
        None
    }

    fn refresh_exec(&mut self, i: usize, j: usize, r: &Record, now: u64)
        requires
            old(self).wf(),
            i < old(self)@.len(),
            j < old(self)@[i as int].records.len(),
            spec_same(old(self)@[i as int].records[j as int].record, r@),
        ensures
            final(self).wf(),
            final(self)@ == old(self)@.update(
                i as int,
                SetV {
                    records: old(self)@[i as int].records.update(
                        j as int,
                        refresh(old(self)@[i as int].records[j as int], r@, now),
                    ),
                    used: now,
                    ..old(self)@[i as int]
                },
            ),
    {
        let ghost ss = self@;
        let ghost sb = self.sets@;
        assert(ss[i as int] == set_view(sb[i as int]));
        let ghost rv = ss[i as int].records;
        let ttl = if r.ttl > 0x7fff_ffff { 0x7fff_ffffu32 } else { r.ttl };
        self.sets[i].records[j].received = now;
        self.sets[i].records[j].expires = now.saturating_add((ttl as u64) * 1000);
        self.sets[i].records[j].record.ttl = ttl;
        self.sets[i].records[j].record.class = r.class;
        self.sets[i].records[j].failure = None;
        self.sets[i].used = now;
        proof {
            let goal = rv.update(j as int, refresh(rv[j as int], r@, now));
            assert(set_view(self.sets@[i as int]).records =~= goal) by {
                assert forall|x: int| 0 <= x < goal.len() implies #[trigger] set_view(self.sets@[i as int]).records[x]
                    == goal[x] by {
                    assert(set_view(self.sets@[i as int]).records[x] == entry_view(self.sets@[i as int].records@[x]));
                    assert(rv[x] == entry_view(sb[i as int].records@[x]));
                }
            }
            assert forall|k: int| 0 <= k < goal.len() implies record_key((#[trigger] goal[k]).record) == record_key(
                rv[k].record,
            ) && goal[k].charge == rv[k].charge by {}
            lemma_update_entries(ss, i as int, goal, now);
            assert(self@ =~= ss.update(i as int, SetV { records: goal, used: now, ..ss[i as int] })) by {
                assert forall|k: int| 0 <= k < self@.len() implies #[trigger] self@[k] == ss.update(
                    i as int,
                    SetV { records: goal, used: now, ..ss[i as int] },
                )[k] by {
                    assert(self@[k] == set_view(self.sets@[k]));
                    assert(ss[k] == set_view(sb[k]));
                }
            }
        }
    }
}

impl Cache {
    /// Takes one record of a response.
    #[verifier::rlimit(80)]
    fn receive_record(&mut self, r: &Record, now: u64)
        requires
            old(self).wf(),
        ensures
            final(self).wf(),
            final(self)@ == receive_one(old(self)@, r@, now),
    {
        let ghost ss = self@;
        if !cacheable(r) {
            return;
        }
        let name = r.name.canonical();
        let kind = r.kind;
        let class = r.class & 0x7fff;
        let ghost k = (name@, kind, class);
        assert(k == record_key(r@));
        let found = self.find_set_exec(name, kind, class);
        proof {
            lemma_find_set_from(ss, k, 0);
        }
        if r.ttl == 0 {
            if let Some(i) = found {
                self.shorten_same_exec(i, r, now);
            }
            return;
        }
        let cost = match charge(r) {
            Some(c) => c,
            None => return,
        };
        if cost > BYTES {
            return;
        }
        if let Some(i) = found {
            if r.class & 0x8000 != 0 {
                self.flush_stale_exec(i, now);
            }
            let ghost ss1 = self@;
            proof {
                assert forall|j: int| 0 <= j < ss1.len() implies (#[trigger] ss1[j]).key == ss[j].key by {}
                lemma_find_set_same_keys(ss1, ss, k, 0);
                lemma_first_same_from(ss1[i as int].records, r@, 0);
            }
            if let Some(j) = self.first_same_exec(i, r) {
                assert(first_same_from(ss1[i as int].records, r@, 0) == Some(j as int));
                self.refresh_exec(i, j, r, now);
                return;
            }
        }
        let ghost ss1 = self@;
        assert(ss1 == match find_set(ss, k) {
            Some(i) => if r.class & 0x8000u16 != 0 {
                ss.update(i, SetV { records: flush_stale(ss[i].records, now), ..ss[i] })
            } else {
                ss
            },
            None => ss,
        });
        loop
            invariant
                self.wf(),
                cost <= BYTES,
                k == (name@, kind, class),
                evict(ss1, k, cost as int) == evict(self@, k, cost as int),
            ensures
                self.wf(),
                evict(ss1, k, cost as int) == self@,
                !must_evict(self@, k, cost as int),
            decreases self@.len(),
        {
            let absent = self.find_set_exec(name, kind, class).is_none();
            if !(self.bytes + cost > BYTES || (absent && self.sets.len() == SETS)) || self.sets.len() == 0 {
                proof {
                    if self@.len() == 0 {
                        assert(sets_charge(self@) == 0);
                        assert(find_set(self@, k) is None);
                    }
                }
                break;
            }
            let o = self.oldest_exec();
            self.remove_set(o);
        }
        let ghost se = self@;
        proof {
            lemma_sets_charge(se);
        }
        let ttl = if r.ttl > 0x7fff_ffff { 0x7fff_ffffu32 } else { r.ttl };
        let mut rec = r.clone();
        rec.ttl = ttl;
        let e = Entry { record: rec, received: now, expires: now.saturating_add((ttl as u64) * 1000), charge: cost, failure: None };
        let ghost ev = entry_view(e);
        assert(ev == new_entry(r@, cost as int, now));
        proof {
            lemma_add_entry(se, k, ev, now);
            lemma_find_set_from(se, k, 0);
        }
        match self.find_set_exec(name, kind, class) {
            Some(i) => {
                let ghost sb = self.sets@;
                assert(se[i as int] == set_view(sb[i as int]));
                self.sets[i].records.push(e);
                self.sets[i].used = now;
                proof {
                    let ns = SetV { records: se[i as int].records.push(ev), used: now, ..se[i as int] };
                    assert(set_view(self.sets@[i as int]).records =~= ns.records);
                    assert(self@ =~= se.update(i as int, ns)) by {
                        assert forall|x: int| 0 <= x < self@.len() implies #[trigger] self@[x] == se.update(i as int, ns)[x] by {
                            assert(self@[x] == set_view(self.sets@[x]));
                            assert(se[x] == set_view(sb[x]));
                        }
                    }
                }
            },
            None => {
                let p = self.place_exec(name, kind, class);
                let mut rs: Vec<Entry> = Vec::new();
                rs.push(e);
                let copy = crate::bytes::copy_range(name, 0, name.len());
                assert(name@.subrange(0, name@.len() as int) =~= name@);
                let set = RecordSet { name: copy, kind, class, records: rs, used: now };
                let ghost sb = self.sets@;
                self.sets.insert(p, set);
                proof {
                    let ns = SetV { key: k, records: seq![ev], used: now };
                    assert(set_view(set).records =~= seq![ev]);
                    assert(set_view(set) == ns);
                    assert(self@ =~= se.insert(p as int, ns)) by {
                        assert forall|x: int| 0 <= x < self@.len() implies #[trigger] self@[x] == se.insert(p as int, ns)[x] by {
                            assert(self@[x] == set_view(self.sets@[x]));
                            if x < p {
                                assert(se[x] == set_view(sb[x]));
                            } else if x > p {
                                assert(se[x - 1] == set_view(sb[x - 1]));
                            }
                        }
                    }
                }
            },
        }
        self.bytes = self.bytes + cost;
    }
}

impl Cache {
    /// Takes the records of a response, one after another, in a loop over one section.
    fn receive_section(&mut self, rs: &Vec<Record>, now: u64, Ghost(start): Ghost<Seq<SetV>>, Ghost(before): Ghost<Seq<RecordV>>)
        requires
            old(self).wf(),
            old(self)@ == receive_all(start, before, now),
        ensures
            final(self).wf(),
            final(self)@ == receive_all(start, before + crate::dns::wire::records_view(rs@), now),
    {
        let ghost rv = crate::dns::wire::records_view(rs@);
        let mut i: usize = 0;
        assert(before + rv.take(0) =~= before);
        while i < rs.len()
            invariant
                i <= rs@.len(),
                rv == crate::dns::wire::records_view(rs@),
                self.wf(),
                self@ == receive_all(start, before + rv.take(i as int), now),
            decreases rs@.len() - i,
        {
            self.receive_record(&rs[i], now);
            assert((before + rv.take(i + 1)).drop_last() =~= before + rv.take(i as int));
            assert((before + rv.take(i + 1)).last() == rs@[i as int]@);
            i = i + 1;
        }
        assert(rv.take(rv.len() as int) =~= rv);
    }

    /// Learns the records of an mDNS response received at `now`: expired entries go first;
    /// goodbyes shorten, cache-flush records age out older entries of their set, known
    /// records are refreshed and new ones added, evicting the least recently used sets to
    /// stay within the limits. Queries change nothing; a response of more than 512 records
    /// is refused.
    pub fn receive<R: crate::time::RandomSource>(&mut self, message: &Message, now: u64, _rng: &mut R) -> (r: Result<(), Error>)
        requires
            old(self).wf(),
        ensures
            final(self).wf(),
            final(self)@ == spec_cache_receive(old(self)@, message@, now).1,
            r == spec_cache_receive(old(self)@, message@, now).0,
    {
        if message.flags & 0x8000 == 0 {
            return Ok(());
        }
        let (a, b, c) = (message.answers.len(), message.authority.len(), message.additional.len());
        if a > 512 || b > 512 || c > 512 || a + b + c > 512 {
            return Err(Error::Invalid);
        }
        self.expire(now);
        let ghost start = self@;
        let ghost m = message@;
        assert(start == receive_all(start, Seq::<RecordV>::empty(), now));
        self.receive_section(&message.answers, now, Ghost(start), Ghost(Seq::<RecordV>::empty()));
        assert(Seq::<RecordV>::empty() + m.answers =~= m.answers);
        self.receive_section(&message.authority, now, Ghost(start), Ghost(m.answers));
        self.receive_section(&message.additional, now, Ghost(start), Ghost(m.answers + m.authority));
        Ok(())
    }
}

impl Cache {
    /// Whether some set is empty or some entry's deadline has come.
    fn anything_due(&self, now: u64) -> (r: bool)
        ensures
            !r ==> all_live(self@, now),
    {
        let mut i: usize = 0;
        while i < self.sets.len()
            invariant
                i <= self.sets@.len(),
                forall|k: int| 0 <= k < i ==> (#[trigger] self@[k]).records.len() > 0,
                forall|k: int, j: int| 0 <= k < i && 0 <= j < self@[k].records.len() ==> entry_deadline(#[trigger] self@[k].records[j]) > now,
            decreases self.sets@.len() - i,
        {
            let rs = &self.sets[i].records;
            assert(self@[i as int] == set_view(self.sets@[i as int]));
            if rs.len() == 0 {
                return true;
            }
            let mut j: usize = 0;
            while j < rs.len()
                invariant
                    i < self@.len(),
                    j <= rs@.len(),
                    self@[i as int].records == entries_view(rs@),
                    forall|x: int| 0 <= x < j ==> entry_deadline(#[trigger] self@[i as int].records[x]) > now,
                decreases rs@.len() - j,
            {
                assert(self@[i as int].records[j as int] == entry_view(rs@[j as int]));
                if deadline_of(&rs[j]) <= now {
                    return true;
                }
                j = j + 1;
            }
            i = i + 1;
        }
        false
    }
}

} // verus!
