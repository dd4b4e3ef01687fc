//! Learned items (resolver addresses, search domains), each under a key that orders it,
//! with its origin and an expiry; a list sorted by key with at most one item per key.
use crate::mdns::cache::store::{bytes_less, bytes_lt, lemma_bytes_lt_irreflexive, lemma_bytes_lt_total, lemma_bytes_lt_transitive};
use vstd::prelude::*;

verus! {

/// Where an item was learned: a router advertisement from an address, DHCPv6, DHCPv4.
#[derive(Clone, Copy, Debug)]
pub enum Origin {
    Ra([u8; 16]),
    Dhcp6,
    Dhcp4,
}

/// The order of origins: advertisements by address, then DHCPv6, then DHCPv4.
pub open spec fn origin_bytes(o: Origin) -> Seq<u8> {
    match o {
        Origin::Ra(a) => seq![0u8] + a@,
        Origin::Dhcp6 => seq![1u8],
        Origin::Dhcp4 => seq![2u8],
    }
}

pub struct Learned<T> {
    pub key: Vec<u8>,
    pub origin: Origin,
    pub item: T,
    pub until: u64,
}

pub struct LearnedV<V> {
    pub key: Seq<u8>,
    pub origin: Origin,
    pub item: V,
    pub until: u64,
}

pub open spec fn learned_view<T: View>(e: Learned<T>) -> LearnedV<T::V> {
    LearnedV { key: e.key@, origin: e.origin, item: e.item@, until: e.until }
}

pub open spec fn list_view<T: View>(v: Seq<Learned<T>>) -> Seq<LearnedV<T::V>> {
    v.map_values(|e: Learned<T>| learned_view(e))
}

/// Strictly increasing keys.
pub open spec fn sorted<V>(es: Seq<LearnedV<V>>) -> bool {
    forall|i: int, j: int| 0 <= i < j < es.len() ==> bytes_lt(#[trigger] es[i].key, #[trigger] es[j].key)
}

/// The entry with key `k`, if any.
pub open spec fn find_key<V>(es: Seq<LearnedV<V>>, k: Seq<u8>) -> Option<int> {
    if exists|i: int| 0 <= i < es.len() && es[i].key == k {
        Some(choose|i: int| 0 <= i < es.len() && es[i].key == k)
    } else {
        None
    }
}

pub proof fn lemma_find_key<V>(es: Seq<LearnedV<V>>, k: Seq<u8>, i: int)
    requires
        sorted(es),
        0 <= i < es.len(),
        es[i].key == k,
    ensures
        find_key(es, k) == Some(i),
{
    let x = choose|x: int| 0 <= x < es.len() && es[x].key == k;
    if x != i {
        lemma_bytes_lt_irreflexive(k);
        if x < i {
            assert(bytes_lt(es[x].key, es[i].key));
        } else {
            assert(bytes_lt(es[i].key, es[x].key));
        }
    }
}

/// Entries that `keep` accepts, in order.
pub open spec fn keep_where<V>(es: Seq<LearnedV<V>>, keep: spec_fn(LearnedV<V>) -> bool) -> Seq<LearnedV<V>>
    decreases es.len(),
{
    if es.len() == 0 {
        es
    } else {
        let sub = keep_where(es.drop_last(), keep);
        if keep(es.last()) {
            sub.push(es.last())
        } else {
            sub
        }
    }
}

pub proof fn lemma_keep_where<V>(es: Seq<LearnedV<V>>, keep: spec_fn(LearnedV<V>) -> bool)
    requires
        sorted(es),
    ensures
        sorted(keep_where(es, keep)),
        keep_where(es, keep).len() <= es.len(),
        forall|i: int| 0 <= i < keep_where(es, keep).len() ==> exists|j: int| 0 <= j < es.len() && #[trigger] keep_where(es, keep)[i] == es[j],
    decreases es.len(),
{
    if es.len() > 0 {
        let d = es.drop_last();
        assert(sorted(d)) by {
            assert forall|i: int, j: int| 0 <= i < j < d.len() implies bytes_lt(#[trigger] d[i].key, #[trigger] d[j].key) by {
                assert(d[i] == es[i] && d[j] == es[j]);
            }
        }
        lemma_keep_where(d, keep);
        let sub = keep_where(d, keep);
        let out = keep_where(es, keep);
        assert forall|i: int| 0 <= i < out.len() implies exists|j: int| 0 <= j < es.len() && #[trigger] out[i] == es[j] by {
            if i < sub.len() {
                assert(out[i] == sub[i]);
                let j = choose|j: int| 0 <= j < d.len() && sub[i] == d[j];
                assert(d[j] == es[j]);
            } else {
                assert(out[i] == es[es.len() - 1]);
            }
        }
        if keep(es.last()) {
            assert forall|i: int, j: int| 0 <= i < j < out.len() implies bytes_lt(#[trigger] out[i].key, #[trigger] out[j].key) by {
                assert(out[i] == sub[i]);
                if j < sub.len() {
                    assert(out[j] == sub[j]);
                } else {
                    let k = choose|k: int| 0 <= k < d.len() && sub[i] == d[k];
                    assert(d[k] == es[k]);
                    assert(out[j] == es[es.len() - 1]);
                }
            }
        }
    }
}

/// `x` is one of the entries.
pub open spec fn came_from<V>(es: Seq<LearnedV<V>>, x: LearnedV<V>) -> bool {
    exists|j: int| 0 <= j < es.len() && es[j] == x
}

/// Where a new key goes.
pub open spec fn key_place<V>(es: Seq<LearnedV<V>>, k: Seq<u8>) -> int
    decreases es.len(),
{
    if es.len() == 0 {
        0
    } else if bytes_lt(es.last().key, k) {
        es.len() as int
    } else {
        key_place(es.drop_last(), k)
    }
}

pub proof fn lemma_key_place<V>(es: Seq<LearnedV<V>>, k: Seq<u8>)
    requires
        sorted(es),
    ensures
        0 <= key_place(es, k) <= es.len(),
        forall|i: int| 0 <= i < key_place(es, k) ==> bytes_lt(#[trigger] es[i].key, k),
        forall|i: int| key_place(es, k) <= i < es.len() ==> !bytes_lt(#[trigger] es[i].key, k),
    decreases es.len(),
{
    if es.len() > 0 {
        let d = es.drop_last();
        assert(sorted(d)) by {
            assert forall|i: int, j: int| 0 <= i < j < d.len() implies bytes_lt(#[trigger] d[i].key, #[trigger] d[j].key) by {
                assert(d[i] == es[i] && d[j] == es[j]);
            }
        }
        lemma_key_place(d, k);
        let last = es[es.len() - 1];
        assert(es.last() == last);
        if bytes_lt(last.key, k) {
            assert forall|i: int| 0 <= i < es.len() implies bytes_lt(#[trigger] es[i].key, k) by {
                if i < es.len() - 1 {
                    lemma_bytes_lt_transitive(es[i].key, last.key, k);
                }
            }
        } else {
            assert forall|i: int| key_place(es, k) <= i < es.len() implies !bytes_lt(#[trigger] es[i].key, k) by {
                if i < es.len() - 1 {
                    assert(d[i] == es[i]);
                }
            }
            assert forall|i: int| 0 <= i < key_place(es, k) implies bytes_lt(#[trigger] es[i].key, k) by {
                assert(d[i] == es[i]);
            }
        }
    }
}

/// Records `e`: a new key is inserted in order; a known key only takes the new expiry.
pub open spec fn upsert<V>(es: Seq<LearnedV<V>>, e: LearnedV<V>) -> Seq<LearnedV<V>> {
    match find_key(es, e.key) {
        Some(i) => es.update(i, LearnedV { until: e.until, ..es[i] }),
        None => es.insert(key_place(es, e.key), e),
    }
}

/// Forgets the entry with key `k`.
pub open spec fn remove_key<V>(es: Seq<LearnedV<V>>, k: Seq<u8>) -> Seq<LearnedV<V>> {
    match find_key(es, k) {
        Some(i) => es.remove(i),
        None => es,
    }
}

pub proof fn lemma_upsert<V>(es: Seq<LearnedV<V>>, e: LearnedV<V>)
    requires
        sorted(es),
    ensures
        sorted(upsert(es, e)),
        find_key(es, e.key) is Some ==> upsert(es, e).len() == es.len(),
        find_key(es, e.key) is None ==> upsert(es, e).len() == es.len() + 1,
        forall|i: int| 0 <= i < upsert(es, e).len() ==> (exists|j: int| 0 <= j < es.len() && (#[trigger] upsert(es, e)[i]).key == es[j].key
            && upsert(es, e)[i].origin == es[j].origin && upsert(es, e)[i].item == es[j].item) || upsert(es, e)[i] == e,
{
    let out = upsert(es, e);
    match find_key(es, e.key) {
        Some(i) => {
            let x = choose|x: int| 0 <= x < es.len() && es[x].key == e.key;
            assert forall|a: int, b: int| 0 <= a < b < out.len() implies bytes_lt(#[trigger] out[a].key, #[trigger] out[b].key) by {
                assert(out[a].key == es[a].key && out[b].key == es[b].key);
            }
            assert forall|a: int| 0 <= a < out.len() implies (exists|j: int| 0 <= j < es.len() && (#[trigger] out[a]).key == es[j].key
                && out[a].origin == es[j].origin && out[a].item == es[j].item) || out[a] == e by {
                assert(out[a].key == es[a].key && out[a].origin == es[a].origin && out[a].item == es[a].item);
            }
        },
        None => {
            let p = key_place(es, e.key);
            lemma_key_place(es, e.key);
            assert(forall|j: int| 0 <= j < es.len() ==> es[j].key != e.key);
            assert forall|a: int, b: int| 0 <= a < b < out.len() implies bytes_lt(#[trigger] out[a].key, #[trigger] out[b].key) by {
                if a < p && b < p {
                    assert(out[a] == es[a] && out[b] == es[b]);
                } else if a < p && b == p {
                    assert(out[a] == es[a]);
                } else if a < p {
                    assert(out[a] == es[a] && out[b] == es[b - 1]);
                } else if a == p {
                    assert(out[b] == es[b - 1]);
                    lemma_bytes_lt_total(es[b - 1].key, e.key);
                } else {
                    assert(out[a] == es[a - 1] && out[b] == es[b - 1]);
                }
            }
            assert forall|a: int| 0 <= a < out.len() implies (exists|j: int| 0 <= j < es.len() && (#[trigger] out[a]).key == es[j].key
                && out[a].origin == es[j].origin && out[a].item == es[j].item) || out[a] == e by {
                if a < p {
                    assert(out[a] == es[a]);
                } else if a > p {
                    assert(out[a] == es[a - 1]);
                }
            }
        },
    }
}

pub proof fn lemma_remove_key<V>(es: Seq<LearnedV<V>>, k: Seq<u8>)
    requires
        sorted(es),
    ensures
        sorted(remove_key(es, k)),
        remove_key(es, k).len() <= es.len(),
        forall|i: int| 0 <= i < remove_key(es, k).len() ==> came_from(es, #[trigger] remove_key(es, k)[i]),
{
    let out = remove_key(es, k);
    if let Some(i) = find_key(es, k) {
        let x = choose|x: int| 0 <= x < es.len() && es[x].key == k;
        assert forall|a: int, b: int| 0 <= a < b < out.len() implies bytes_lt(#[trigger] out[a].key, #[trigger] out[b].key) by {
            let ao = if a < i { a } else { a + 1 };
            let bo = if b < i { b } else { b + 1 };
            assert(out[a] == es[ao] && out[b] == es[bo]);
        }
        assert forall|a: int| 0 <= a < out.len() implies came_from(es, #[trigger] out[a]) by {
            let ao = if a < i { a } else { a + 1 };
            assert(out[a] == es[ao]);
        }
    } else {
        assert forall|a: int| 0 <= a < out.len() implies came_from(es, #[trigger] out[a]) by {
            assert(out[a] == es[a]);
        }
    }
}

/// Sets each item in turn: an expired one is forgotten, a live one recorded.
pub open spec fn set_all<V>(es: Seq<LearnedV<V>>, items: Seq<LearnedV<V>>, now: u64) -> Seq<LearnedV<V>>
    decreases items.len(),
{
    if items.len() == 0 {
        es
    } else {
        let prev = set_all(es, items.drop_last(), now);
        let e = items.last();
        if e.until <= now {
            remove_key(prev, e.key)
        } else {
            upsert(prev, e)
        }
    }
}

pub fn find_key_exec<T: View>(v: &Vec<Learned<T>>, k: &[u8]) -> (r: Option<usize>)
    requires
        sorted(list_view(v@)),
    ensures
        r matches Some(i) ==> find_key(list_view(v@), k@) == Some(i as int),
        r is None ==> find_key(list_view(v@), k@) is None,
{
    let ghost es = list_view(v@);
    let mut i: usize = 0;
    while i < v.len()
        invariant
            i <= v@.len(),
            es == list_view(v@),
            sorted(es),
            forall|x: int| 0 <= x < i ==> es[x].key != k@,
        decreases v@.len() - i,
    {
        assert(es[i as int] == learned_view(v@[i as int]));
        if crate::mdns::cache::same_bytes(v[i].key.as_slice(), k) {
            proof {
                lemma_find_key(es, k@, i as int);
            }
            return Some(i);
        }
        i = i + 1;
    }
    None
}

/// Records an entry in a sorted list.
#[verifier::rlimit(40)]
pub fn upsert_exec<T: View>(v: &mut Vec<Learned<T>>, e: Learned<T>)
    requires
        sorted(list_view(old(v)@)),
    ensures
        list_view(final(v)@) == upsert(list_view(old(v)@), learned_view(e)),
{
    let ghost es = list_view(v@);
    let ghost ev = learned_view(e);
    match find_key_exec(v, e.key.as_slice()) {
        Some(i) => {
            let ghost sb = v@;
            v[i].until = e.until;
            proof {
                let want = es.update(i as int, LearnedV { until: ev.until, ..es[i as int] });
                assert forall|x: int| 0 <= x < want.len() implies #[trigger] list_view(v@)[x] == want[x] by {
                    if x != i {
                        assert(v@[x] == sb[x]);
                    }
                }
                assert(list_view(v@) =~= want);
            }
        },
        None => {
            let mut p: usize = v.len();
            assert(es.take(p as int) =~= es);
            while p > 0 && !bytes_less(v[p - 1].key.as_slice(), e.key.as_slice())
                invariant
                    p <= v@.len(),
                    es == list_view(v@),
                    ev == learned_view(e),
                    key_place(es, ev.key) == key_place(es.take(p as int), ev.key),
                decreases p,
            {
                assert(es[p - 1] == learned_view(v@[p - 1]));
                assert(es.take(p as int).last() == es[p - 1]);
                assert(es.take(p as int).drop_last() =~= es.take(p - 1));
                p = p - 1;
            }
            proof {
                if p > 0 {
                    assert(es[p - 1] == learned_view(v@[p - 1]));
                    assert(es.take(p as int).last() == es[p - 1]);
                }
            }
            v.insert(p, e);
            assert(list_view(v@) =~= es.insert(p as int, ev));
        },
    }
}

/// Forgets the entry with a key.
pub fn remove_exec<T: View>(v: &mut Vec<Learned<T>>, k: &[u8])
    requires
        sorted(list_view(old(v)@)),
    ensures
        list_view(final(v)@) == remove_key(list_view(old(v)@), k@),
{
    let ghost es = list_view(v@);
    if let Some(i) = find_key_exec(v, k) {
        v.remove(i);
        assert(list_view(v@) =~= es.remove(i as int));
    }
}

pub open spec fn keep_fn<V>(now: u64, replace: bool, origin: Origin) -> spec_fn(LearnedV<V>) -> bool {
    |e: LearnedV<V>| e.until > now && (!replace || e.origin != origin)
}

pub fn same_origin(a: &Origin, b: &Origin) -> (r: bool)
    ensures
        r == (*a == *b),
{
    match (a, b) {
        (Origin::Ra(x), Origin::Ra(y)) => {
            let same = crate::mdns::cache::same_bytes(x.as_slice(), y.as_slice());
            proof {
                if same {
                    assert(x@ =~= y@);
                    assert(*x =~= *y);
                }
            }
            same
        },
        (Origin::Dhcp6, Origin::Dhcp6) => true,
        (Origin::Dhcp4, Origin::Dhcp4) => true,
        _ => false,
    }
}

/// Keeps the live entries, and with `replace` none from `origin`.
pub fn retain_learned<T: View>(v: &mut Vec<Learned<T>>, now: u64, replace: bool, origin: Origin)
    ensures
        list_view(final(v)@) == keep_where(list_view(old(v)@), keep_fn(now, replace, origin)),
{
    let ghost orig = list_view(v@);
    let ghost keep = keep_fn::<T::V>(now, replace, origin);
    let mut rest: Vec<Learned<T>> = Vec::new();
    std::mem::swap(&mut rest, v);
    assert(list_view(v@) =~= keep_where(orig.take(0), keep));
    assert(list_view(rest@) =~= orig.skip(0));
    while rest.len() > 0
        invariant
            orig.len() >= rest@.len(),
            keep == keep_fn::<T::V>(now, replace, origin),
            list_view(v@) == keep_where(orig.take(orig.len() - rest@.len()), keep),
            list_view(rest@) == orig.skip(orig.len() - rest@.len()),
        decreases rest@.len(),
    {
        let ghost k = orig.len() - rest@.len();
        let ghost rv = list_view(rest@);
        let ghost r0 = rest@[0];
        assert(rv[0] == learned_view(r0));
        assert(rv[0] == orig[k]);
        let e = rest.remove(0);
        assert(e == r0);
        assert(list_view(rest@) =~= rv.drop_first());
        assert(rv.drop_first() =~= orig.skip(k + 1));
        assert(orig.take(k + 1).drop_last() =~= orig.take(k));
        assert(orig.take(k + 1).last() == learned_view(e));
        if e.until > now && (!replace || !same_origin(&e.origin, &origin)) {
            let ghost before = list_view(v@);
            v.push(e);
            assert(list_view(v@) =~= before.push(learned_view(e)));
        }
    }
    assert(orig.take(orig.len() as int) =~= orig);
}

} // verus!
