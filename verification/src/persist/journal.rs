//! Two logical state owners share one atomic store and an eight-MiB cap.
use super::{opt_bytes, StateStore};
use crate::bytes::{be32, be32_bytes, copy_range, push_bytes, push_u32, read_u32};
use crate::error::Error;
use crate::digest::{sha1, sha1_digest};
use vstd::prelude::*;

verus! {

/// The cap on the combined store.
pub const MAX_JOURNAL_BYTES: usize = 8388608;

/// "SNAC-RUNTIME-1" and a NUL octet.
pub open spec fn journal_magic() -> Seq<u8> {
    seq![83u8, 78u8, 65u8, 67u8, 45u8, 82u8, 85u8, 78u8, 84u8, 73u8, 77u8, 69u8, 45u8, 49u8, 0u8]
}

/// "SNAC-SNAPSHOT-": the prefix of an earlier single-owner snapshot.
pub open spec fn snapshot_magic() -> Seq<u8> {
    seq![83u8, 78u8, 65u8, 67u8, 45u8, 83u8, 78u8, 65u8, 80u8, 83u8, 72u8, 79u8, 84u8, 45u8]
}

/// "SNAC" and version 1: a bare stored identity.
pub open spec fn identity_prefix() -> Seq<u8> {
    seq![83u8, 78u8, 65u8, 67u8, 1u8]
}

pub open spec fn starts_with(b: Seq<u8>, p: Seq<u8>) -> bool {
    b.len() >= p.len() && b.take(p.len() as int) == p
}

/// A part as stored: an empty part is absent.
pub open spec fn nonempty(p: Seq<u8>) -> Option<Seq<u8>> {
    if p.len() > 0 {
        Some(p)
    } else {
        None
    }
}

/// The body of a combined store: the magic, both lengths and both parts.
pub open spec fn journal_body(p0: Seq<u8>, p1: Seq<u8>) -> Seq<u8> {
    journal_magic() + be32_bytes(p0.len() as u32) + be32_bytes(p1.len() as u32) + p0 + p1
}

/// The combined store: its body followed by the body's SHA-1 digest.
pub open spec fn spec_journal_encode(p0: Seq<u8>, p1: Seq<u8>) -> Seq<u8> {
    journal_body(p0, p1) + sha1_digest(journal_body(p0, p1))
}

/// The two parts that stored octets hold: a checked combined store, or an earlier
/// snapshot or identity, which becomes the first part.
pub open spec fn spec_journal_decode(b: Seq<u8>) -> Option<(Option<Seq<u8>>, Option<Seq<u8>>)> {
    if b.len() > MAX_JOURNAL_BYTES {
        None
    } else if starts_with(b, journal_magic()) {
        if b.len() < 43 {
            None
        } else {
            let end = b.len() - 20;
            let a = be32(b[15], b[16], b[17], b[18]) as int;
            let c = be32(b[19], b[20], b[21], b[22]) as int;
            if sha1_digest(b.take(end)) != b.skip(end) {
                None
            } else if a > MAX_JOURNAL_BYTES || c > MAX_JOURNAL_BYTES || 23 + a + c != end {
                None
            } else {
                Some((nonempty(b.subrange(23, 23 + a)), nonempty(b.subrange(23 + a, end))))
            }
        }
    } else if starts_with(b, snapshot_magic()) || starts_with(b, identity_prefix()) {
        Some((Some(b), None))
    } else {
        None
    }
}

fn has_prefix(b: &[u8], p: &[u8]) -> (r: bool)
    ensures
        r == starts_with(b@, p@),
{
    if b.len() < p.len() {
        return false;
    }
    let mut i: usize = 0;
    while i < p.len()
        invariant
            b@.len() >= p@.len(),
            i <= p@.len(),
            forall|j: int| 0 <= j < i ==> b@[j] == p@[j],
        decreases p@.len() - i,
    {
        if b[i] != p[i] {
            assert(b@.take(p@.len() as int)[i as int] != p@[i as int]);
            return false;
        }
        i = i + 1;
    }
    assert(b@.take(p@.len() as int) =~= p@);
    true
}

fn same_bytes(a: &[u8], b: &[u8]) -> (r: bool)
    ensures
        r == (a@ == b@),
{
    if a.len() != b.len() {
        return false;
    }
    let r = has_prefix(a, b);
    assert(a@.take(b@.len() as int) =~= a@);
    r
}

fn journal_magic_bytes() -> (r: Vec<u8>)
    ensures
        r@ == journal_magic(),
{
    let r: Vec<u8> = vec![83, 78, 65, 67, 45, 82, 85, 78, 84, 73, 77, 69, 45, 49, 0];
    assert(r@ =~= journal_magic());
    r
}

fn opt_copy(b: &[u8], start: usize, end: usize) -> (r: Option<Vec<u8>>)
    requires
        start <= end <= b@.len(),
    ensures
        opt_bytes(r) == nonempty(b@.subrange(start as int, end as int)),
{
    if end > start {
        Some(copy_range(b, start, end))
    } else {
        None
    }
}

/// Reads the two parts out of stored octets.
pub fn decode_journal(b: &[u8]) -> (r: Result<(Option<Vec<u8>>, Option<Vec<u8>>), Error>)
    ensures
        match r {
            Ok((p0, p1)) => spec_journal_decode(b@) == Some((opt_bytes(p0), opt_bytes(p1))),
            Err(e) => spec_journal_decode(b@) is None && e == Error::Invalid,
        },
{
    let l = b.len();
    if l > MAX_JOURNAL_BYTES {
        return Err(Error::Invalid);
    }
    let magic = journal_magic_bytes();
    if has_prefix(b, magic.as_slice()) {
        if l < 43 {
            return Err(Error::Invalid);
        }
        let end = l - 20;
        let body = copy_range(b, 0, end);
        let tail = copy_range(b, end, l);
        assert(body@ =~= b@.take(end as int));
        assert(tail@ =~= b@.skip(end as int));
        let d = sha1(body.as_slice());
        if !same_bytes(d.as_slice(), tail.as_slice()) {
            return Err(Error::Invalid);
        }
        let a = read_u32(b, 15) as usize;
        let c = read_u32(b, 19) as usize;
        if a > MAX_JOURNAL_BYTES || c > MAX_JOURNAL_BYTES || 23 + a + c != end {
            return Err(Error::Invalid);
        }
        let p0 = opt_copy(b, 23, 23 + a);
        let p1 = opt_copy(b, 23 + a, end);
        Ok((p0, p1))
    } else {
        let snap: Vec<u8> = vec![83, 78, 65, 67, 45, 83, 78, 65, 80, 83, 72, 79, 84, 45];
        let ident: Vec<u8> = vec![83, 78, 65, 67, 1];
        assert(snap@ =~= snapshot_magic());
        assert(ident@ =~= identity_prefix());
        if has_prefix(b, snap.as_slice()) || has_prefix(b, ident.as_slice()) {
            let all = copy_range(b, 0, l);
            assert(all@ =~= b@);
            Ok((Some(all), None))
        } else {
            Err(Error::Invalid)
        }
    }
}

/// Writes both parts as one checked combined store; the result reads back as the parts.
pub fn encode_journal(p0: &[u8], p1: &[u8]) -> (r: Vec<u8>)
    requires
        p0@.len() + p1@.len() <= MAX_JOURNAL_BYTES - 43,
    ensures
        r@ == spec_journal_encode(p0@, p1@),
        spec_journal_decode(r@) == Some((nonempty(p0@), nonempty(p1@))),
{
    let mut b = journal_magic_bytes();
    push_u32(&mut b, p0.len() as u32);
    push_u32(&mut b, p1.len() as u32);
    push_bytes(&mut b, p0);
    push_bytes(&mut b, p1);
    assert(b@ =~= journal_body(p0@, p1@));
    let d = sha1(b.as_slice());
    let ghost body = b@;
    push_bytes(&mut b, d.as_slice());
    proof {
        let r = b@;
        let end = r.len() - 20;
        assert(r.take(end) =~= body);
        assert(r.skip(end) =~= d@);
        assert(r.take(15) =~= journal_magic());
        crate::bytes::lemma_be32_roundtrip(p0@.len() as u32);
        crate::bytes::lemma_be32_roundtrip(p1@.len() as u32);
        assert(r[15] == be32_bytes(p0@.len() as u32)[0]);
        assert(r[16] == be32_bytes(p0@.len() as u32)[1]);
        assert(r[17] == be32_bytes(p0@.len() as u32)[2]);
        assert(r[18] == be32_bytes(p0@.len() as u32)[3]);
        assert(r[19] == be32_bytes(p1@.len() as u32)[0]);
        assert(r[20] == be32_bytes(p1@.len() as u32)[1]);
        assert(r[21] == be32_bytes(p1@.len() as u32)[2]);
        assert(r[22] == be32_bytes(p1@.len() as u32)[3]);
        assert(r.subrange(23, 23 + p0@.len() as int) =~= p0@);
        assert(r.subrange(23 + p0@.len() as int, end) =~= p1@);
    }
    b
}

/// The parts of two state owners over one store.
pub struct Journal<S> {
    pub store: S,
    part0: Option<Vec<u8>>,
    part1: Option<Vec<u8>>,
}

impl<S: StateStore> Journal<S> {
    /// What each part currently holds.
    pub closed spec fn parts(&self) -> (Option<Seq<u8>>, Option<Seq<u8>>) {
        (opt_bytes(self.part0), opt_bytes(self.part1))
    }

    /// A journal over the store, given what the store held.
    pub fn from_loaded(store: S, loaded: Option<Vec<u8>>) -> (r: Result<Journal<S>, Error>)
        ensures
            match loaded {
                None => r matches Ok(j) && j.parts() == (None::<Seq<u8>>, None::<Seq<u8>>),
                Some(b) => match r {
                    Ok(j) => spec_journal_decode(b@) == Some(j.parts()),
                    Err(e) => spec_journal_decode(b@) is None && e == Error::Invalid,
                },
            },
    {
        match loaded {
            None => Ok(Journal { store, part0: None, part1: None }),
            Some(b) => match decode_journal(b.as_slice()) {
                Ok((p0, p1)) => Ok(Journal { store, part0: p0, part1: p1 }),
                Err(e) => Err(e),
            },
        }
    }

    /// Opens the journal over whatever the store holds.
    pub fn open(store: S) -> (r: Result<Journal<S>, Error>)
        ensures
            r matches Ok(j) ==> (j.parts() == (None::<Seq<u8>>, None::<Seq<u8>>) || exists|b: Seq<u8>|
                spec_journal_decode(b) == Some(j.parts())),
    {
        let mut store = store;
        let loaded = match store.load() {
            Ok(l) => l,
            Err(e) => return Err(e),
        };
        Journal::from_loaded(store, loaded)
    }

    /// What one part holds.
    pub fn load(&self, part: usize) -> (r: Option<Vec<u8>>)
        requires
            part < 2,
        ensures
            opt_bytes(r) == if part == 0 { self.parts().0 } else { self.parts().1 },
    {
        let p = if part == 0 { &self.part0 } else { &self.part1 };
        match p {
            Some(v) => {
                let c = copy_range(v.as_slice(), 0, v.len());
                assert(c@ =~= v@);
                Some(c)
            },
            None => None,
        }
    }

    /// Replaces one part and writes both to the store; a refused or failed write leaves
    /// both parts as they were.
    pub fn save(&mut self, part: usize, bytes: &[u8]) -> (r: Result<(), Error>)
        requires
            part < 2,
        ensures
            ({
                let other = if part == 0 { old(self).parts().1 } else { old(self).parts().0 };
                let olen = match other {
                    Some(o) => o.len(),
                    None => 0,
                };
                bytes@.len() + olen > MAX_JOURNAL_BYTES - 43 ==> r == Err::<(), Error>(Error::Invalid)
            }),
            r is Ok ==> final(self).parts() == if part == 0 {
                (nonempty(bytes@), old(self).parts().1)
            } else {
                (old(self).parts().0, nonempty(bytes@))
            },
            r is Err ==> final(self).parts() == old(self).parts(),
    {
        let empty: Vec<u8> = Vec::new();
        let other: &Vec<u8> = if part == 0 {
            match &self.part1 {
                Some(o) => o,
                None => &empty,
            }
        } else {
            match &self.part0 {
                Some(o) => o,
                None => &empty,
            }
        };
        let ol = other.len();
        if bytes.len() > MAX_JOURNAL_BYTES - 43 || ol > MAX_JOURNAL_BYTES - 43 - bytes.len() {
            return Err(Error::Invalid);
        }
        let combined = if part == 0 {
            encode_journal(bytes, other.as_slice())
        } else {
            encode_journal(other.as_slice(), bytes)
        };
        match self.store.save(combined.as_slice()) {
            Ok(()) => {},
            Err(e) => return Err(e),
        }
        let mine = opt_copy(bytes, 0, bytes.len());
        assert(bytes@.subrange(0, bytes@.len() as int) =~= bytes@);
        if part == 0 {
            self.part0 = mine;
        } else {
            self.part1 = mine;
        }
        Ok(())
    }
}

} // verus!
