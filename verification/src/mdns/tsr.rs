//! Time-since-received stamps: an experimental EDNS option carrying, per owner name, a key
//! checksum and the age of the registration.
use crate::bytes::{be16, be32, be16_bytes, be32_bytes, read_u16, read_u32};
use vstd::prelude::*;

verus! {

pub const OPTION_CODE: u16 = 65002;
pub const MAX_AGE: u32 = 604800;

#[derive(Clone, Copy, Debug, PartialEq, Eq, Structural)]
pub struct Stamp {
    pub key_checksum: u32,
    pub received_at: i128,
}

/// Whole seconds since the registration, never negative, capped at a week.
pub open spec fn spec_age(now: u64, received_at: i128) -> int {
    let d = now as int - received_at as int;
    let sat = if d > i128::MAX { i128::MAX as int } else { d };
    let pos = if sat < 0 { 0 } else { sat };
    let secs = pos / 1000;
    if secs < MAX_AGE { secs } else { MAX_AGE as int }
}

pub open spec fn spec_stamp_encode(s: Stamp, index: u16, now: u64) -> Seq<u8> {
    be16_bytes(index) + be32_bytes(s.key_checksum) + be32_bytes(spec_age(now, s.received_at) as u32)
}

pub open spec fn spec_stamp_decode(b: Seq<u8>, received: u64) -> Option<(u16, Stamp)> {
    if b.len() != 10 {
        None
    } else {
        let age = be32(b[6], b[7], b[8], b[9]);
        let age2 = if age < MAX_AGE { age } else { MAX_AGE };
        Some(
            (
                be16(b[0], b[1]),
                Stamp { key_checksum: be32(b[2], b[3], b[4], b[5]), received_at: (received as int - age2 as int * 1000) as i128 },
            ),
        )
    }
}

impl Stamp {
    /// The option value: record index, key checksum and age in seconds.
    pub fn encode(self, index: u16, now: u64) -> (r: [u8; 10])
        ensures
            r@ == spec_stamp_encode(self, index, now),
    {
        let n = now as i128;
        let age: u32 = if self.received_at >= n {
            0
        } else if self.received_at < n - i128::MAX {
            MAX_AGE
        } else {
            let d = n - self.received_at;
            let secs = d / 1000;
            if secs < MAX_AGE as i128 {
                secs as u32
            } else {
                MAX_AGE
            }
        };
        let out: [u8; 10] = [
            (index / 256) as u8,
            (index % 256) as u8,
            (self.key_checksum / 16777216) as u8,
            ((self.key_checksum / 65536) % 256) as u8,
            ((self.key_checksum / 256) % 256) as u8,
            (self.key_checksum % 256) as u8,
            (age / 16777216) as u8,
            ((age / 65536) % 256) as u8,
            ((age / 256) % 256) as u8,
            (age % 256) as u8,
        ];
        assert(age == spec_age(now, self.received_at));
        assert(out@ =~= spec_stamp_encode(self, index, now));
        out
    }

    /// Reads an option value received at `received`.
    pub fn decode(b: &[u8], received: u64) -> (r: Option<(u16, Stamp)>)
        ensures
            r == spec_stamp_decode(b@, received),
    {
        if b.len() != 10 {
            return None;
        }
        let index = read_u16(b, 0);
        let key_checksum = read_u32(b, 2);
        let age = read_u32(b, 6);
        let age2 = if age < MAX_AGE { age } else { MAX_AGE };
        Some((index, Stamp { key_checksum, received_at: received as i128 - (age2 as i128) * 1000 }))
    }
}

/// Wrapping sum of the key from octet `i` on, as big-endian 32-bit words, the last one
/// zero-padded.
pub open spec fn key_checksum_from(key: Seq<u8>, i: int) -> u32
    decreases key.len() + 4 - i,
{
    if i >= key.len() || i < 0 {
        0
    } else {
        let w = be32(
            key[i],
            if i + 1 < key.len() { key[i + 1] } else { 0 },
            if i + 2 < key.len() { key[i + 2] } else { 0 },
            if i + 3 < key.len() { key[i + 3] } else { 0 },
        );
        ((w as int + key_checksum_from(key, i + 4) as int) % 0x1_0000_0000) as u32
    }
}

/// The checksum of a registration key.
pub fn key_checksum(key: &[u8]) -> (r: u32)
    ensures
        r == key_checksum_from(key@, 0),
{
    let mut sum: u32 = 0;
    let mut i: usize = 0;
    while i < key.len()
        invariant
            i <= key@.len(),
            key_checksum_from(key@, 0) == ((sum as int + key_checksum_from(key@, i as int) as int) % 0x1_0000_0000) as u32,
        decreases key@.len() - i,
    {
        let a = key[i];
        let b = if key.len() - i > 1 { key[i + 1] } else { 0 };
        let c = if key.len() - i > 2 { key[i + 2] } else { 0 };
        let d = if key.len() - i > 3 { key[i + 3] } else { 0 };
        let w = (a as u32) * 16777216 + (b as u32) * 65536 + (c as u32) * 256 + (d as u32);
        let ghost k_next: int = if key@.len() - i <= 4 { 0 } else { key_checksum_from(key@, i + 4) as int };
        proof {
            if key@.len() - i <= 4 {
                assert(key_checksum_from(key@, i + 4) == 0);
            }
        }
        proof {
            let m: int = 0x1_0000_0000;
            vstd::arithmetic::div_mod::lemma_add_mod_noop_right(sum as int, w as int + k_next, m);
            vstd::arithmetic::div_mod::lemma_add_mod_noop_right(k_next, sum as int + w as int, m);
            assert(key_checksum_from(key@, i as int) == ((w as int + k_next) % m) as u32);
        }
        sum = ((sum as u64 + w as u64) % 0x1_0000_0000) as u32;
        i = if key.len() - i <= 4 { key.len() } else { i + 4 };
    }
    sum
}

#[derive(Clone, Copy, Debug, PartialEq, Eq, Structural)]
pub enum Relation {
    Unstamped,
    Conflict,
    Equal,
    Newer,
    Older,
}

pub open spec fn spec_compare(local: Option<Stamp>, remote: Option<Stamp>) -> Relation {
    match (local, remote) {
        (None, None) => Relation::Unstamped,
        (Some(a), Some(b)) => if a.key_checksum == b.key_checksum {
            if b.received_at - a.received_at > 1000 {
                Relation::Newer
            } else if b.received_at - a.received_at < -1000 {
                Relation::Older
            } else {
                Relation::Equal
            }
        } else {
            Relation::Conflict
        },
        _ => Relation::Conflict,
    }
}

/// Compares a local stamp with a received one. The seconds field loses subsecond time, so
/// one second of difference still counts as equal; different keys always conflict.
pub fn compare(local: Option<Stamp>, remote: Option<Stamp>) -> (r: Relation)
    ensures
        r == spec_compare(local, remote),
{
    match (local, remote) {
        (None, None) => Relation::Unstamped,
        (Some(a), Some(b)) => {
            if a.key_checksum == b.key_checksum {
                match b.received_at.checked_sub(a.received_at) {
                    Some(d) => if d > 1000 {
                        Relation::Newer
                    } else if d < -1000 {
                        Relation::Older
                    } else {
                        Relation::Equal
                    },
                    None => if b.received_at > a.received_at {
                        Relation::Newer
                    } else {
                        Relation::Older
                    },
                }
            } else {
                Relation::Conflict
            }
        },
        _ => Relation::Conflict,
    }
}

/// Why a publication could not be registered.
#[derive(Clone, Copy, Debug, PartialEq, Eq, Structural)]
pub enum RegistrationError {
    Invalid,
    Capacity,
    Conflict,
    Stale,
}

/// A stamp read back from its own encoding, at the time it was written, keeps its index and
/// key and lands within the second after its registration time, so it compares equal.
pub proof fn lemma_stamp_roundtrip(s: Stamp, index: u16, now: u64)
    requires
        s.received_at <= now,
        now - s.received_at < MAX_AGE * 1000,
    ensures
        spec_stamp_decode(spec_stamp_encode(s, index, now), now) matches Some((i, t)) && i == index && t.key_checksum
            == s.key_checksum && 0 <= t.received_at - s.received_at < 1000 && spec_compare(Some(s), Some(t))
            == Relation::Equal,
{
    let d = now - s.received_at;
    let age = spec_age(now, s.received_at);
    assert(age == d / 1000);
    assert(0 <= age < MAX_AGE);
    let b = spec_stamp_encode(s, index, now);
    crate::bytes::lemma_be16_roundtrip(index);
    crate::bytes::lemma_be32_roundtrip(s.key_checksum);
    crate::bytes::lemma_be32_roundtrip(age as u32);
    assert(b.len() == 10);
    assert(be16(b[0], b[1]) == index);
    assert(be32(b[2], b[3], b[4], b[5]) == s.key_checksum);
    assert(be32(b[6], b[7], b[8], b[9]) == age);
    assert(0 <= d - age * 1000 < 1000) by (nonlinear_arith)
        requires
            age == d / 1000,
            d >= 0,
    ;
}

/// Of two stamps for the same key, the received one is older exactly when it was registered
/// more than a second before the local one, newer exactly when more than a second after,
/// and equal otherwise; swapping the two swaps newer and older. Different keys conflict,
/// two missing stamps are unstamped, and one missing stamp conflicts.
pub proof fn lemma_compare_orders(a: Stamp, b: Stamp)
    ensures
        a.key_checksum == b.key_checksum ==> (spec_compare(Some(a), Some(b)) == Relation::Older <==> b.received_at
            < a.received_at - 1000),
        a.key_checksum == b.key_checksum ==> (spec_compare(Some(a), Some(b)) == Relation::Newer <==> b.received_at
            > a.received_at + 1000),
        a.key_checksum == b.key_checksum ==> (spec_compare(Some(a), Some(b)) == Relation::Equal <==> a.received_at
            - 1000 <= b.received_at <= a.received_at + 1000),
        spec_compare(Some(a), Some(b)) == Relation::Newer <==> spec_compare(Some(b), Some(a)) == Relation::Older,
        spec_compare(Some(a), Some(b)) == Relation::Equal <==> spec_compare(Some(b), Some(a)) == Relation::Equal,
        a.key_checksum != b.key_checksum ==> spec_compare(Some(a), Some(b)) == Relation::Conflict,
        spec_compare(None, None) == Relation::Unstamped,
        spec_compare(Some(a), None) == Relation::Conflict,
        spec_compare(None, Some(b)) == Relation::Conflict,
{
}

} // verus!
