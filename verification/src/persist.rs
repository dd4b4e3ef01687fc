//! Durable router identity: one attachment's site prefix, interface identifiers,
//! MAC addresses and DHCPv6 DUID.
use crate::bytes::{be16, be16_bytes, be64_at, be64_bytes, copy_range, push_bytes, push_u16, push_u64, read_u16, read_u64};
use crate::error::Error;
use crate::text::string_from_utf8;
use crate::time::RandomSource;
use vstd::prelude::*;
use vstd::utf8::{decode_utf8, encode_utf8, valid_utf8};

pub mod journal;

verus! {

/// Where a state owner keeps its bytes.
pub trait StateStore {
    fn load(&mut self) -> Result<Option<Vec<u8>>, Error>;

    fn save(&mut self, bytes: &[u8]) -> Result<(), Error>;
}

/// A store held in memory.
pub struct MemoryStore(pub Option<Vec<u8>>);

pub open spec fn opt_bytes(o: Option<Vec<u8>>) -> Option<Seq<u8>> {
    match o {
        Some(v) => Some(v@),
        None => None,
    }
}

impl MemoryStore {
    pub fn new() -> (r: MemoryStore)
        ensures
            r.0 is None,
    {
        MemoryStore(None)
    }
}

impl StateStore for MemoryStore {
    fn load(&mut self) -> (r: Result<Option<Vec<u8>>, Error>)
        ensures
            r matches Ok(o) && opt_bytes(o) == opt_bytes(old(self).0),
            opt_bytes(final(self).0) == opt_bytes(old(self).0),
    {
        match &self.0 {
            Some(v) => {
                let c = copy_range(v.as_slice(), 0, v.len());
                assert(c@ =~= v@);
                Ok(Some(c))
            },
            None => Ok(None),
        }
    }

    fn save(&mut self, b: &[u8]) -> (r: Result<(), Error>)
        ensures
            r is Ok,
            opt_bytes(final(self).0) == Some(b@),
    {
        let c = copy_range(b, 0, b.len());
        assert(c@ =~= b@);
        self.0 = Some(c);
        Ok(())
    }
}

/// The identity with its attachment name as characters and its arrays as sequences.
pub struct IdentityV {
    pub attachment: Seq<char>,
    pub site: Seq<u8>,
    pub iids: (u64, u64),
    pub macs: (Seq<u8>, Seq<u8>),
    pub duid: Seq<u8>,
}

#[derive(Clone, Debug)]
pub struct Identity {
    pub attachment: String,
    /// The ULA /48 site prefix, as the sixteen octets of its address.
    pub site: [u8; 16],
    pub iids: [u64; 2],
    pub macs: [[u8; 6]; 2],
    pub duid: [u8; 18],
}

impl View for Identity {
    type V = IdentityV;

    open spec fn view(&self) -> IdentityV {
        IdentityV {
            attachment: self.attachment@,
            site: self.site@,
            iids: (self.iids[0], self.iids[1]),
            macs: (self.macs[0]@, self.macs[1]@),
            duid: self.duid@,
        }
    }
}

/// "SNAC" and the format version.
pub open spec fn identity_magic() -> Seq<u8> {
    seq![83u8, 78u8, 65u8, 67u8, 1u8]
}

pub open spec fn zeros(n: nat) -> Seq<u8> {
    Seq::new(n, |i: int| 0u8)
}

/// A stored identity: a locally assigned ULA site, non-zero identifiers, locally
/// administered unicast MACs and a version-4 UUID DUID.
pub open spec fn identity_valid(i: IdentityV) -> bool {
    &&& i.site.len() == 16
    &&& i.site[0] == 0xfd
    &&& i.site.skip(6) == zeros(10)
    &&& i.iids.0 != 0 && i.iids.1 != 0
    &&& i.macs.0.len() == 6 && i.macs.1.len() == 6
    &&& i.macs.0[0] & 3 == 2 && i.macs.1[0] & 3 == 2
    &&& i.duid.len() == 18
    &&& i.duid[0] == 0 && i.duid[1] == 4
    &&& i.duid[8] >> 4u8 == 4
    &&& i.duid[10] >> 6u8 == 2
}

/// The stored form of an identity.
pub open spec fn identity_bytes(i: IdentityV) -> Seq<u8> {
    let a = encode_utf8(i.attachment);
    identity_magic() + be16_bytes(a.len() as u16) + a + i.site.take(6) + be64_bytes(i.iids.0) + be64_bytes(
        i.iids.1,
    ) + i.macs.0 + i.macs.1 + i.duid
}

pub open spec fn spec_identity_encode(i: IdentityV) -> Option<Seq<u8>> {
    if encode_utf8(i.attachment).len() > 65535 {
        None
    } else {
        Some(identity_bytes(i))
    }
}

/// The identity that stored bytes hold, if they hold a valid one.

/// What the stored state gives for an attachment: `None` for state that does not decode,
/// `Some(Some(i))` for a stored identity of the same attachment, `Some(None)` when a new
/// identity is to be drawn.
pub open spec fn load_outcome(l: Option<Seq<u8>>, attachment: Seq<char>) -> Option<Option<IdentityV>> {
    match l {
        None => Some(None),
        Some(b) => match spec_identity_decode(b) {
            None => None,
            Some(i) => if i.attachment == attachment { Some(Some(i)) } else { Some(None) },
        },
    }
}

/// An identity built by `from_random` from drawn octets of the right lengths.
pub open spec fn drawn_identity(i: IdentityV, attachment: Seq<char>) -> bool {
    exists|s: Seq<u8>, a: Seq<u8>, b: Seq<u8>, m0: Seq<u8>, m1: Seq<u8>, d: Seq<u8>|
        s.len() == 5 && a.len() == 8 && b.len() == 8 && m0.len() == 6 && m1.len() == 6 && d.len() == 16 && i
            == spec_from_random(attachment, s, a, b, m0, m1, d)
}

pub open spec fn spec_identity_decode(b: Seq<u8>) -> Option<IdentityV> {
    if b.len() < 7 || b.take(5) != identity_magic() {
        None
    } else {
        let n = be16(b[5], b[6]) as int;
        if b.len() != 7 + n + 52 || !valid_utf8(b.subrange(7, 7 + n)) {
            None
        } else {
            let t = b.skip(7 + n);
            let i = IdentityV {
                attachment: decode_utf8(b.subrange(7, 7 + n)),
                site: t.take(6) + zeros(10),
                iids: (be64_at(t, 6), be64_at(t, 14)),
                macs: (t.subrange(22, 28), t.subrange(28, 34)),
                duid: t.subrange(34, 52),
            };
            if identity_valid(i) {
                Some(i)
            } else {
                None
            }
        }
    }
}

fn text_bytes(s: &String) -> (r: &[u8])
    ensures
        r@ == encode_utf8(s@),
{
    s.as_str().as_bytes()
}

impl Identity {
    pub fn encode(&self) -> (r: Result<Vec<u8>, Error>)
        ensures
            match r {
                Ok(b) => spec_identity_encode(self@) == Some(b@),
                Err(e) => spec_identity_encode(self@) is None && e == Error::Invalid,
            },
    {
        let a = text_bytes(&self.attachment);
        if a.len() > 65535 {
            return Err(Error::Invalid);
        }
        let mut b: Vec<u8> = Vec::new();
        b.push(83u8);
        b.push(78u8);
        b.push(65u8);
        b.push(67u8);
        b.push(1u8);
        assert(b@ =~= identity_magic());
        push_u16(&mut b, a.len() as u16);
        push_bytes(&mut b, a);
        let ghost before_site = b@;
        let mut k: usize = 0;
        while k < 6
            invariant
                0 <= k <= 6,
                b@ == before_site + self.site@.take(k as int),
            decreases 6 - k,
        {
            b.push(self.site[k]);
            k = k + 1;
            assert(b@ =~= before_site + self.site@.take(k as int));
        }
        push_u64(&mut b, self.iids[0]);
        push_u64(&mut b, self.iids[1]);
        push_bytes(&mut b, &self.macs[0]);
        push_bytes(&mut b, &self.macs[1]);
        push_bytes(&mut b, &self.duid);
        assert(b@ =~= identity_bytes(self@));
        Ok(b)
    }
}

/// A valid identity that can be stored reads back as itself.
#[verifier::rlimit(60)]
#[verifier::spinoff_prover]
pub proof fn lemma_identity_roundtrip(i: IdentityV)
    requires
        identity_valid(i),
        spec_identity_encode(i) is Some,
    ensures
        spec_identity_decode(spec_identity_encode(i)->0) == Some(i),
{
    let a = encode_utf8(i.attachment);
    let b = identity_bytes(i);
    let n = a.len() as int;
    vstd::utf8::encode_utf8_valid_utf8(i.attachment);
    vstd::utf8::encode_utf8_decode_utf8(i.attachment);
    crate::bytes::lemma_be16_roundtrip(n as u16);
    crate::bytes::lemma_be64_roundtrip(i.iids.0);
    crate::bytes::lemma_be64_roundtrip(i.iids.1);
    assert(b.take(5) =~= identity_magic());
    assert(b[5] == be16_bytes(n as u16)[0] && b[6] == be16_bytes(n as u16)[1]);
    assert(b.subrange(7, 7 + n) =~= a);
    let t = b.skip(7 + n);
    assert(t =~= i.site.take(6) + be64_bytes(i.iids.0) + be64_bytes(i.iids.1) + i.macs.0 + i.macs.1 + i.duid);
    assert(t.take(6) + zeros(10) =~= i.site);
    assert(t.subrange(6, 14) =~= be64_bytes(i.iids.0));
    assert(t.subrange(14, 22) =~= be64_bytes(i.iids.1));
    assert(be64_at(t, 6) == be64_at(be64_bytes(i.iids.0), 0));
    assert(be64_at(t, 14) == be64_at(be64_bytes(i.iids.1), 0));
    assert(t.subrange(22, 28) =~= i.macs.0);
    assert(t.subrange(28, 34) =~= i.macs.1);
    assert(t.subrange(34, 52) =~= i.duid);
}

impl Identity {
    /// Reads a stored identity; refuses anything but a valid one in the current format.
    #[verifier::rlimit(50)]
    #[verifier::spinoff_prover]
    pub fn decode(b: &[u8]) -> (r: Result<Identity, Error>)
        ensures
            match r {
                Ok(i) => spec_identity_decode(b@) == Some(i@),
                Err(e) => spec_identity_decode(b@) is None && e == Error::Invalid,
            },
    {
        let l = b.len();
        if l < 7 || b[0] != 83 || b[1] != 78 || b[2] != 65 || b[3] != 67 || b[4] != 1 {
            proof {
                if l >= 7 && b@.take(5) == identity_magic() {
                    assert(b@.take(5)[0] == b@[0] && b@.take(5)[1] == b@[1] && b@.take(5)[2] == b@[2]);
                    assert(b@.take(5)[3] == b@[3] && b@.take(5)[4] == b@[4]);
                }
            }
            return Err(Error::Invalid);
        }
        assert(b@.take(5) =~= identity_magic());
        let n = read_u16(b, 5) as usize;
        if l != 7 + n + 52 {
            return Err(Error::Invalid);
        }
        let attachment = match string_from_utf8(copy_range(b, 7, 7 + n)) {
            Some(s) => s,
            None => return Err(Error::Invalid),
        };
        let o = 7 + n;
        let ghost t = b@.skip(o as int);
        let site: [u8; 16] = [b[o], b[o + 1], b[o + 2], b[o + 3], b[o + 4], b[o + 5], 0, 0, 0, 0, 0, 0, 0, 0, 0, 0];
        let iids: [u64; 2] = [read_u64(b, o + 6), read_u64(b, o + 14)];
        let m = o + 22;
        let macs: [[u8; 6]; 2] = [
            [b[m], b[m + 1], b[m + 2], b[m + 3], b[m + 4], b[m + 5]],
            [b[m + 6], b[m + 7], b[m + 8], b[m + 9], b[m + 10], b[m + 11]],
        ];
        let d = o + 34;
        let duid: [u8; 18] = [
            b[d], b[d + 1], b[d + 2], b[d + 3], b[d + 4], b[d + 5], b[d + 6], b[d + 7], b[d + 8],
            b[d + 9], b[d + 10], b[d + 11], b[d + 12], b[d + 13], b[d + 14], b[d + 15], b[d + 16], b[d + 17],
        ];
        let id = Identity { attachment, site, iids, macs, duid };
        proof {
            assert(id@.site =~= t.take(6) + zeros(10));
            assert(be64_at(t, 6) == be64_at(b@, o + 6));
            assert(be64_at(t, 14) == be64_at(b@, o + 14));
            assert(id@.macs.0 =~= t.subrange(22, 28));
            assert(id@.macs.1 =~= t.subrange(28, 34));
            assert(id@.duid =~= t.subrange(34, 52));
        }
        let valid = site[0] == 0xfd && iids[0] != 0 && iids[1] != 0 && macs[0][0] & 3 == 2 && macs[1][0] & 3 == 2
            && duid[0] == 0 && duid[1] == 4 && duid[8] >> 4u8 == 4 && duid[10] >> 6u8 == 2;
        proof {
            assert(id@.site.skip(6) =~= zeros(10));
        }
        if !valid {
            return Err(Error::Invalid);
        }
        Ok(id)
    }
}

/// An interface identifier from eight random octets: the universal/local bit cleared, never 0.
pub open spec fn iid_of(b: Seq<u8>) -> u64 {
    let v = be64_at(b, 0) & 0xfdff_ffff_ffff_ffffu64;
    if v == 0 {
        1
    } else {
        v
    }
}

/// A locally administered unicast MAC from six random octets.
pub open spec fn mac_of(b: Seq<u8>) -> Seq<u8> {
    b.update(0, (b[0] & 0xfcu8) | 2u8)
}

/// The identity drawn from the random octets, in the order the router draws them.
pub open spec fn spec_from_random(
    attachment: Seq<char>,
    site: Seq<u8>,
    iid0: Seq<u8>,
    iid1: Seq<u8>,
    mac0: Seq<u8>,
    mac1: Seq<u8>,
    duid: Seq<u8>,
) -> IdentityV {
    let m0 = mac_of(mac0);
    let m1 = mac_of(mac1);
    let m1 = if m0 == m1 { m1.update(5, m1[5] ^ 1u8) } else { m1 };
    let d = seq![0u8, 4u8] + duid;
    let d = d.update(8, (d[8] & 15u8) | 64u8).update(10, (d[10] & 63u8) | 128u8);
    IdentityV {
        attachment,
        site: seq![0xfdu8] + site + zeros(10),
        iids: (iid_of(iid0), iid_of(iid1)),
        macs: (m0, m1),
        duid: d,
    }
}

fn mac_from(b: &[u8]) -> (r: [u8; 6])
    requires
        b@.len() == 6,
    ensures
        r@ == mac_of(b@),
{
    let r: [u8; 6] = [(b[0] & 0xfc) | 2, b[1], b[2], b[3], b[4], b[5]];
    assert(r@ =~= mac_of(b@));
    r
}

fn iid_from(b: &[u8]) -> (r: u64)
    requires
        b@.len() == 8,
    ensures
        r == iid_of(b@),
{
    let v = read_u64(b, 0) & 0xfdff_ffff_ffff_ffff;
    if v == 0 {
        1
    } else {
        v
    }
}

impl Identity {
    /// Builds a fresh identity for the attachment from random octets.
    pub fn from_random(
        attachment: &String,
        site: &[u8],
        iid0: &[u8],
        iid1: &[u8],
        mac0: &[u8],
        mac1: &[u8],
        duid: &[u8],
    ) -> (r: Identity)
        requires
            site@.len() == 5,
            iid0@.len() == 8,
            iid1@.len() == 8,
            mac0@.len() == 6,
            mac1@.len() == 6,
            duid@.len() == 16,
        ensures
            r@ == spec_from_random(attachment@, site@, iid0@, iid1@, mac0@, mac1@, duid@),
            identity_valid(r@),
    {
        let s: [u8; 16] = [0xfd, site[0], site[1], site[2], site[3], site[4], 0, 0, 0, 0, 0, 0, 0, 0, 0, 0];
        let m0 = mac_from(mac0);
        let mut m1 = mac_from(mac1);
        if m0[0] == m1[0] && m0[1] == m1[1] && m0[2] == m1[2] && m0[3] == m1[3] && m0[4] == m1[4] && m0[5] == m1[5] {
            assert(m0@ =~= m1@);
            m1 = [m1[0], m1[1], m1[2], m1[3], m1[4], m1[5] ^ 1];
        } else {
            proof {
                if m0@ == m1@ {
                    assert(m0@[0] == m1@[0] && m0@[1] == m1@[1] && m0@[2] == m1@[2]);
                    assert(m0@[3] == m1@[3] && m0@[4] == m1@[4] && m0@[5] == m1@[5]);
                }
            }
        }
        let d: [u8; 18] = [
            0, 4, duid[0], duid[1], duid[2], duid[3], duid[4], duid[5], (duid[6] & 15) | 64, duid[7],
            (duid[8] & 63) | 128, duid[9], duid[10], duid[11], duid[12], duid[13], duid[14], duid[15],
        ];
        let r = Identity {
            attachment: attachment.clone(),
            site: s,
            iids: [iid_from(iid0), iid_from(iid1)],
            macs: [m0, m1],
            duid: d,
        };
        proof {
            let want = spec_from_random(attachment@, site@, iid0@, iid1@, mac0@, mac1@, duid@);
            assert(r@.site =~= want.site);
            assert(r@.macs.1 =~= want.macs.1);
            assert(r@.duid =~= want.duid);
            let x = mac0@[0];
            let y = mac1@[0];
            let p = duid@[6];
            let q = duid@[8];
            assert(((x & 0xfcu8) | 2u8) & 3u8 == 2u8) by (bit_vector);
            assert(((y & 0xfcu8) | 2u8) & 3u8 == 2u8) by (bit_vector);
            assert(((p & 15u8) | 64u8) >> 4u8 == 4u8) by (bit_vector);
            assert(((q & 63u8) | 128u8) >> 6u8 == 2u8) by (bit_vector);
            assert(r@.site.skip(6) =~= zeros(10));
        }
        r
    }

    /// What a loaded state gives for this attachment: the stored identity when it is for
    /// the same attachment, `None` when a new one must be drawn.
    pub fn reuse(loaded: Option<Vec<u8>>, attachment: &String) -> (r: Result<Option<Identity>, Error>)
        ensures
            match loaded {
                None => r matches Ok(None),
                Some(b) => match spec_identity_decode(b@) {
                    None => r == Err::<Option<Identity>, Error>(Error::Invalid),
                    Some(i) => if i.attachment == attachment@ {
                        r matches Ok(Some(j)) && j@ == i
                    } else {
                        r matches Ok(None)
                    },
                },
            },
    {
        match loaded {
            None => Ok(None),
            Some(b) => {
                let old = match Identity::decode(b.as_slice()) {
                    Ok(i) => i,
                    Err(e) => return Err(e),
                };
                if old.attachment.eq(attachment) {
                    Ok(Some(old))
                } else {
                    Ok(None)
                }
            },
        }
    }

    /// Settles the identity once the store has been read: a stored identity for the same
    /// attachment comes back as stored, with nothing drawn and nothing saved; undecodable
    /// state is an error, with nothing drawn or saved; otherwise a new identity is built by
    /// `from_random` from the drawn octets and returned only once the store took its
    /// encoding.
    pub fn settle<S: StateStore, R: RandomSource>(
        loaded: Option<Vec<u8>>,
        store: &mut S,
        attachment: &String,
        rng: &mut R,
    ) -> (r: Result<Identity, Error>)
        ensures
            match load_outcome(opt_bytes(loaded), attachment@) {
                None => r == Err::<Identity, Error>(Error::Invalid) && *final(rng) == *old(rng) && *final(store)
                    == *old(store),
                Some(Some(i)) => (r matches Ok(j) && j@ == i) && *final(rng) == *old(rng) && *final(store) == *old(
                    store),
                Some(None) => r matches Ok(i) ==> drawn_identity(i@, attachment@),
            },
            r matches Ok(i) ==> i@.attachment == attachment@ && identity_valid(i@),
    {
        let ghost lv = opt_bytes(loaded);
        match Identity::reuse(loaded, attachment) {
            Err(e) => return Err(e),
            Ok(Some(old)) => {
                return Ok(old);
            },
            Ok(None) => {},
        }
        let site = match rng.fill(5) {
            Ok(v) => v,
            Err(e) => return Err(e),
        };
        let iid0 = match rng.fill(8) {
            Ok(v) => v,
            Err(e) => return Err(e),
        };
        let iid1 = match rng.fill(8) {
            Ok(v) => v,
            Err(e) => return Err(e),
        };
        let mac0 = match rng.fill(6) {
            Ok(v) => v,
            Err(e) => return Err(e),
        };
        let mac1 = match rng.fill(6) {
            Ok(v) => v,
            Err(e) => return Err(e),
        };
        let duid = match rng.fill(16) {
            Ok(v) => v,
            Err(e) => return Err(e),
        };
        if site.len() != 5 || iid0.len() != 8 || iid1.len() != 8 || mac0.len() != 6 || mac1.len() != 6
            || duid.len() != 16 {
            return Err(Error::Io);
        }
        let id = Identity::from_random(
            attachment,
            site.as_slice(),
            iid0.as_slice(),
            iid1.as_slice(),
            mac0.as_slice(),
            mac1.as_slice(),
            duid.as_slice(),
        );
        let bytes = match id.encode() {
            Ok(b) => b,
            Err(e) => return Err(e),
        };
        match store.save(bytes.as_slice()) {
            Ok(()) => Ok(id),
            Err(e) => Err(e),
        }
    }

    /// Loads the identity for the attachment, or draws, stores and returns a new one (see
    /// `settle`). What the store holds comes from outside: a success is either an identity
    /// some stored bytes decode to, for this attachment, or one built from drawn octets.
    pub fn load_or_create<S: StateStore, R: RandomSource>(store: &mut S, attachment: &String, rng: &mut R) -> (r: Result<
        Identity,
        Error,
    >)
        ensures
            r matches Ok(i) ==> i@.attachment == attachment@ && identity_valid(i@) && ((exists|b: Seq<u8>|
                spec_identity_decode(b) == Some(i@)) || exists|
                s: Seq<u8>,
                a: Seq<u8>,
                b: Seq<u8>,
                m0: Seq<u8>,
                m1: Seq<u8>,
                d: Seq<u8>,
            |
                s.len() == 5 && a.len() == 8 && b.len() == 8 && m0.len() == 6 && m1.len() == 6 && d.len() == 16 && i@
                    == spec_from_random(attachment@, s, a, b, m0, m1, d)),
    {
        let loaded = match store.load() {
            Ok(l) => l,
            Err(e) => return Err(e),
        };
        let ghost lv = opt_bytes(loaded);
        let r = Identity::settle(loaded, store, attachment, rng);
        proof {
            if let Ok(j) = &r {
                if load_outcome(lv, attachment@) matches Some(Some(i)) {
                    assert(spec_identity_decode(lv->0) == Some(j@));
                }
            }
        }
        r
    }
}

} // verus!
