use sha1::Digest;
use snac_rs::error::Error;
use snac_rs::persist::journal::{decode_journal, encode_journal, Journal};
use snac_rs::persist::{Identity, MemoryStore, StateStore};
use snac_rs::time::RandomSource;

struct Counter(u8);

impl RandomSource for Counter {
    fn fill(&mut self, n: usize) -> Result<Vec<u8>, Error> {
        let mut v = vec![];
        for _ in 0..n {
            self.0 = self.0.wrapping_add(1);
            v.push(self.0);
        }
        Ok(v)
    }
    fn sample(&mut self, bound: u64) -> Result<u64, Error> {
        Ok(bound / 2)
    }
}

fn identity() -> Identity {
    Identity {
        attachment: "en0".to_string(),
        site: [0xfd, 1, 2, 3, 4, 5, 0, 0, 0, 0, 0, 0, 0, 0, 0, 0],
        iids: [7, 9],
        macs: [[2, 0, 0, 0, 0, 1], [6, 0, 0, 0, 0, 2]],
        duid: [0, 4, 1, 2, 3, 4, 5, 6, 0x41, 8, 0x81, 10, 11, 12, 13, 14, 15, 16],
    }
}

#[test]
fn identity_encode_decode_roundtrip() {
    let id = identity();
    let b = id.encode().unwrap();
    assert_eq!(&b[..5], b"SNAC\x01");
    assert_eq!(b.len(), 7 + 3 + 52);
    let back = Identity::decode(&b).unwrap();
    assert_eq!(back.attachment, "en0");
    assert_eq!(back.site, id.site);
    assert_eq!(back.iids, id.iids);
    assert_eq!(back.macs, id.macs);
    assert_eq!(back.duid, id.duid);
}

#[test]
fn identity_decode_refuses_invalid() {
    let mut b = identity().encode().unwrap();
    b[0] = b'X';
    assert_eq!(Identity::decode(&b).unwrap_err(), Error::Invalid);
    let mut b = identity().encode().unwrap();
    let n = b.len();
    b[n - 18 + 8] = 0x31; // DUID version nibble no longer 4
    assert_eq!(Identity::decode(&b).unwrap_err(), Error::Invalid);
    let mut id = identity();
    id.iids[0] = 0;
    assert_eq!(Identity::decode(&id.encode().unwrap()).unwrap_err(), Error::Invalid);
    assert_eq!(Identity::decode(&[]).unwrap_err(), Error::Invalid);
}

#[test]
fn identity_from_random_is_valid() {
    let id = Identity::from_random(
        &"ail".to_string(),
        &[1, 2, 3, 4, 5],
        &[0xff; 8],
        &[0; 8],
        &[0xff; 6],
        &[0xff; 6],
        &[0xff; 16],
    );
    assert_eq!(id.site[..6], [0xfd, 1, 2, 3, 4, 5]);
    assert_eq!(id.iids[0], 0xfdff_ffff_ffff_ffff);
    assert_eq!(id.iids[1], 1);
    assert_eq!(id.macs[0], [0xfe, 0xff, 0xff, 0xff, 0xff, 0xff]);
    assert_eq!(id.macs[1], [0xfe, 0xff, 0xff, 0xff, 0xff, 0xfe]);
    assert_eq!(id.duid[8], 0x4f);
    assert_eq!(id.duid[10], 0xbf);
    assert!(Identity::decode(&id.encode().unwrap()).is_ok());
}

#[test]
fn identity_load_or_create_persists_and_reloads() {
    let mut store = MemoryStore::new();
    let mut rng = Counter(0);
    let a = Identity::load_or_create(&mut store, &"en0".to_string(), &mut rng).unwrap();
    assert!(store.0.is_some());
    let b = Identity::load_or_create(&mut store, &"en0".to_string(), &mut rng).unwrap();
    assert_eq!(a.iids, b.iids);
    assert_eq!(a.duid, b.duid);
    let c = Identity::load_or_create(&mut store, &"en1".to_string(), &mut rng).unwrap();
    assert_ne!(a.iids, c.iids);
    assert_eq!(c.attachment, "en1");
}

#[test]
fn journal_roundtrip_and_checksum() {
    let b = encode_journal(b"first", b"");
    assert_eq!(&b[..15], b"SNAC-RUNTIME-1\0");
    let (p0, p1) = decode_journal(&b).unwrap();
    assert_eq!(p0.unwrap(), b"first");
    assert!(p1.is_none());
    let mut bad = b.clone();
    let n = bad.len();
    bad[n - 1] ^= 1;
    assert_eq!(decode_journal(&bad).unwrap_err(), Error::Invalid);
    let mut body = b.clone();
    body.truncate(n - 20);
    let digest = sha1::Sha1::digest(&body);
    assert_eq!(&b[n - 20..], digest.as_slice());
}

#[test]
fn journal_accepts_legacy_snapshot() {
    let (p0, p1) = decode_journal(b"SNAC-SNAPSHOT-xyz").unwrap();
    assert_eq!(p0.unwrap(), b"SNAC-SNAPSHOT-xyz");
    assert!(p1.is_none());
    assert!(decode_journal(b"other").is_err());
}

#[test]
fn journal_parts_share_one_store() {
    let mut j = Journal::open(MemoryStore::new()).unwrap();
    j.save(0, b"identity").unwrap();
    j.save(1, b"registry").unwrap();
    assert_eq!(j.load(0).unwrap(), b"identity");
    assert_eq!(j.load(1).unwrap(), b"registry");
    let mut store = j.store;
    let stored = store.load().unwrap().unwrap();
    let mut again = Journal::open(MemoryStore(Some(stored))).unwrap();
    assert_eq!(again.load(0).unwrap(), b"identity");
    assert_eq!(again.load(1).unwrap(), b"registry");
    again.save(1, b"").unwrap();
    assert!(again.load(1).is_none());
    assert_eq!(again.save(0, &vec![0u8; 8 * 1024 * 1024]).unwrap_err(), Error::Invalid);
    assert_eq!(again.load(0).unwrap(), b"identity");
}
