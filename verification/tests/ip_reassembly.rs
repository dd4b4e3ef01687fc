use snac_rs::error::Error;
use snac_rs::ip_reassembly::Reassembler;
use snac_rs::ipv4::wire::checksum;

fn packet(id: u16, offset: usize, more: bool, payload: &[u8]) -> Vec<u8> {
    let total = 20 + payload.len();
    let flags = ((offset / 8) as u16) | if more { 0x2000 } else { 0 };
    let mut h = vec![
        0x45, 0, (total >> 8) as u8, total as u8, (id >> 8) as u8, id as u8, (flags >> 8) as u8, flags as u8, 64, 17, 0,
        0, 192, 0, 2, 1, 198, 51, 100, 7,
    ];
    let c = checksum(&h);
    h[10] = (c >> 8) as u8;
    h[11] = c as u8;
    h.extend_from_slice(payload);
    h
}

#[test]
fn reassembly_passes_whole_packets() {
    let mut r = Reassembler::new();
    let p = packet(1, 0, false, &[1, 2, 3, 4]);
    assert_eq!(r.input_v4(&p, 0), Ok(Some(p.clone())));
    assert_eq!(r.context_count(), 0);
    let mut bad = p.clone();
    bad[11] ^= 1;
    assert_eq!(r.input_v4(&bad, 0), Err(Error::Invalid));
}

#[test]
fn reassembly_joins_fragments() {
    let mut r = Reassembler::new();
    let first: Vec<u8> = (0..16).collect();
    let last: Vec<u8> = (16..24).collect();
    assert_eq!(r.input_v4(&packet(7, 0, true, &first), 0), Ok(None));
    assert_eq!(r.context_count(), 1);
    assert_eq!(r.retained_bytes(), 128 + 20 + 16 + 128);
    let whole = r.input_v4(&packet(7, 16, false, &last), 10).unwrap().unwrap();
    assert_eq!(r.context_count(), 0);
    assert_eq!(whole.len(), 44);
    assert_eq!(&whole[20..], &(0..24).collect::<Vec<u8>>()[..]);
    assert_eq!((whole[2], whole[3]), (0, 44));
    assert_eq!((whole[6], whole[7]), (0, 0));
    assert_eq!(checksum(&whole[..20]), 0);
}

#[test]
fn reassembly_overlap_drops_datagram() {
    let mut r = Reassembler::new();
    assert_eq!(r.input_v4(&packet(9, 0, true, &[0; 16]), 0), Ok(None));
    assert_eq!(r.input_v4(&packet(9, 8, true, &[0; 16]), 0), Err(Error::Invalid));
    assert_eq!(r.context_count(), 0);
    assert_eq!(r.input_v4(&packet(9, 16, false, &[0; 8]), 0), Ok(None));
    assert_eq!(r.context_count(), 1);
}

#[test]
fn reassembly_expires_after_a_minute() {
    let mut r = Reassembler::new();
    assert_eq!(r.input_v4(&packet(3, 0, true, &[0; 8]), 0), Ok(None));
    r.expire(59999);
    assert_eq!(r.context_count(), 1);
    r.expire(60000);
    assert_eq!(r.context_count(), 0);
}

#[test]
fn fragmenting_cuts_to_the_mtu_and_reassembles() {
    let payload: Vec<u8> = (0..100).collect();
    let p = packet(0, 0, false, &payload);
    assert_eq!(snac_rs::ip_reassembly::fragment_v4(&p, 1500, 5), Ok(vec![p.clone()]));
    assert_eq!(snac_rs::ip_reassembly::fragment_v4(&p, 60, 5), Err(Error::Invalid));
    let pieces = snac_rs::ip_reassembly::fragment_v4(&p, 68, 0x1234).unwrap();
    assert_eq!(pieces.len(), 3);
    assert_eq!(pieces.iter().map(|x| x.len()).collect::<Vec<_>>(), vec![68, 68, 24]);
    assert_eq!((pieces[0][6], pieces[0][7]), (0x20, 0));
    assert_eq!((pieces[1][6], pieces[1][7]), (0x20, 6));
    assert_eq!((pieces[2][6], pieces[2][7]), (0, 12));
    assert!(pieces.iter().all(|x| (x[4], x[5]) == (0x12, 0x34) && checksum(&x[..20]) == 0));
    let mut r = Reassembler::new();
    assert_eq!(r.input_v4(&pieces[2], 0), Ok(None));
    assert_eq!(r.input_v4(&pieces[0], 0), Ok(None));
    let whole = r.input_v4(&pieces[1], 0).unwrap().unwrap();
    assert_eq!(&whole[20..], &payload[..]);
}
