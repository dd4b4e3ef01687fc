use snac_rs::dns::name::Name;
use snac_rs::dns::wire::Dictionary;

#[test]
fn s13_compression_dictionary_has_entry_and_owned_byte_limits() {
    let mut d = Dictionary::new();
    let mut out = vec![];
    for n in 0..1025 {
        d.write_name(&format!("n{n}.").parse().unwrap(), &mut out)
            .unwrap();
    }
    assert_eq!(d.entry_count(), 1024);
    assert!(d.byte_count() <= 65536);
    let mut d = Dictionary::new();
    let mut out = vec![];
    for n in 0..=255u8 {
        let mut labels = vec![vec![7]; 127];
        labels[0] = vec![n];
        d.write_name(&Name::from_labels(labels).unwrap(), &mut out)
            .unwrap();
    }
    assert!(d.entry_count() < 1024);
    assert!(d.byte_count() <= 65536);
    assert!(d.byte_count() > 65536 - 255);
    let before = (d.entry_count(), d.byte_count());
    let labels = vec![vec![8]; 127];
    d.write_name(&Name::from_labels(labels).unwrap(), &mut out)
        .unwrap();
    assert!(d.entry_count() >= before.0);
    assert!(d.byte_count() <= 65536);
}

#[test]
fn tcp_frames_reserve_within_limit() {
    let mut t = snac_rs::dns::wire::TcpFrames::new(512).unwrap();
    let mut chunk = vec![0u8, 100];
    chunk.extend(vec![7u8; 10]);
    assert!(t.input_with_limit(&chunk, 50).is_err());
    assert_eq!(t.buffered(), 0);
    assert!(t.input_with_limit(&chunk, 200).is_ok());
    assert_eq!(t.buffered(), 12);
    assert_eq!(t.allocated(), 102);
    assert!(t.allocated() <= 200);
}

#[test]
fn tcp_frames_in_any_cut_come_out_in_order() {
    let a: Vec<u8> = (0..20).collect();
    let b: Vec<u8> = (100..130).collect();
    let mut s = snac_rs::dns::wire::TcpFrames::frame(&a).unwrap();
    s.extend(snac_rs::dns::wire::TcpFrames::frame(&b).unwrap());
    for cut in [1usize, 2, 3, 21, 22, 23, 40, 53] {
        let mut t = snac_rs::dns::wire::TcpFrames::new(512).unwrap();
        assert!(t.input(&s[..cut]).is_ok());
        assert!(t.input(&s[cut..]).is_ok());
        assert_eq!(t.buffered(), 54);
        assert_eq!(t.pop(), Some(a.clone()));
        assert_eq!(t.buffered(), 32);
        assert_eq!(t.pop(), Some(b.clone()));
        assert_eq!(t.pop(), None);
        assert_eq!(t.buffered(), 0);
    }
}
