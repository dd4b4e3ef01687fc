use snac_rs::error::Error;
use snac_rs::io::families::{ethernet_family, AilFrames, Family};
use snac_rs::io::{Device, LinkInfo, NativeFraming, PacketPort};
use snac_rs::platform::{
    bridges_apart, pair_verdict, validate_descriptor_with, validate_pair_with, DescriptorInfo, LinkStatus, NativeQueries, PlatformError,
};

#[test]
fn ethernet_family_dispatch() {
    let mut f = vec![0u8; 14];
    f[12] = 0x86;
    f[13] = 0xdd;
    assert_eq!(ethernet_family(&f), Some(Family::Ipv6));
    f[12] = 0x08;
    f[13] = 0x00;
    assert_eq!(ethernet_family(&f), Some(Family::Ipv4));
    f[13] = 0x06;
    assert_eq!(ethernet_family(&f), Some(Family::Arp));
    f[13] = 0x07;
    assert_eq!(ethernet_family(&f), None);
    assert_eq!(ethernet_family(&f[..13]), None);
}

#[test]
fn ail_frames_bounded() {
    let mut q = AilFrames::new();
    assert!(q.is_empty());
    assert!(q.push(&[1, 2, 3]));
    assert!(q.push(&[4]));
    assert_eq!(q.len(), 2);
    assert_eq!(q.pop().unwrap(), vec![1, 2, 3]);
    assert!(!q.push(&vec![0; 65535]));
    assert!(q.push(&vec![0; 65534]));
    for _ in 0..62 {
        assert!(q.push(&[]));
    }
    assert!(!q.push(&[]));
    assert_eq!(q.len(), 64);
}

struct Script(Vec<Result<Option<Vec<u8>>, Error>>, Vec<Vec<u8>>);

impl PacketPort for Script {
    fn receive(&mut self) -> Result<Option<Vec<u8>>, Error> {
        if self.0.is_empty() {
            Ok(None)
        } else {
            self.0.remove(0)
        }
    }
    fn send(&mut self, bytes: &[u8]) -> Result<usize, Error> {
        self.1.push(bytes.to_vec());
        Ok(bytes.len())
    }
}

#[test]
fn device_strips_utun_header_and_counts_discards() {
    let port = Script(vec![Ok(Some(vec![0, 0, 0, 30, 0x60])), Ok(Some(vec![0, 0, 0, 2, 0x45])), Err(Error::Invalid), Err(Error::Io)], vec![]);
    let mut d = Device::new(port, NativeFraming::Utun, None);
    assert_eq!(d.receive().unwrap(), Some(vec![0x60]));
    assert_eq!(d.receive().unwrap(), None);
    assert_eq!(d.discarded, 1);
    assert_eq!(d.receive().unwrap(), None);
    assert_eq!(d.discarded, 2);
    assert_eq!(d.receive().unwrap_err(), Error::Io);
}

#[test]
fn device_drops_own_tap_frames() {
    let mac = [2, 0, 0, 0, 0, 9];
    let mut own = vec![0u8; 14];
    own[6..12].copy_from_slice(&mac);
    let other = vec![1u8; 14];
    let mut d = Device::new(Script(vec![Ok(Some(own)), Ok(Some(other.clone()))], vec![]), NativeFraming::Tap, Some(mac));
    assert_eq!(d.receive().unwrap(), None);
    assert_eq!(d.discarded, 0);
    assert_eq!(d.receive().unwrap(), Some(other));
}

struct Fake {
    bridges: Vec<(String, Option<u32>)>,
    fd: DescriptorInfo,
}

impl NativeQueries for Fake {
    fn status(&self, _name: &String) -> Result<LinkStatus, Error> {
        Ok(LinkStatus { administrative_up: true, carrier: true })
    }
    fn bridge(&self, name: &String) -> Result<Option<u32>, Error> {
        for (n, b) in &self.bridges {
            if n == name {
                return Ok(*b);
            }
        }
        Err(Error::Io)
    }
    fn descriptor(&self, _fd: i32) -> Result<DescriptorInfo, Error> {
        Ok(self.fd.clone())
    }
}

fn info(name: &str, index: u32) -> LinkInfo {
    LinkInfo { name: name.to_string(), index, mtu: 1500, mac: None }
}

#[test]
fn pair_validation() {
    let q = Fake {
        bridges: vec![("a".into(), None), ("b".into(), Some(7)), ("c".into(), Some(7)), ("d".into(), Some(1))],
        fd: DescriptorInfo { name: "tap0".into(), framing: NativeFraming::Tap },
    };
    assert!(validate_pair_with(&[info("a", 1), info("b", 2)], &q).is_ok());
    assert_eq!(validate_pair_with(&[info("a", 1), info("a", 1)], &q).unwrap_err(), PlatformError::SameInterface);
    assert_eq!(validate_pair_with(&[info("b", 1), info("c", 2)], &q).unwrap_err(), PlatformError::SharedBridge);
    assert_eq!(validate_pair_with(&[info("a", 1), info("d", 2)], &q).unwrap_err(), PlatformError::SharedBridge);
    assert_eq!(validate_pair_with(&[info("a", 1), info("zz", 2)], &q).unwrap_err(), PlatformError::Query);
    assert!(validate_descriptor_with(3, &"tap0".to_string(), NativeFraming::Tap, &q).is_ok());
    assert_eq!(
        validate_descriptor_with(3, &"tap0".to_string(), NativeFraming::Utun, &q).unwrap_err(),
        PlatformError::Mismatch
    );
    assert!(bridges_apart(1, 2, None, None));
    assert!(!bridges_apart(1, 2, Some(2), None));
    assert!(LinkStatus { administrative_up: true, carrier: true }.usable());
    assert!(!LinkStatus { administrative_up: true, carrier: false }.usable());
}

#[test]
fn pair_verdicts() {
    assert_eq!(pair_verdict(3, 3, None, None), Err(PlatformError::SameInterface));
    assert_eq!(pair_verdict(1, 2, Some(9), Some(9)), Err(PlatformError::SharedBridge));
    assert_eq!(pair_verdict(1, 2, None, Some(1)), Err(PlatformError::SharedBridge));
    assert_eq!(pair_verdict(1, 2, Some(7), Some(8)), Ok(()));
}

#[test]
fn ail_frames_first_in_first_out() {
    let mut q = AilFrames::default();
    assert!(q.push(&[1]));
    assert!(q.push(&[2, 2]));
    assert!(q.push(&[3, 3, 3]));
    assert_eq!(q.len(), 3);
    assert_eq!(q.pop(), Some(vec![1]));
    assert_eq!(q.pop(), Some(vec![2, 2]));
    assert_eq!(q.len(), 1);
    assert_eq!(q.pop(), Some(vec![3, 3, 3]));
    assert!(q.is_empty());
    assert_eq!(q.pop(), None);
}
