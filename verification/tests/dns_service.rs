use snac_rs::dns::privacy::{IpAddress, SocketAddress};
use snac_rs::dns::resolver::{Action, Client, UpstreamQuery};
use snac_rs::dns::service::Service;

fn client(last: u8) -> Client {
    Client::udp(SocketAddress { ip: IpAddress::V4([192, 0, 2, last]), port: 40000 })
}

fn reply(last: u8, len: usize) -> Action {
    Action::Reply { client: client(last), bytes: vec![last; len] }
}

fn query(exchange: u64, tcp: bool) -> UpstreamQuery {
    UpstreamQuery {
        exchange,
        server: SocketAddress { ip: IpAddress::V4([198, 51, 100, 1]), port: 53 },
        source_port: 50000,
        tcp,
        bytes: vec![0; 12],
    }
}

#[test]
fn service_reply_queue_caps_count() {
    let mut s = Service::new();
    let actions: Vec<Action> = (0..300).map(|_| reply(1, 10)).collect();
    let streams = s.queue(actions);
    assert!(streams.is_empty());
    assert_eq!(s.queued_replies(), (256, 256 * 138));
    assert_eq!(s.next_deadline(7), Some(7));
}

#[test]
fn service_reply_queue_caps_bytes() {
    let mut s = Service::new();
    let actions: Vec<Action> = (0..70).map(|_| reply(2, 1000)).collect();
    s.queue(actions);
    assert_eq!(s.queued_replies(), (58, 58 * 1128));
    let small = s.queue(vec![reply(3, 10)]);
    assert!(small.is_empty());
    assert_eq!(s.queued_replies(), (58, 58 * 1128));
    s.pop_reply().unwrap();
    s.queue(vec![reply(3, 10)]);
    assert_eq!(s.queued_replies(), (58, 57 * 1128 + 138));
}

#[test]
fn service_stream_replies_go_to_served_connections() {
    let mut s = Service::new();
    assert!(s.accept_connection(5, 53));
    let to_five = Action::Reply {
        client: Client::tcp(SocketAddress { ip: IpAddress::V4([192, 0, 2, 9]), port: 1000 }, 5),
        bytes: vec![1; 20],
    };
    let to_six = Action::Reply {
        client: Client::tcp(SocketAddress { ip: IpAddress::V4([192, 0, 2, 9]), port: 1001 }, 6),
        bytes: vec![2; 20],
    };
    let streams = s.queue(vec![to_five, to_six, Action::Upstream(query(1, false))]);
    assert_eq!(streams, vec![(5usize, vec![1u8; 20])]);
    assert_eq!(s.queued_replies(), (0, 0));
    assert_eq!(s.next_deadline(7), None);
}

#[test]
fn service_requeue_restores_popped_reply() {
    let mut s = Service::new();
    s.queue(vec![reply(1, 10), reply(2, 20)]);
    let (c, b) = s.pop_reply().unwrap();
    assert_eq!(b, vec![1u8; 10]);
    assert_eq!(s.queued_replies(), (1, 148));
    assert!(s.requeue_reply(c, b));
    assert_eq!(s.queued_replies(), (2, 286));
    assert_eq!(s.pop_reply().unwrap().1, vec![1u8; 10]);
    assert_eq!(s.pop_reply().unwrap().1, vec![2u8; 20]);
    assert!(s.pop_reply().is_none());
    assert_eq!(s.queued_replies(), (0, 0));
}

#[test]
fn service_bindings_are_bounded_and_ordered() {
    let mut s = Service::new();
    let src = IpAddress::V4([10, 0, 0, 1]);
    for x in [9u64, 3, 7, 1, 5, 2, 8, 4] {
        assert!(s.needs_binding(&query(x, false)));
        assert!(s.bind(x, 40000 + x as u16, src));
    }
    assert!(!s.bind(6, 40006, src));
    assert!(!s.needs_binding(&query(6, false)));
    let order: Vec<u64> = s.bindings().iter().map(|b| b.exchange).collect();
    assert_eq!(order, vec![1, 2, 3, 4, 5, 7, 8, 9]);
    assert_eq!(s.counts(), (8, 0, 0));
    let live = vec![query(1, false), query(3, true), query(4, false)];
    let ports = s.release_stale(&live, &[src]);
    assert_eq!(ports, vec![40002, 40003, 40005, 40007, 40008, 40009]);
    assert_eq!(s.counts(), (2, 0, 0));
    assert!(!s.bind(4, 1, src));
    assert!(!s.needs_binding(&query(4, false)));
    assert!(!s.needs_binding(&query(6, true)));
    let gone = s.release_stale(&live, &[IpAddress::V4([10, 0, 0, 2])]);
    assert_eq!(gone, vec![40001, 40004]);
    assert_eq!(s.counts(), (0, 0, 0));
}

#[test]
fn service_connections_admission_and_rotation() {
    let mut s = Service::new();
    assert!(!s.accept_connection(1, 853));
    assert!(!s.accept_connection(1, 80));
    s.enable_tls();
    assert!(s.tls_enabled());
    assert!(s.accept_connection(1, 853));
    assert!(!s.accept_connection(1, 53));
    for id in (2..=10).rev() {
        assert!(s.accept_connection(id, 53));
    }
    assert_eq!(s.rotation(), vec![1, 2, 3, 4, 5, 6, 7, 8]);
    assert_eq!(s.rotation(), vec![9, 10, 1, 2, 3, 4, 5, 6]);
    let gone = s.forget_gone(&[2, 4, 6, 8, 10]);
    assert_eq!(gone, vec![1, 3, 5, 7, 9]);
    assert_eq!(s.counts(), (0, 5, 0));
    for id in 100..159 {
        assert!(s.accept_connection(id, 53));
    }
    assert!(!s.accept_connection(200, 53));
    assert_eq!(s.counts(), (0, 64, 0));
}

#[test]
fn service_upstream_streams() {
    let mut s = Service::new();
    assert!(s.needs_stream(&query(4, true), false));
    assert!(!s.needs_stream(&query(4, true), true));
    assert!(!s.needs_stream(&query(4, false), false));
    assert!(s.attach(4, 40));
    assert!(s.attach(2, 20));
    assert!(!s.attach(4, 41));
    assert!(!s.needs_stream(&query(4, true), false));
    assert_eq!(s.stream_of(4), Some(40));
    assert_eq!(s.stream_of(3), None);
    let aborted = s.release_streams(&[query(4, false)]);
    assert_eq!(aborted, vec![20]);
    assert_eq!(s.counts(), (0, 0, 1));
}
