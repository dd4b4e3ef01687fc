use snac_rs::dns::name::Name;
use snac_rs::dns::wire::{Message, Question, Rdata, Record};
use snac_rs::error::Error;
use snac_rs::mdns::cache::{charge, Cache};
use snac_rs::time::RandomSource;

struct Fixed;

impl RandomSource for Fixed {
    fn fill(&mut self, n: usize) -> Result<Vec<u8>, Error> {
        Ok(vec![0; n])
    }

    fn sample(&mut self, _bound: u64) -> Result<u64, Error> {
        Ok(0)
    }
}

fn n(s: &str) -> Name {
    s.parse().unwrap()
}

fn a(name: &str, class: u16, ttl: u32, addr: [u8; 4]) -> Record {
    Record { name: n(name), kind: 1, class, ttl, data: Rdata::A(addr) }
}

fn response(records: Vec<Record>) -> Message {
    let mut m = Message::new(0, 0x8400);
    m.answers = records;
    m
}

fn q(name: &str, kind: u16) -> Question {
    Question { name: n(name), kind, class: 1 }
}

#[test]
fn cache_learns_and_answers_with_remaining_ttl() {
    let mut c = Cache::new();
    let r = a("host.local.", 0x8001, 120, [10, 0, 0, 1]);
    let cost = charge(&r).unwrap();
    c.receive(&response(vec![r]), 0, &mut Fixed).unwrap();
    assert_eq!(c.counts(), (1, 1, cost));
    assert_eq!(c.next_deadline(), Some(120_000));
    let out = c.answers(&q("HOST.local.", 1), 1_500);
    assert_eq!(out.len(), 1);
    assert_eq!(out[0].class, 1);
    assert_eq!(out[0].ttl, 119);
    assert!(c.answers(&q("host.local.", 28), 1_500).is_empty());
    assert_eq!(c.answers(&q("host.local.", 255), 1_500).len(), 1);
    // Queries teach nothing.
    let mut query = Message::new(0, 0);
    query.answers = vec![a("other.local.", 1, 120, [10, 0, 0, 2])];
    c.receive(&query, 2_000, &mut Fixed).unwrap();
    assert_eq!(c.counts().0, 1);
    // A second copy refreshes rather than duplicates.
    c.receive(&response(vec![a("host.local.", 1, 60, [10, 0, 0, 1])]), 3_000, &mut Fixed).unwrap();
    assert_eq!(c.counts(), (1, 1, cost));
    assert_eq!(c.next_deadline(), Some(63_000));
    c.expire(63_000);
    assert_eq!(c.counts(), (0, 0, 0));
}

#[test]
fn cache_goodbye_and_cache_flush() {
    let mut c = Cache::new();
    c.receive(&response(vec![a("h.local.", 1, 120, [10, 0, 0, 1]), a("h.local.", 1, 120, [10, 0, 0, 2])]), 0, &mut Fixed)
        .unwrap();
    assert_eq!(c.counts().1, 2);
    // Goodbye for one address: it goes within a second.
    c.receive(&response(vec![a("h.local.", 1, 0, [10, 0, 0, 1])]), 10_000, &mut Fixed).unwrap();
    assert_eq!(c.next_deadline(), Some(11_000));
    assert_eq!(c.answers(&q("h.local.", 1), 10_500).len(), 2);
    assert_eq!(c.answers(&q("h.local.", 1), 11_000).len(), 1);
    // A cache-flush record ages out the others received over a second ago.
    c.receive(&response(vec![a("h.local.", 0x8001, 120, [10, 0, 0, 3])]), 20_000, &mut Fixed).unwrap();
    assert_eq!(c.counts().1, 2);
    assert_eq!(c.next_deadline(), Some(21_000));
    c.expire(21_000);
    let out = c.answers(&q("h.local.", 1), 21_000);
    assert_eq!(out.len(), 1);
    assert!(matches!(out[0].data, Rdata::A([10, 0, 0, 3])));
}

#[test]
fn cache_refuses_oversized_responses_and_skips_meta_records() {
    let mut c = Cache::new();
    let many: Vec<Record> = (0..513).map(|i| a("m.local.", 1, 120, [10, 0, (i / 256) as u8, (i % 256) as u8])).collect();
    assert!(matches!(c.receive(&response(many), 0, &mut Fixed), Err(Error::Invalid)));
    assert_eq!(c.counts(), (0, 0, 0));
    let any = Record { name: n("m.local."), kind: 255, class: 1, ttl: 120, data: Rdata::Bytes(vec![]) };
    c.receive(&response(vec![any]), 0, &mut Fixed).unwrap();
    assert_eq!(c.counts(), (0, 0, 0));
}

#[test]
fn cache_evicts_least_recently_used_set() {
    let mut c = Cache::new();
    for i in 0..1024u32 {
        let name = format!("h{}.local.", i);
        c.receive(&response(vec![a(&name, 1, 4000, [10, 0, (i / 256) as u8, (i % 256) as u8])]), u64::from(i), &mut Fixed)
            .unwrap();
    }
    assert_eq!(c.counts().0, 1024);
    // Using the first set makes the second the oldest.
    assert_eq!(c.answers(&q("h0.local.", 1), 5_000).len(), 1);
    c.receive(&response(vec![a("new.local.", 1, 4000, [10, 9, 9, 9])]), 6_000, &mut Fixed).unwrap();
    assert_eq!(c.counts().0, 1024);
    assert_eq!(c.answers(&q("h0.local.", 1), 6_000).len(), 1);
    assert!(c.answers(&q("h1.local.", 1), 6_000).is_empty());
    assert_eq!(c.answers(&q("new.local.", 1), 6_000).len(), 1);
    c.clear();
    assert_eq!(c.counts(), (0, 0, 0));
}

#[test]
fn cache_negative_answers_from_nsec() {
    let mut c = Cache::new();
    // The bitmap has A (type 1) only.
    let nsec = Record {
        name: n("h.local."),
        kind: 47,
        class: 0x8001,
        ttl: 120,
        data: Rdata::Nsec { next: n("h.local."), bitmap: vec![0, 1, 0x40] },
    };
    c.receive(&response(vec![nsec]), 0, &mut Fixed).unwrap();
    assert!(c.negative(&q("h.local.", 28), 0));
    assert!(!c.negative(&q("h.local.", 1), 0));
    assert!(!c.negative(&q("h.local.", 255), 0));
    assert!(!c.negative(&q("other.local.", 28), 0));
    assert!(!c.negative(&q("h.local.", 28), 120_000));
}

#[test]
fn cache_unanswered_questions_shorten_entries() {
    let mut c = Cache::new();
    c.receive(&response(vec![a("h.local.", 1, 120, [10, 0, 0, 1])]), 0, &mut Fixed).unwrap();
    let question = q("h.local.", 1);
    c.observe_question(&question, &[], 1_000);
    assert_eq!(c.next_deadline(), Some(120_000));
    // Too soon to count again.
    c.observe_question(&question, &[], 1_500);
    assert_eq!(c.next_deadline(), Some(120_000));
    c.observe_question(&question, &[], 2_000);
    assert_eq!(c.next_deadline(), Some(11_000));
    // A known answer with at least half the TTL means the record was answered.
    let mut d = Cache::new();
    d.receive(&response(vec![a("h.local.", 1, 120, [10, 0, 0, 1])]), 0, &mut Fixed).unwrap();
    let known = [a("h.local.", 1, 60, [10, 0, 0, 1])];
    d.observe_question(&question, &known, 1_000);
    d.observe_question(&question, &known, 2_000);
    assert_eq!(d.next_deadline(), Some(120_000));
    // Unicast-response questions are not counted.
    let unicast = Question { name: n("h.local."), kind: 1, class: 0x8001 };
    d.observe_question(&unicast, &[], 3_000);
    d.observe_question(&unicast, &[], 4_000);
    assert_eq!(d.next_deadline(), Some(120_000));
}
