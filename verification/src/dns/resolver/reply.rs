//! How the forwarder shapes what it sends: response codes, size limits, failures, cache
//! keys, TTL decay, CNAME chasing and the additional A records it appends.
use crate::bytes::{be16, be32_bytes};
use crate::dns::name::{canonical_wire, labels_view, lower_label, lower_labels, Name};
use crate::mdns::cache::{rdata_eq, rdata_same, same_bytes, same_name};
use crate::dns::resolver::{Action, ActionV, Client};
use crate::dns::wire::{
    copy_records, parse_message, questions_view, records_view, spec_encode, Context, Message, MessageV, Question,
    QuestionV, Rdata, RdataV, Record, RecordV, SpanV,
};
use crate::error::Error;
use vstd::prelude::*;

verus! {

/// The first OPT record, if any.
pub open spec fn first_opt(rs: Seq<RecordV>) -> Option<RecordV>
    decreases rs.len(),
{
    if rs.len() == 0 {
        None
    } else if rs[0].kind == 41 {
        Some(rs[0])
    } else {
        first_opt(rs.drop_first())
    }
}

/// The extended response code: the header's four bits and, above them, the OPT record's.
pub open spec fn spec_rcode(m: MessageV) -> u16 {
    (m.flags & 15) | match first_opt(m.additional) {
        Some(r) => ((r.ttl >> 24u32) as u16) << 4u16,
        None => 0,
    }
}

fn first_opt_index(rs: &Vec<Record>) -> (r: Option<usize>)
    ensures
        match first_opt(records_view(rs@)) {
            None => r is None,
            Some(x) => r matches Some(i) && i < rs@.len() && rs@[i as int]@ == x,
        },
{
    let ghost v = records_view(rs@);
    let mut i: usize = 0;
    assert(v.skip(0) =~= v);
    while i < rs.len()
        invariant
            i <= rs@.len(),
            v == records_view(rs@),
            first_opt(v) == first_opt(v.skip(i as int)),
        decreases rs@.len() - i,
    {
        assert(v.skip(i as int)[0] == rs@[i as int]@);
        if rs[i].kind == 41 {
            return Some(i);
        }
        assert(v.skip(i as int).drop_first() =~= v.skip(i + 1));
        i = i + 1;
    }
    assert(v.skip(i as int).len() == 0);
    None
}

pub fn rcode(m: &Message) -> (r: u16)
    ensures
        r == spec_rcode(m@),
{
    let ext: u16 = match first_opt_index(&m.additional) {
        Some(i) => ((m.additional[i].ttl >> 24u32) as u16) << 4u16,
        None => 0,
    };
    (m.flags & 15) | ext
}

/// The largest reply a client takes: any size over a connection, else its EDNS payload size
/// within 512..=4096, or 512 without EDNS.
pub open spec fn spec_client_limit(c: Client, m: MessageV) -> usize {
    if c.connection is Some {
        65535
    } else {
        match first_opt(m.additional) {
            Some(r) => if r.class < 512 {
                512
            } else if r.class > 4096 {
                4096
            } else {
                r.class as usize
            },
            None => 512,
        }
    }
}

pub fn client_limit(c: &Client, m: &Message) -> (r: usize)
    ensures
        r == spec_client_limit(*c, m@),
{
    if c.connection.is_some() {
        return 65535;
    }
    match first_opt_index(&m.additional) {
        Some(i) => {
            let class = m.additional[i].class as usize;
            if class < 512 {
                512
            } else if class > 4096 {
                4096
            } else {
                class
            }
        },
        None => 512,
    }
}

pub fn copy_questions(v: &Vec<Question>) -> (r: Vec<Question>)
    ensures
        questions_view(r@) == questions_view(v@),
{
    let mut out: Vec<Question> = Vec::new();
    let mut i: usize = 0;
    while i < v.len()
        invariant
            i <= v@.len(),
            questions_view(out@) == questions_view(v@).take(i as int),
        decreases v@.len() - i,
    {
        let q = v[i].clone();
        let ghost before = questions_view(out@);
        out.push(q);
        assert(questions_view(out@) =~= before.push(q@));
        i = i + 1;
        assert(questions_view(out@) =~= questions_view(v@).take(i as int));
    }
    assert(questions_view(v@).take(i as int) =~= questions_view(v@));
    out
}

/// A message with only a header and questions.
pub open spec fn header_only(id: u16, flags: u16, questions: Seq<QuestionV>) -> MessageV {
    MessageV {
        id,
        flags,
        questions,
        answers: Seq::empty(),
        authority: Seq::empty(),
        additional: Seq::empty(),
        original: Seq::empty(),
        spans: Seq::empty(),
    }
}

/// BADVERS answering `m`: its ID, QR and RA set, its RD and CD kept, its questions, and an
/// OPT record with extended code 1.
pub open spec fn badvers_message(m: MessageV) -> MessageV {
    MessageV {
        id: m.id,
        flags: 0x8080u16 | (m.flags & 0x110u16),
        questions: m.questions,
        answers: Seq::empty(),
        authority: Seq::empty(),
        additional: seq![RecordV { name: Seq::empty(), kind: 41, class: 4096, ttl: 0x1000000, data: RdataV::Opt(Seq::empty()) }],
        original: Seq::empty(),
        spans: Seq::empty(),
    }
}

/// A failure answering `q`: its ID, QR and RA set, its RD and CD kept, the given code, its
/// questions and nothing else.
pub open spec fn failure_message(q: MessageV, rcode: u16) -> MessageV {
    header_only(q.id, 0x8080u16 | (q.flags & 0x110u16) | rcode, q.questions)
}

pub fn failure(q: &Message, rcode: u16) -> (r: Result<Vec<u8>, Error>)
    ensures
        match spec_encode(failure_message(q@, rcode), Context::Unicast) {
            None => r is Err,
            Some(b) => r matches Ok(x) && x@ == b,
        },
{
    let mut m = Message::new(q.id, 0x8080u16 | (q.flags & 0x110u16) | rcode);
    m.questions = copy_questions(&q.questions);
    assert(m@ == failure_message(q@, rcode));
    m.encode()
}

/// What is sent to a waiter: the bytes under its ID, TC cleared in the fourth octet's AD
/// bit, and RA set for a standard query.
pub open spec fn stamp_reply(b: Seq<u8>, id: u16) -> Seq<u8> {
    let b1 = b.update(0, (id >> 8u16) as u8).update(1, (id & 0xffu16) as u8);
    let b2 = b1.update(3, b1[3] & 0xdfu8);
    if b2[2] & 0x78u8 == 0 {
        b2.update(3, b2[3] | 0x80u8)
    } else {
        b2
    }
}

/// A reply too large for the waiter becomes a truncated one: header and questions only, TC
/// and RA set, AD cleared.
pub open spec fn truncated(m: MessageV, id: u16) -> MessageV {
    header_only(id, (m.flags | 0x280u16) & 0xffdfu16, m.questions)
}

pub open spec fn spec_deliver(limit: usize, id: u16, b: Seq<u8>) -> Option<Seq<u8>> {
    if b.len() > limit {
        match parse_message(b, Context::Unicast) {
            None => None,
            Some(m) => match spec_encode(truncated(m, id), Context::Unicast) {
                None => None,
                Some(e) => Some(stamp_reply(e, id)),
            },
        }
    } else {
        Some(stamp_reply(b, id))
    }
}

/// An encoding is a message, so it has a header.
pub proof fn lemma_encoded_header(m: MessageV, context: Context)
    requires
        spec_encode(m, context) is Some,
    ensures
        spec_encode(m, context)->0.len() >= 12,
        parse_message(spec_encode(m, context)->0, context) is Some,
{
}

fn stamp_exec(bytes: &mut Vec<u8>, id: u16)
    requires
        old(bytes)@.len() >= 4,
    ensures
        final(bytes)@ == stamp_reply(old(bytes)@, id),
{
    bytes.set(0, (id >> 8u16) as u8);
    bytes.set(1, (id & 0xffu16) as u8);
    let b3 = bytes[3] & 0xdfu8;
    bytes.set(3, b3);
    if bytes[2] & 0x78u8 == 0 {
        let b3 = bytes[3] | 0x80u8;
        bytes.set(3, b3);
    }
}

pub fn deliver(client: Client, id: u16, limit: usize, b: &[u8]) -> (r: Result<Action, Error>)
    requires
        b@.len() >= 12,
    ensures
        match spec_deliver(limit, id, b@) {
            None => r is Err,
            Some(x) => r matches Ok(a) && a@ == (ActionV::Reply { client, bytes: x }),
        },
{
    let mut bytes = if b.len() > limit {
        let m = match Message::parse(b, Context::Unicast) {
            Ok(m) => m,
            Err(e) => return Err(e),
        };
        let mut q = Message::new(id, (m.flags | 0x280u16) & 0xffdfu16);
        q.questions = m.questions;
        assert(q@ == truncated(m@, id));
        match q.encode() {
            Ok(e) => {
                proof {
                    lemma_encoded_header(q@, Context::Unicast);
                }
                e
            },
            Err(e) => return Err(e),
        }
    } else {
        vstd::slice::slice_to_vec(b)
    };
    stamp_exec(&mut bytes, id);
    Ok(Action::Reply { client, bytes })
}

/// The cache key of a query: its RD and CD bits, its question with the name lowercased, and
/// its additional records, encoded under ID zero.
pub open spec fn key_message(m: MessageV) -> MessageV {
    MessageV {
        id: 0,
        flags: m.flags & 0x110u16,
        questions: m.questions.update(0, QuestionV { name: lower_labels(m.questions[0].name), ..m.questions[0] }),
        answers: Seq::empty(),
        authority: Seq::empty(),
        additional: m.additional,
        original: Seq::empty(),
        spans: Seq::empty(),
    }
}

fn lower_copy(v: &[Vec<u8>]) -> (r: Vec<Vec<u8>>)
    ensures
        labels_view(r@) == lower_labels(labels_view(v@)),
{
    let mut out: Vec<Vec<u8>> = Vec::new();
    let mut i: usize = 0;
    while i < v.len()
        invariant
            i <= v@.len(),
            labels_view(out@) == lower_labels(labels_view(v@)).take(i as int),
        decreases v@.len() - i,
    {
        let l = &v[i];
        let mut c: Vec<u8> = Vec::new();
        let mut k: usize = 0;
        while k < l.len()
            invariant
                k <= l@.len(),
                c@ == lower_label(l@).take(k as int),
            decreases l@.len() - k,
        {
            let x = l[k];
            c.push(if x >= 65 && x <= 90 { x + 32 } else { x });
            k = k + 1;
            assert(c@ =~= lower_label(l@).take(k as int));
        }
        assert(lower_label(l@).take(k as int) =~= lower_label(l@));
        let ghost before = labels_view(out@);
        out.push(c);
        assert(labels_view(out@) =~= before.push(c@));
        i = i + 1;
        assert(labels_view(out@) =~= lower_labels(labels_view(v@)).take(i as int));
    }
    assert(lower_labels(labels_view(v@)).take(i as int) =~= lower_labels(labels_view(v@)));
    out
}

pub fn query_key(m: &Message) -> (r: Result<Vec<u8>, Error>)
    requires
        m@.questions.len() >= 1,
    ensures
        match spec_encode(key_message(m@), Context::Unicast) {
            None => r is Err,
            Some(b) => r matches Ok(x) && x@ == b,
        },
{
    let q0 = &m.questions[0];
    q0.name.check_valid();
    let lowered = lower_copy(q0.name.labels());
    proof {
        crate::dns::name::lemma_lower_valid(q0.name@);
    }
    let name = match Name::from_labels(lowered) {
        Ok(n) => n,
        Err(e) => return Err(e),
    };
    let mut q = Message::new(0, m.flags & 0x110u16);
    let mut qs = copy_questions(&m.questions);
    let ghost qv = questions_view(qs@);
    let nq = Question { name, kind: q0.kind, class: q0.class };
    qs.set(0, nq);
    assert(questions_view(qs@) =~= qv.update(0, nq@));
    q.questions = qs;
    q.additional = copy_records(&m.additional);
    assert(q@ =~= key_message(m@));
    q.encode()
}

/// `v` as four big-endian octets written over `b` at `at`.
pub open spec fn put32(b: Seq<u8>, at: int, v: u32) -> Seq<u8> {
    Seq::new(b.len(), |i: int| if at <= i < at + 4 { be32_bytes(v)[i - at] } else { b[i] })
}

pub fn put_u32(b: &mut Vec<u8>, at: usize, v: u32)
    requires
        at + 4 <= old(b)@.len(),
    ensures
        final(b)@ == put32(old(b)@, at as int, v),
{
    let n = b.len();
    assert(at + 4 <= n);
    b.set(at, (v / 16777216) as u8);
    b.set(at + 1, ((v / 65536) % 256) as u8);
    b.set(at + 2, ((v / 256) % 256) as u8);
    b.set(at + 3, (v % 256) as u8);
    assert(b@ =~= put32(old(b)@, at as int, v));
}

/// The records of a message in wire order.
pub open spec fn all_records(m: MessageV) -> Seq<RecordV> {
    m.answers + m.authority + m.additional
}

pub open spec fn aged_ttl(ttl: u32, elapsed: u64) -> u32 {
    if ttl <= elapsed {
        0
    } else {
        (ttl - elapsed) as u32
    }
}

/// The bytes with the TTL of each of the first `n` records but OPT reduced by `elapsed`
/// seconds, not below zero.
pub open spec fn decay_upto(b: Seq<u8>, rs: Seq<RecordV>, spans: Seq<SpanV>, n: int, elapsed: u64) -> Seq<u8>
    decreases n,
{
    if n <= 0 {
        b
    } else {
        let prev = decay_upto(b, rs, spans, n - 1, elapsed);
        if rs[n - 1].kind != 41 {
            put32(prev, spans[n - 1].ttl, aged_ttl(rs[n - 1].ttl, elapsed))
        } else {
            prev
        }
    }
}

/// A cached answer as it is handed out `elapsed` seconds after it was stored.
pub open spec fn spec_decay(b: Seq<u8>, elapsed: u64) -> Option<Seq<u8>> {
    match parse_message(b, Context::Unicast) {
        None => None,
        Some(m) => Some(decay_upto(b, all_records(m), m.spans, m.spans.len() as int, elapsed)),
    }
}

/// A decayed answer keeps its length.
pub proof fn lemma_decay_header(b: Seq<u8>, elapsed: u64)
    requires
        spec_decay(b, elapsed) is Some,
    ensures
        spec_decay(b, elapsed)->0.len() == b.len(),
        b.len() >= 12,
{
    let m = parse_message(b, Context::Unicast)->0;
    lemma_decay_len(b, all_records(m), m.spans, m.spans.len() as int, elapsed);
}

proof fn lemma_decay_len(b: Seq<u8>, rs: Seq<RecordV>, spans: Seq<SpanV>, n: int, elapsed: u64)
    ensures
        decay_upto(b, rs, spans, n, elapsed).len() == b.len(),
    decreases n,
{
    if n > 0 {
        lemma_decay_len(b, rs, spans, n - 1, elapsed);
    }
}

/// The octets of TTL field `i` of `b`, as written by `decay_upto`.
spec fn ttl_field_written(out: Seq<u8>, at: int, v: u32) -> bool {
    forall|t: int| 0 <= t < 4 ==> #[trigger] out[at + t] == be32_bytes(v)[t]
}

/// Octet `k` lies in the TTL field of one of the first `n` records that are not OPT.
spec fn in_aged_field(rs: Seq<RecordV>, spans: Seq<SpanV>, n: int, k: int) -> bool {
    exists|i: int| 0 <= i < n && rs[i].kind != 41 && #[trigger] spans[i].ttl <= k < spans[i].ttl + 4
}

proof fn lemma_decay_upto_fields(b: Seq<u8>, rs: Seq<RecordV>, spans: Seq<SpanV>, n: int, elapsed: u64)
    requires
        0 <= n <= spans.len(),
        rs.len() == spans.len(),
        forall|i: int| 0 <= i < spans.len() ==> 0 <= #[trigger] spans[i].ttl && spans[i].ttl + 4 <= b.len(),
        forall|i: int, j: int| 0 <= i < j < spans.len() ==> #[trigger] spans[i].ttl + 4 <= #[trigger] spans[j].ttl,
    ensures
        decay_upto(b, rs, spans, n, elapsed).len() == b.len(),
        forall|i: int|
            0 <= i < n && rs[i].kind != 41 ==> ttl_field_written(
                decay_upto(b, rs, spans, n, elapsed),
                #[trigger] spans[i].ttl,
                aged_ttl(rs[i].ttl, elapsed),
            ),
        forall|k: int|
            0 <= k < b.len() && !in_aged_field(rs, spans, n, k) ==> #[trigger] decay_upto(b, rs, spans, n, elapsed)[k]
                == b[k],
    decreases n,
{
    lemma_decay_len(b, rs, spans, n, elapsed);
    if n > 0 {
        lemma_decay_upto_fields(b, rs, spans, n - 1, elapsed);
        let prev = decay_upto(b, rs, spans, n - 1, elapsed);
        let out = decay_upto(b, rs, spans, n, elapsed);
        let s = spans[n - 1].ttl;
        if rs[n - 1].kind != 41 {
            let v = aged_ttl(rs[n - 1].ttl, elapsed);
            assert(out == put32(prev, s, v));
            assert forall|i: int| 0 <= i < n && rs[i].kind != 41 implies ttl_field_written(
                out,
                #[trigger] spans[i].ttl,
                aged_ttl(rs[i].ttl, elapsed),
            ) by {
                if i < n - 1 {
                    assert(spans[i].ttl + 4 <= spans[n - 1].ttl);
                    assert(ttl_field_written(prev, spans[i].ttl, aged_ttl(rs[i].ttl, elapsed)));
                    assert forall|t: int| 0 <= t < 4 implies #[trigger] out[spans[i].ttl + t] == be32_bytes(
                        aged_ttl(rs[i].ttl, elapsed),
                    )[t] by {
                        assert(out[spans[i].ttl + t] == prev[spans[i].ttl + t]);
                    }
                } else {
                    assert forall|t: int| 0 <= t < 4 implies #[trigger] out[s + t] == be32_bytes(v)[t] by {}
                }
            }
            assert forall|k: int| 0 <= k < b.len() && !in_aged_field(rs, spans, n, k) implies #[trigger] out[k] == b[k] by {
                assert(!(s <= k < s + 4));
                assert(!in_aged_field(rs, spans, n - 1, k));
            }
        } else {
            assert(out == prev);
            assert forall|k: int| 0 <= k < b.len() && !in_aged_field(rs, spans, n, k) implies #[trigger] out[k] == b[k] by {
                assert(!in_aged_field(rs, spans, n - 1, k)) by {
                    if in_aged_field(rs, spans, n - 1, k) {
                        let i = choose|i: int| 0 <= i < n - 1 && rs[i].kind != 41 && #[trigger] spans[i].ttl <= k < spans[i].ttl + 4;
                        assert(0 <= i < n && rs[i].kind != 41 && spans[i].ttl <= k < spans[i].ttl + 4);
                    }
                }
            }
        }
    }
}

/// A cached answer handed out `elapsed` seconds after it was stored has, in the TTL field of
/// every record of its answer, authority and additional sections but OPT, that record's TTL
/// less `elapsed` and not below zero; every other octet is as stored.
pub proof fn lemma_decay_ages_every_record(b: Seq<u8>, elapsed: u64)
    requires
        parse_message(b, Context::Unicast) is Some,
    ensures
        ({
            let m = parse_message(b, Context::Unicast)->0;
            let rs = m.answers + m.authority + m.additional;
            let out = spec_decay(b, elapsed)->0;
            &&& spec_decay(b, elapsed) is Some
            &&& out.len() == b.len()
            &&& m.spans.len() == rs.len()
            &&& forall|i: int|
                #![trigger m.spans[i]]
                0 <= i < rs.len() && rs[i].kind != 41 ==> 0 <= m.spans[i].ttl && m.spans[i].ttl + 4 <= b.len() && crate::bytes::be32(
                    out[m.spans[i].ttl],
                    out[m.spans[i].ttl + 1],
                    out[m.spans[i].ttl + 2],
                    out[m.spans[i].ttl + 3],
                ) == (if rs[i].ttl > elapsed { rs[i].ttl - elapsed } else { 0 })
            &&& forall|k: int|
                0 <= k < b.len() && (forall|i: int|
                    #![trigger m.spans[i]]
                    0 <= i < rs.len() && rs[i].kind != 41 ==> !(m.spans[i].ttl <= k < m.spans[i].ttl + 4)) ==> #[trigger] out[k]
                    == b[k]
        }),
{
    let m = parse_message(b, Context::Unicast)->0;
    let rs = all_records(m);
    crate::dns::wire::lemma_message_spans(b, Context::Unicast);
    crate::dns::wire::lemma_message_spans_ordered(b, Context::Unicast);
    let n = m.spans.len() as int;
    lemma_decay_upto_fields(b, rs, m.spans, n, elapsed);
    let out = spec_decay(b, elapsed)->0;
    assert(out == decay_upto(b, rs, m.spans, n, elapsed));
    assert forall|i: int| #![trigger m.spans[i]] 0 <= i < rs.len() && rs[i].kind != 41 implies crate::bytes::be32(
        out[m.spans[i].ttl],
        out[m.spans[i].ttl + 1],
        out[m.spans[i].ttl + 2],
        out[m.spans[i].ttl + 3],
    ) == (if rs[i].ttl > elapsed { rs[i].ttl - elapsed } else { 0 }) by {
        let s = m.spans[i].ttl;
        let v = aged_ttl(rs[i].ttl, elapsed);
        assert(ttl_field_written(out, s, v));
        assert(out[s + 0] == be32_bytes(v)[0]);
        assert(out[s + 1] == be32_bytes(v)[1]);
        assert(out[s + 2] == be32_bytes(v)[2]);
        assert(out[s + 3] == be32_bytes(v)[3]);
        crate::bytes::lemma_be32_roundtrip(v);
    }
    assert forall|k: int|
        0 <= k < b.len() && (forall|i: int|
            #![trigger m.spans[i]]
            0 <= i < rs.len() && rs[i].kind != 41 ==> !(m.spans[i].ttl <= k < m.spans[i].ttl + 4)) implies #[trigger] out[k]
        == b[k] by {
        assert(!in_aged_field(rs, m.spans, n, k));
    }
}

/// The record at position `i` in wire order.
pub fn record_at(m: &Message, i: usize) -> (r: &Record)
    requires
        i < m@.answers.len() + m@.authority.len() + m@.additional.len(),
    ensures
        r@ == all_records(m@)[i as int],
{
    let an = m.answers.len();
    let ns = m.authority.len();
    if i < an {
        &m.answers[i]
    } else if i - an < ns {
        &m.authority[i - an]
    } else {
        &m.additional[i - an - ns]
    }
}

pub fn decay(b: &[u8], elapsed: u64) -> (r: Result<Vec<u8>, Error>)
    ensures
        match spec_decay(b@, elapsed) {
            None => r is Err,
            Some(x) => r matches Ok(v) && v@ == x,
        },
{
    let m = match Message::parse(b, Context::Unicast) {
        Ok(m) => m,
        Err(e) => return Err(e),
    };
    proof {
        crate::dns::wire::lemma_message_spans(b@, Context::Unicast);
    }
    let mut out = vstd::slice::slice_to_vec(b);
    let spans = m.record_spans();
    let ghost rs = all_records(m@);
    let mut i: usize = 0;
    while i < spans.len()
        invariant
            i <= spans@.len(),
            spans@ == m.spans@,
            m@ == parse_message(b@, Context::Unicast)->0,
            m@.spans.len() == rs.len(),
            rs == all_records(m@),
            forall|k: int| 0 <= k < m@.spans.len() ==> 0 <= #[trigger] m@.spans[k].ttl && m@.spans[k].ttl + 4 <= b@.len(),
            out@ == decay_upto(b@, rs, m@.spans, i as int, elapsed),
        decreases spans@.len() - i,
    {
        proof {
            lemma_decay_len(b@, rs, m@.spans, i as int, elapsed);
            assert(m@.spans[i as int] == spans@[i as int]@);
            assert(spans@[i as int]@.ttl == spans@[i as int].ttl as int);
        }
        let r = record_at(&m, i);
        if r.kind != 41 {
            let t: u64 = r.ttl as u64;
            let aged: u32 = if t <= elapsed { 0 } else { (t - elapsed) as u32 };
            put_u32(&mut out, spans[i].ttl, aged);
        }
        i = i + 1;
    }
    Ok(out)
}

/// The targets of the CNAME records owned by `name`, in order.
pub open spec fn cname_targets(ans: Seq<RecordV>, name: Seq<Seq<u8>>) -> Seq<Seq<Seq<u8>>>
    decreases ans.len(),
{
    if ans.len() == 0 {
        Seq::empty()
    } else {
        let prev = cname_targets(ans.drop_last(), name);
        let r = ans.last();
        match r.data {
            RdataV::Name(t) => if same_name(r.name, name) && r.kind == 5 {
                prev.push(t)
            } else {
                prev
            },
            _ => prev,
        }
    }
}

pub open spec fn seen_name(seen: Seq<Seq<Seq<u8>>>, n: Seq<Seq<u8>>) -> bool {
    exists|i: int| 0 <= i < seen.len() && same_name(seen[i], n)
}

/// Follows CNAMEs from `name`: the name with none, or nothing on a loop, on a name with
/// disagreeing CNAMEs, or past sixteen steps.
pub open spec fn chase(ans: Seq<RecordV>, name: Seq<Seq<u8>>, seen: Seq<Seq<Seq<u8>>>, depth: int) -> Option<Seq<Seq<u8>>>
    decreases 17 - depth,
{
    if depth < 0 || depth > 16 || seen_name(seen, name) {
        None
    } else {
        let ts = cname_targets(ans, name);
        if ts.len() == 0 {
            Some(name)
        } else if depth == 16 || exists|k: int| 1 <= k < ts.len() && !same_name(ts[k], ts[0]) {
            None
        } else {
            chase(ans, ts[0], seen.push(name), depth + 1)
        }
    }
}

pub fn contains_name(v: &Vec<Name>, n: &Name) -> (r: bool)
    ensures
        r == seen_name(crate::dns::upstream::names_view(v@), n@),
{
    let c = n.canonical();
    let mut i: usize = 0;
    while i < v.len()
        invariant
            i <= v@.len(),
            c@ == canonical_wire(n@),
            forall|k: int| 0 <= k < i ==> !same_name(#[trigger] crate::dns::upstream::names_view(v@)[k], n@),
        decreases v@.len() - i,
    {
        assert(crate::dns::upstream::names_view(v@)[i as int] == v@[i as int]@);
        if same_bytes(v[i].canonical(), c) {
            return true;
        }
        i = i + 1;
    }
    false
}

fn targets_exec(ans: &Vec<Record>, name: &Name) -> (r: Vec<Name>)
    ensures
        crate::dns::upstream::names_view(r@) == cname_targets(records_view(ans@), name@),
{
    let ghost av = records_view(ans@);
    let mut out: Vec<Name> = Vec::new();
    let mut i: usize = 0;
    assert(av.take(0) =~= Seq::<RecordV>::empty());
    assert(crate::dns::upstream::names_view(out@) =~= Seq::<Seq<Seq<u8>>>::empty());
    while i < ans.len()
        invariant
            i <= ans@.len(),
            av == records_view(ans@),
            crate::dns::upstream::names_view(out@) == cname_targets(av.take(i as int), name@),
        decreases ans@.len() - i,
    {
        let r = &ans[i];
        proof {
            assert(av.take(i + 1).drop_last() =~= av.take(i as int));
            assert(av.take(i + 1).last() == r@);
        }
        match &r.data {
            Rdata::Name(t) => {
                if r.name.eq(name) && r.kind == 5 {
                    let ghost before = crate::dns::upstream::names_view(out@);
                    out.push(t.clone());
                    assert(crate::dns::upstream::names_view(out@) =~= before.push(t@));
                }
            },
            _ => {},
        }
        i = i + 1;
    }
    assert(av.take(i as int) =~= av);
    out
}

/// The name that `start` leads to through the answer's CNAMEs.
pub fn canonical(m: &Message, start: &Name) -> (r: Result<Name, Error>)
    ensures
        match chase(m@.answers, start@, Seq::empty(), 0) {
            None => r is Err,
            Some(n) => r matches Ok(x) && x@ == n,
        },
{
    let ghost goal = chase(m@.answers, start@, Seq::empty(), 0);
    let mut name = start.clone();
    let mut seen: Vec<Name> = Vec::new();
    let mut depth: usize = 0;
    assert(crate::dns::upstream::names_view(seen@) =~= Seq::<Seq<Seq<u8>>>::empty());
    while depth <= 16
        invariant
            depth <= 17,
            goal == chase(m@.answers, start@, Seq::empty(), 0),
            goal == chase(m@.answers, name@, crate::dns::upstream::names_view(seen@), depth as int),
        decreases 17 - depth,
    {
        if contains_name(&seen, &name) {
            return Err(Error::Invalid);
        }
        let ts = targets_exec(&m.answers, &name);
        if ts.len() == 0 {
            return Ok(name);
        }
        if depth == 16 {
            return Err(Error::Invalid);
        }
        let mut k: usize = 1;
        while k < ts.len()
            invariant
                1 <= k <= ts@.len(),
                depth < 16,
                goal == chase(m@.answers, start@, Seq::empty(), 0),
                goal == chase(m@.answers, name@, crate::dns::upstream::names_view(seen@), depth as int),
                !seen_name(crate::dns::upstream::names_view(seen@), name@),
                crate::dns::upstream::names_view(ts@) == cname_targets(m@.answers, name@),
                forall|j: int| 1 <= j < k ==> same_name(#[trigger] crate::dns::upstream::names_view(ts@)[j], crate::dns::upstream::names_view(ts@)[0]),
            decreases ts@.len() - k,
        {
            if !ts[k].eq(&ts[0]) {
                assert(!same_name(crate::dns::upstream::names_view(ts@)[k as int], crate::dns::upstream::names_view(ts@)[0]));
                assert(!same_name(cname_targets(m@.answers, name@)[k as int], cname_targets(m@.answers, name@)[0]));
                return Err(Error::Invalid);
            }
            k = k + 1;
        }
        let ghost sv = crate::dns::upstream::names_view(seen@);
        let next = ts[0].clone();
        seen.push(name);
        assert(crate::dns::upstream::names_view(seen@) =~= sv.push(name@));
        name = next;
        depth = depth + 1;
    }
    Err(Error::Invalid)
}

/// With the additional A lookup enabled, the A question that completes an AAAA answer that
/// has no AAAA record and is not NXDOMAIN: for the name its CNAMEs lead to.
pub open spec fn spec_additional_question(m: MessageV, q: QuestionV, enabled: bool) -> Option<QuestionV> {
    if !enabled || q.kind != 28 || spec_rcode(m) == 3 || exists|i: int| 0 <= i < m.answers.len() && m.answers[i].kind == 28 {
        None
    } else {
        match chase(m.answers, q.name, Seq::empty(), 0) {
            None => None,
            Some(n) => Some(QuestionV { name: n, kind: 1, class: q.class }),
        }
    }
}

pub fn additional_question(m: &Message, q: &Question, enabled: bool) -> (r: Option<Question>)
    ensures
        match spec_additional_question(m@, q@, enabled) {
            None => r is None,
            Some(x) => r matches Some(y) && y@ == x,
        },
{
    if !enabled || q.kind != 28 || rcode(m) == 3 {
        return None;
    }
    let mut i: usize = 0;
    while i < m.answers.len()
        invariant
            i <= m.answers@.len(),
            forall|k: int| 0 <= k < i ==> m@.answers[k].kind != 28,
        decreases m.answers@.len() - i,
    {
        if m.answers[i].kind == 28 {
            assert(m@.answers[i as int].kind == 28);
            return None;
        }
        i = i + 1;
    }
    match canonical(m, &q.name) {
        Ok(name) => Some(Question { name, kind: 1, class: q.class }),
        Err(_) => None,
    }
}

/// A response carrying only `r` in its additional section.
pub open spec fn one_record(r: RecordV) -> MessageV {
    MessageV {
        id: 0,
        flags: 0x8000,
        questions: Seq::empty(),
        answers: Seq::empty(),
        authority: Seq::empty(),
        additional: seq![r],
        original: Seq::empty(),
        spans: Seq::empty(),
    }
}

/// The wire form of one record.
#[verifier::opaque]
pub open spec fn spec_record_bytes(r: RecordV) -> Option<Seq<u8>> {
    match spec_encode(one_record(r), Context::Unicast) {
        None => None,
        Some(b) => Some(b.subrange(12, b.len() as int)),
    }
}

pub fn record_bytes(r: &Record) -> (out: Result<Vec<u8>, Error>)
    ensures
        match spec_record_bytes(r@) {
            None => out is Err,
            Some(b) => out matches Ok(x) && x@ == b,
        },
{
    proof {
        reveal(spec_record_bytes);
    }
    let mut m = Message::new(0, 0x8000);
    let c = r.clone();
    m.additional.push(c);
    assert(records_view(m.additional@) =~= seq![r@]);
    assert(m@ == one_record(r@));
    let b = match m.encode() {
        Ok(b) => b,
        Err(e) => return Err(e),
    };
    proof {
        lemma_encoded_header(m@, Context::Unicast);
    }
    Ok(crate::bytes::copy_range(b.as_slice(), 12, b.len()))
}

/// The same record: owner without case, type, class and RDATA.
pub open spec fn same_record(x: RecordV, r: RecordV) -> bool {
    same_name(x.name, r.name) && x.kind == r.kind && x.class == r.class && rdata_eq(x.data, r.data)
}

pub open spec fn present(rs: Seq<RecordV>, r: RecordV) -> bool {
    exists|i: int| 0 <= i < rs.len() && same_record(rs[i], r)
}

/// Appending the A records of `target` among the first `n` answers to `wire`: records already
/// among `recs` are skipped, and appending stops before the message would pass 65535 octets.
/// Gives the bytes, the records, how many were appended and whether appending stopped; none
/// if a record cannot be encoded.
pub open spec fn aug_walk(ans: Seq<RecordV>, target: Seq<Seq<u8>>, wire: Seq<u8>, recs: Seq<RecordV>, n: int) -> Option<
    (Seq<u8>, Seq<RecordV>, int, bool),
>
    decreases n,
{
    if n <= 0 {
        Some((wire, recs, 0, false))
    } else {
        match aug_walk(ans, target, wire, recs, n - 1) {
            None => None,
            Some((w, rs, added, stopped)) => {
                let r = ans[n - 1];
                if stopped || !(same_name(r.name, target) && r.kind == 1) || present(rs, r) {
                    Some((w, rs, added, stopped))
                } else {
                    match spec_record_bytes(r) {
                        None => None,
                        Some(bytes) => if w.len() + bytes.len() > 65535 {
                            Some((w, rs, added, true))
                        } else {
                            Some((w + bytes, rs.push(r), added + 1, false))
                        },
                    }
                }
            },
        }
    }
}

/// `base` with the A records for the name that `start` leads to in the successful answer `a`
/// appended to its additional section; `base` itself if `a` is not a success. None if a
/// CNAME chain is broken, `base` is not a message, or the result would not be one.
pub open spec fn spec_augment(base: Seq<u8>, a: MessageV, start: Seq<Seq<u8>>) -> Option<Seq<u8>> {
    if spec_rcode(a) != 0 {
        Some(base)
    } else {
        match chase(a.answers, start, Seq::empty(), 0) {
            None => None,
            Some(target) => match parse_message(base, Context::Unicast) {
                None => None,
                Some(m) => match aug_walk(a.answers, target, base, m.additional, a.answers.len() as int) {
                    None => None,
                    Some((w, _, added, _)) => {
                        let count = be16(w[10], w[11]) + added;
                        if count > 65535 {
                            None
                        } else {
                            let w2 = w.update(10, (count / 256) as u8).update(11, (count % 256) as u8);
                            if parse_message(w2, Context::Unicast) is Some {
                                Some(w2)
                            } else {
                                None
                            }
                        }
                    },
                },
            },
        }
    }
}

proof fn lemma_aug_walk(ans: Seq<RecordV>, target: Seq<Seq<u8>>, wire: Seq<u8>, recs: Seq<RecordV>, n: int)
    requires
        0 <= n,
    ensures
        aug_walk(ans, target, wire, recs, n) matches Some((w, _, added, _)) ==> w.len() >= wire.len() && 0 <= added <= n,
    decreases n,
{
    if n > 0 {
        lemma_aug_walk(ans, target, wire, recs, n - 1);
    }
}

fn present_exec(rs: &Vec<Record>, r: &Record) -> (b: bool)
    ensures
        b == present(records_view(rs@), r@),
{
    let mut i: usize = 0;
    while i < rs.len()
        invariant
            i <= rs@.len(),
            forall|k: int| 0 <= k < i ==> !same_record(#[trigger] records_view(rs@)[k], r@),
        decreases rs@.len() - i,
    {
        let x = &rs[i];
        assert(records_view(rs@)[i as int] == x@);
        if x.name.eq(&r.name) && x.kind == r.kind && x.class == r.class && rdata_same(&x.data, &r.data) {
            return true;
        }
        i = i + 1;
    }
    false
}

fn append_records(ans: &Vec<Record>, target: &Name, base: &[u8], recs: Vec<Record>) -> (r: Result<(Vec<u8>, usize), Error>)
    ensures
        match aug_walk(records_view(ans@), target@, base@, records_view(recs@), ans@.len() as int) {
            None => r is Err,
            Some((w, _, added, _)) => r matches Ok((v, n)) && v@ == w && n == added,
        },
{
    let ghost av = records_view(ans@);
    let ghost r0 = records_view(recs@);
    let mut wire = vstd::slice::slice_to_vec(base);
    let mut records = recs;
    let mut added: usize = 0;
    let mut stopped = false;
    let mut i: usize = 0;
    while i < ans.len()
        invariant
            i <= ans@.len(),
            av == records_view(ans@),
            r0 == records_view(recs@),
            aug_walk(av, target@, base@, r0, i as int) == Some((wire@, records_view(records@), added as int, stopped)),
            added <= i,
        decreases ans@.len() - i,
    {
        let r = &ans[i];
        assert(av[i as int] == r@);
        if !stopped && r.name.eq(target) && r.kind == 1 && !present_exec(&records, r) {
            let bytes = match record_bytes(r) {
                Ok(b) => b,
                Err(e) => {
                    proof {
                        assert(aug_walk(av, target@, base@, r0, i as int + 1) is None);
                        lemma_aug_none(av, target@, base@, r0, i as int + 1);
                    }
                    return Err(e);
                },
            };
            if wire.len() > 65535 || bytes.len() > 65535 - wire.len() {
                stopped = true;
            } else {
                crate::bytes::push_bytes(&mut wire, bytes.as_slice());
                let ghost rb = records_view(records@);
                records.push(r.clone());
                assert(records_view(records@) =~= rb.push(r@));
                added = added + 1;
            }
        }
        i = i + 1;
    }
    Ok((wire, added))
}

#[verifier::rlimit(80)]
#[verifier::spinoff_prover]
pub fn augment(base: &[u8], a: &Message, start: &Name) -> (r: Result<Vec<u8>, Error>)
    ensures
        match spec_augment(base@, a@, start@) {
            None => r is Err,
            Some(x) => r matches Ok(v) && v@ == x,
        },
{
    if rcode(a) != 0 {
        return Ok(vstd::slice::slice_to_vec(base));
    }
    let target = match canonical(a, start) {
        Ok(t) => t,
        Err(e) => return Err(e),
    };
    let m = match Message::parse(base, Context::Unicast) {
        Ok(m) => m,
        Err(e) => return Err(e),
    };
    proof {
        crate::dns::wire::lemma_message_spans(base@, Context::Unicast);
    }
    let (mut wire, added) = match append_records(&a.answers, &target, base, copy_records(&m.additional)) {
        Ok(x) => x,
        Err(e) => return Err(e),
    };
    proof {
        lemma_aug_walk(a@.answers, target@, base@, m@.additional, a@.answers.len() as int);
    }
    let head: usize = (wire[10] as usize) * 256 + (wire[11] as usize);
    if added > 65535 - head {
        return Err(Error::Invalid);
    }
    let count: usize = head + added;
    wire.set(10, (count / 256) as u8);
    wire.set(11, (count % 256) as u8);
    match Message::parse(wire.as_slice(), Context::Unicast) {
        Ok(_) => Ok(wire),
        Err(e) => Err(e),
    }
}

proof fn lemma_aug_none(ans: Seq<RecordV>, target: Seq<Seq<u8>>, wire: Seq<u8>, recs: Seq<RecordV>, k: int)
    requires
        0 <= k <= ans.len(),
        aug_walk(ans, target, wire, recs, k) is None,
    ensures
        aug_walk(ans, target, wire, recs, ans.len() as int) is None,
    decreases ans.len() - k,
{
    if k < ans.len() {
        lemma_aug_none(ans, target, wire, recs, k + 1);
    }
}

} // verus!
