//! Addresses as text: dotted decimal for IPv4, the canonical form of RFC 5952 for IPv6.
use super::IpAddress;
use crate::text::{all_ascii, ascii_chars, ascii_string};
use vstd::prelude::*;

verus! {

/// A decimal octet without leading zeros.
pub open spec fn dec(v: u8) -> Seq<u8> {
    if v >= 100 {
        seq![(48 + v / 100) as u8, (48 + (v / 10) % 10) as u8, (48 + v % 10) as u8]
    } else if v >= 10 {
        seq![(48 + v / 10) as u8, (48 + v % 10) as u8]
    } else {
        seq![(48 + v) as u8]
    }
}

/// `a.b.c.d`.
pub open spec fn v4_text(a: Seq<u8>) -> Seq<u8> {
    dec(a[0]) + seq![46u8] + dec(a[1]) + seq![46u8] + dec(a[2]) + seq![46u8] + dec(a[3])
}

pub open spec fn hex_char(v: int) -> u8 {
    if v < 10 {
        (48 + v) as u8
    } else {
        (87 + v) as u8
    }
}

/// A 16-bit group in lowercase hexadecimal without leading zeros.
pub open spec fn hex16(g: int) -> Seq<u8> {
    if g >= 4096 {
        seq![hex_char(g / 4096), hex_char((g / 256) % 16), hex_char((g / 16) % 16), hex_char(g % 16)]
    } else if g >= 256 {
        seq![hex_char(g / 256), hex_char((g / 16) % 16), hex_char(g % 16)]
    } else if g >= 16 {
        seq![hex_char(g / 16), hex_char(g % 16)]
    } else {
        seq![hex_char(g)]
    }
}

/// The `i`th 16-bit group.
pub open spec fn group(a: Seq<u8>, i: int) -> int {
    a[2 * i] * 256 + a[2 * i + 1]
}

/// The number of zero groups from `i` on.
pub open spec fn zero_run(a: Seq<u8>, i: int) -> int
    decreases 8 - i,
{
    if i < 0 || i >= 8 || group(a, i) != 0 {
        0
    } else {
        1 + zero_run(a, i + 1)
    }
}

/// The first longest run of zero groups at or after `i`, given the best so far.
pub open spec fn best_run(a: Seq<u8>, i: int, start: int, len: int) -> (int, int)
    decreases 8 - i,
{
    if i < 0 || i >= 8 {
        (start, len)
    } else if zero_run(a, i) > len {
        best_run(a, i + 1, i, zero_run(a, i))
    } else {
        best_run(a, i + 1, start, len)
    }
}

/// Groups `from..to` separated by colons.
pub open spec fn groups_text(a: Seq<u8>, from: int, to: int) -> Seq<u8>
    decreases to - from,
{
    if from >= to {
        Seq::empty()
    } else if from + 1 == to {
        hex16(group(a, from))
    } else {
        groups_text(a, from, to - 1) + seq![58u8] + hex16(group(a, to - 1))
    }
}

pub open spec fn v4_mapped(a: Seq<u8>) -> bool {
    &&& forall|i: int| 0 <= i < 10 ==> a[i] == 0
    &&& a[10] == 255
    &&& a[11] == 255
}

/// RFC 5952: an IPv4-mapped address in mixed notation; otherwise groups, with the first
/// longest run of two or more zero groups written `::`.
pub open spec fn v6_text(a: Seq<u8>) -> Seq<u8> {
    if v4_mapped(a) {
        seq![58u8, 58u8, 102u8, 102u8, 102u8, 102u8, 58u8] + v4_text(a.subrange(12, 16))
    } else {
        let (s, l) = best_run(a, 0, 0, 0);
        if l >= 2 {
            groups_text(a, 0, s) + seq![58u8, 58u8] + groups_text(a, s + l, 8)
        } else {
            groups_text(a, 0, 8)
        }
    }
}

pub open spec fn ip_text_bytes(ip: IpAddress) -> Seq<u8> {
    match ip {
        IpAddress::V4(a) => v4_text(a@),
        IpAddress::V6(a) => v6_text(a@),
    }
}

/// The text of an address.
pub open spec fn spec_ip_text(ip: IpAddress) -> Seq<char> {
    ascii_chars(ip_text_bytes(ip))
}

fn push_dec(out: &mut Vec<u8>, v: u8)
    ensures
        final(out)@ == old(out)@ + dec(v),
{
    let ghost before = out@;
    if v >= 100 {
        out.push(48 + v / 100);
        out.push(48 + (v / 10) % 10);
        out.push(48 + v % 10);
    } else if v >= 10 {
        out.push(48 + v / 10);
        out.push(48 + v % 10);
    } else {
        out.push(48 + v);
    }
    assert(out@ =~= before + dec(v));
}

fn hex_exec(v: u16) -> (r: u8)
    requires
        v < 16,
    ensures
        r == hex_char(v as int),
{
    if v < 10 {
        48 + v as u8
    } else {
        87 + v as u8
    }
}

fn push_hex16(out: &mut Vec<u8>, g: u16)
    ensures
        final(out)@ == old(out)@ + hex16(g as int),
{
    let ghost before = out@;
    if g >= 4096 {
        out.push(hex_exec(g / 4096));
        out.push(hex_exec((g / 256) % 16));
        out.push(hex_exec((g / 16) % 16));
        out.push(hex_exec(g % 16));
    } else if g >= 256 {
        out.push(hex_exec(g / 256));
        out.push(hex_exec((g / 16) % 16));
        out.push(hex_exec(g % 16));
    } else if g >= 16 {
        out.push(hex_exec(g / 16));
        out.push(hex_exec(g % 16));
    } else {
        out.push(hex_exec(g));
    }
    assert(out@ =~= before + hex16(g as int));
}

fn push_v4(out: &mut Vec<u8>, a: [u8; 4])
    ensures
        final(out)@ == old(out)@ + v4_text(a@),
{
    let ghost before = out@;
    push_dec(out, a[0]);
    out.push(46);
    push_dec(out, a[1]);
    out.push(46);
    push_dec(out, a[2]);
    out.push(46);
    push_dec(out, a[3]);
    assert(out@ =~= before + v4_text(a@));
}

fn group_exec(a: &[u8; 16], i: usize) -> (r: u16)
    requires
        i < 8,
    ensures
        r == group(a@, i as int),
{
    (a[2 * i] as u16) * 256 + (a[2 * i + 1] as u16)
}

fn push_groups(out: &mut Vec<u8>, a: &[u8; 16], from: usize, to: usize)
    requires
        from <= to <= 8,
    ensures
        final(out)@ == old(out)@ + groups_text(a@, from as int, to as int),
{
    let ghost before = out@;
    let mut k: usize = from;
    assert(groups_text(a@, from as int, from as int) =~= Seq::<u8>::empty());
    assert(out@ =~= before + groups_text(a@, from as int, from as int));
    while k < to
        invariant
            from <= k <= to <= 8,
            out@ == before + groups_text(a@, from as int, k as int),
        decreases to - k,
    {
        let ghost mid = out@;
        if k > from {
            out.push(58);
        }
        push_hex16(out, group_exec(a, k));
        proof {
            if k == from {
                assert(groups_text(a@, from as int, k as int) =~= Seq::<u8>::empty());
                assert(out@ =~= before + groups_text(a@, from as int, k + 1));
            } else {
                assert(out@ =~= before + groups_text(a@, from as int, k + 1));
            }
        }
        k = k + 1;
    }
}

fn zero_run_exec(a: &[u8; 16], i: usize) -> (r: usize)
    requires
        i <= 8,
    ensures
        r == zero_run(a@, i as int),
        r <= 8 - i,
{
    let mut j: usize = i;
    while j < 8 && group_exec(a, j) == 0
        invariant
            i <= j <= 8,
            zero_run(a@, i as int) == (j - i) + zero_run(a@, j as int),
        decreases 8 - j,
    {
        j = j + 1;
    }
    j - i
}

proof fn lemma_best_run(a: Seq<u8>, i: int, start: int, len: int)
    requires
        0 <= i <= 8,
        0 <= start,
        0 <= len,
        start + len <= 8,
    ensures
        best_run(a, i, start, len).0 >= 0,
        best_run(a, i, start, len).1 >= 0,
        best_run(a, i, start, len).0 + best_run(a, i, start, len).1 <= 8,
    decreases 8 - i,
{
    if i < 8 {
        lemma_zero_run(a, i);
        if zero_run(a, i) > len {
            lemma_best_run(a, i + 1, i, zero_run(a, i));
        } else {
            lemma_best_run(a, i + 1, start, len);
        }
    }
}

proof fn lemma_zero_run(a: Seq<u8>, i: int)
    requires
        0 <= i <= 8,
    ensures
        0 <= zero_run(a, i) <= 8 - i,
    decreases 8 - i,
{
    if i < 8 && group(a, i) == 0 {
        lemma_zero_run(a, i + 1);
    }
}

/// The text of an address.
pub fn ip_text(ip: &IpAddress) -> (r: String)
    ensures
        r@ == spec_ip_text(*ip),
{
    let mut out: Vec<u8> = Vec::new();
    match ip {
        IpAddress::V4(a) => {
            push_v4(&mut out, *a);
            assert(out@ =~= v4_text(a@));
        },
        IpAddress::V6(a) => {
            let mut mapped = a[10] == 255 && a[11] == 255;
            let mut i: usize = 0;
            while i < 10
                invariant
                    i <= 10,
                    mapped == (a@[10] == 255 && a@[11] == 255 && forall|j: int| 0 <= j < i ==> a@[j] == 0),
                decreases 10 - i,
            {
                mapped = mapped && a[i] == 0;
                i = i + 1;
            }
            if mapped {
                out.push(58);
                out.push(58);
                out.push(102);
                out.push(102);
                out.push(102);
                out.push(102);
                out.push(58);
                let tail: [u8; 4] = [a[12], a[13], a[14], a[15]];
                assert(tail@ =~= a@.subrange(12, 16));
                push_v4(&mut out, tail);
                assert(out@ =~= v6_text(a@));
            } else {
                let mut start: usize = 0;
                let mut len: usize = 0;
                let mut k: usize = 0;
                while k < 8
                    invariant
                        k <= 8,
                        start + len <= 8,
                        best_run(a@, 0, 0, 0) == best_run(a@, k as int, start as int, len as int),
                    decreases 8 - k,
                {
                    let run = zero_run_exec(a, k);
                    if run > len {
                        start = k;
                        len = run;
                    }
                    k = k + 1;
                }
                if len >= 2 {
                    push_groups(&mut out, a, 0, start);
                    out.push(58);
                    out.push(58);
                    push_groups(&mut out, a, start + len, 8);
                    assert(out@ =~= v6_text(a@));
                } else {
                    push_groups(&mut out, a, 0, 8);
                    assert(out@ =~= v6_text(a@));
                }
            }
        },
    }
    proof {
        assert(out@ == ip_text_bytes(*ip));
        lemma_text_ascii(*ip);
    }
    ascii_string(out)
}

proof fn lemma_dec_ascii(v: u8)
    ensures
        all_ascii(dec(v)),
{
}

proof fn lemma_hex16_ascii(g: int)
    requires
        0 <= g < 65536,
    ensures
        all_ascii(hex16(g)),
{
}

proof fn lemma_groups_ascii(a: Seq<u8>, from: int, to: int)
    requires
        a.len() == 16,
        0 <= from,
        to <= 8,
    ensures
        all_ascii(groups_text(a, from, to)),
    decreases to - from,
{
    if from < to {
        if from + 1 == to {
            lemma_hex16_ascii(group(a, from));
        } else {
            lemma_groups_ascii(a, from, to - 1);
            lemma_hex16_ascii(group(a, to - 1));
        }
    }
}

proof fn lemma_text_ascii(ip: IpAddress)
    ensures
        all_ascii(ip_text_bytes(ip)),
{
    match ip {
        IpAddress::V4(a) => {
            lemma_dec_ascii(a[0]);
            lemma_dec_ascii(a[1]);
            lemma_dec_ascii(a[2]);
            lemma_dec_ascii(a[3]);
        },
        IpAddress::V6(a) => {
            if v4_mapped(a@) {
                let t = a@.subrange(12, 16);
                lemma_dec_ascii(t[0]);
                lemma_dec_ascii(t[1]);
                lemma_dec_ascii(t[2]);
                lemma_dec_ascii(t[3]);
            } else {
                lemma_best_run(a@, 0, 0, 0);
                let (s, l) = best_run(a@, 0, 0, 0);
                lemma_groups_ascii(a@, 0, s);
                lemma_groups_ascii(a@, s + l, 8);
                lemma_groups_ascii(a@, 0, 8);
            }
        },
    }
}

} // verus!
