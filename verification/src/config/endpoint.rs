//! Resolver endpoints given on the command line: `A.B.C.D:PORT` or `[IPV6]:PORT`, the IPv6
//! address as eight hexadecimal groups or with one `::` standing for the zero groups.
use crate::dns::privacy::{IpAddress, SocketAddress};
use crate::dns::upstream::discovery::arr16;
use vstd::prelude::*;
use vstd::string::*;

verus! {

pub open spec fn is_digit(c: char) -> bool {
    '0' <= c <= '9'
}

pub open spec fn hex_value(c: char) -> Option<int> {
    if '0' <= c <= '9' {
        Some(c as int - '0' as int)
    } else if 'a' <= c <= 'f' {
        Some(c as int - 'a' as int + 10)
    } else if 'A' <= c <= 'F' {
        Some(c as int - 'A' as int + 10)
    } else {
        None
    }
}

/// The value of decimal digits.
pub open spec fn dec_value(s: Seq<char>) -> int
    decreases s.len(),
{
    if s.len() == 0 {
        0
    } else {
        dec_value(s.drop_last()) * 10 + (s.last() as int - '0' as int)
    }
}

/// The value of hexadecimal digits.
pub open spec fn hex_value_of(s: Seq<char>) -> int
    decreases s.len(),
{
    if s.len() == 0 {
        0
    } else {
        hex_value_of(s.drop_last()) * 16 + match hex_value(s.last()) {
            Some(v) => v,
            None => 0,
        }
    }
}

/// A port: one to five decimal digits, at most 65535.
pub open spec fn spec_port(s: Seq<char>) -> Option<u16> {
    if 1 <= s.len() <= 5 && (forall|i: int| 0 <= i < s.len() ==> is_digit(#[trigger] s[i])) && dec_value(s) <= 65535 {
        Some(dec_value(s) as u16)
    } else {
        None
    }
}

/// An IPv4 octet: one to three decimal digits without a leading zero, at most 255.
pub open spec fn spec_octet(s: Seq<char>) -> Option<u8> {
    if 1 <= s.len() <= 3 && (forall|i: int| 0 <= i < s.len() ==> is_digit(#[trigger] s[i])) && !(s.len() > 1 && s[0]
        == '0') && dec_value(s) <= 255 {
        Some(dec_value(s) as u8)
    } else {
        None
    }
}

/// An IPv6 group: one to four hexadecimal digits.
pub open spec fn spec_group(s: Seq<char>) -> Option<u16> {
    if 1 <= s.len() <= 4 && (forall|i: int| 0 <= i < s.len() ==> hex_value(#[trigger] s[i]) is Some) {
        Some(hex_value_of(s) as u16)
    } else {
        None
    }
}

/// The text split at each `sep` (an empty text gives one empty field).
pub open spec fn split_on(s: Seq<char>, sep: char) -> Seq<Seq<char>>
    decreases s.len(),
{
    if s.len() == 0 {
        seq![Seq::empty()]
    } else {
        let prev = split_on(s.drop_last(), sep);
        if s.last() == sep {
            prev.push(Seq::empty())
        } else {
            prev.update(prev.len() - 1, prev.last().push(s.last()))
        }
    }
}

pub open spec fn spec_v4(s: Seq<char>) -> Option<[u8; 4]> {
    let p = split_on(s, '.');
    if p.len() == 4 && spec_octet(p[0]) is Some && spec_octet(p[1]) is Some && spec_octet(p[2]) is Some && spec_octet(
        p[3],
    ) is Some {
        Some([spec_octet(p[0])->0, spec_octet(p[1])->0, spec_octet(p[2])->0, spec_octet(p[3])->0])
    } else {
        None
    }
}

/// The groups of one side of an IPv6 address (none for an empty side).
pub open spec fn groups(s: Seq<char>) -> Option<Seq<u16>> {
    if s.len() == 0 {
        Some(Seq::empty())
    } else {
        let p = split_on(s, ':');
        if forall|i: int| 0 <= i < p.len() ==> spec_group(#[trigger] p[i]) is Some {
            Some(p.map_values(|f: Seq<char>| spec_group(f)->0))
        } else {
            None
        }
    }
}

pub open spec fn dc_at(s: Seq<char>, i: int) -> bool {
    0 <= i < s.len() - 1 && s[i] == ':' && s[i + 1] == ':'
}

/// Where `::` first stands.
pub open spec fn double_colon(s: Seq<char>) -> Option<int> {
    if exists|i: int| #[trigger] dc_at(s, i) {
        Some(choose|i: int| #[trigger] dc_at(s, i) && forall|j: int| 0 <= j < i ==> !dc_at(s, j))
    } else {
        None
    }
}

/// The eight groups of an IPv6 address.
pub open spec fn spec_v6_groups(s: Seq<char>) -> Option<Seq<u16>> {
    match double_colon(s) {
        None => match groups(s) {
            Some(g) => if g.len() == 8 && s.len() > 0 { Some(g) } else { None },
            None => None,
        },
        Some(i) => match (groups(s.take(i)), groups(s.skip(i + 2))) {
            (Some(l), Some(r)) => if l.len() + r.len() <= 7 {
                Some(l + Seq::new((8 - l.len() - r.len()) as nat, |k: int| 0u16) + r)
            } else {
                None
            },
            _ => None,
        },
    }
}

pub open spec fn group_bytes(g: Seq<u16>) -> Seq<u8> {
    Seq::new(16, |k: int| if k % 2 == 0 { (g[k / 2] / 256) as u8 } else { (g[k / 2] % 256) as u8 })
}

/// `A.B.C.D:PORT` or `[IPV6]:PORT`.
pub open spec fn spec_endpoint(s: Seq<char>) -> Option<SocketAddress> {
    if s.len() > 0 && s[0] == '[' {
        match close_bracket(s) {
            None => None,
            Some(k) => if k + 1 < s.len() && s[k + 1] == ':' {
                match (spec_v6_groups(s.subrange(1, k)), spec_port(s.skip(k + 2))) {
                    (Some(g), Some(p)) => Some(SocketAddress { ip: IpAddress::V6(arr16(group_bytes(g))), port: p }),
                    _ => None,
                }
            } else {
                None
            },
        }
    } else {
        match last_colon(s) {
            None => None,
            Some(k) => match (spec_v4(s.take(k)), spec_port(s.skip(k + 1))) {
                (Some(a), Some(p)) => Some(SocketAddress { ip: IpAddress::V4(a), port: p }),
                _ => None,
            },
        }
    }
}

/// Where the first `]` stands.
pub open spec fn close_bracket(s: Seq<char>) -> Option<int> {
    if exists|i: int| 0 <= i < s.len() && s[i] == ']' {
        Some(choose|i: int| 0 <= i < s.len() && s[i] == ']' && forall|j: int| 0 <= j < i ==> s[j] != ']')
    } else {
        None
    }
}

/// Where the last `:` stands.
pub open spec fn last_colon(s: Seq<char>) -> Option<int> {
    if exists|i: int| 0 <= i < s.len() && s[i] == ':' {
        Some(choose|i: int| 0 <= i < s.len() && s[i] == ':' && forall|j: int| i < j < s.len() ==> s[j] != ':')
    } else {
        None
    }
}

/// The characters of a string.
pub fn chars_of(s: &String) -> (r: Vec<char>)
    ensures
        r@ == s@,
{
    let t = s.as_str();
    let n = t.unicode_len();
    let mut out: Vec<char> = Vec::new();
    let mut i: usize = 0;
    while i < n
        invariant
            n == t@.len(),
            t@ == s@,
            i <= n,
            out@ == t@.take(i as int),
        decreases n - i,
    {
        let c = t.get_char(i);
        out.push(c);
        i = i + 1;
        assert(out@ =~= t@.take(i as int));
    }
    assert(t@.take(i as int) =~= t@);
    out
}

proof fn lemma_dec_bound(s: Seq<char>)
    requires
        forall|i: int| 0 <= i < s.len() ==> is_digit(#[trigger] s[i]),
    ensures
        0 <= dec_value(s) < pow10(s.len()),
    decreases s.len(),
{
    if s.len() > 0 {
        let d = s.drop_last();
        assert forall|i: int| 0 <= i < d.len() implies is_digit(#[trigger] d[i]) by {
            assert(d[i] == s[i]);
        }
        lemma_dec_bound(d);
        assert(is_digit(s[s.len() - 1]));
    }
}

pub open spec fn pow10(n: nat) -> int
    decreases n,
{
    if n == 0 {
        1
    } else {
        10 * pow10((n - 1) as nat)
    }
}

fn dec_exec(v: &Vec<char>, a: usize, b: usize) -> (r: u32)
    requires
        a <= b <= v@.len(),
        b - a <= 5,
        forall|i: int| a <= i < b ==> is_digit(#[trigger] v@[i]),
    ensures
        r == dec_value(v@.subrange(a as int, b as int)),
{
    let mut x: u32 = 0;
    let mut i: usize = a;
    while i < b
        invariant
            a <= i <= b <= v@.len(),
            b - a <= 5,
            forall|k: int| a <= k < b ==> is_digit(#[trigger] v@[k]),
            x == dec_value(v@.subrange(a as int, i as int)),
        decreases b - i,
    {
        let ghost t = v@.subrange(a as int, i + 1);
        assert(t.drop_last() =~= v@.subrange(a as int, i as int));
        proof {
            assert forall|k: int| 0 <= k < t.len() implies is_digit(#[trigger] t[k]) by {
                assert(t[k] == v@[a + k]);
            }
            lemma_dec_bound(t);
            reveal_with_fuel(pow10, 6);
            assert(is_digit(v@[i as int]));
        }
        let c = v[i];
        x = x * 10 + ((c as u32) - ('0' as u32));
        i = i + 1;
    }
    x
}

fn all_digits(v: &Vec<char>, a: usize, b: usize) -> (r: bool)
    requires
        a <= b <= v@.len(),
    ensures
        r == forall|i: int| 0 <= i < b - a ==> is_digit(#[trigger] v@.subrange(a as int, b as int)[i]),
{
    let mut i: usize = a;
    while i < b
        invariant
            a <= i <= b <= v@.len(),
            forall|k: int| a <= k < i ==> is_digit(#[trigger] v@[k]),
        decreases b - i,
    {
        if !(v[i] >= '0' && v[i] <= '9') {
            assert(v@.subrange(a as int, b as int)[i - a] == v@[i as int]);
            return false;
        }
        i = i + 1;
    }
    assert forall|k: int| 0 <= k < b - a implies is_digit(#[trigger] v@.subrange(a as int, b as int)[k]) by {
        assert(v@.subrange(a as int, b as int)[k] == v@[a + k]);
    }
    true
}

pub fn port_exec(v: &Vec<char>, a: usize, b: usize) -> (r: Option<u16>)
    requires
        a <= b <= v@.len(),
    ensures
        r == spec_port(v@.subrange(a as int, b as int)),
{
    let ghost t = v@.subrange(a as int, b as int);
    if b - a < 1 || b - a > 5 || !all_digits(v, a, b) {
        return None;
    }
    proof {
        assert forall|i: int| a <= i < b implies is_digit(#[trigger] v@[i]) by {
            assert(t[i - a] == v@[i]);
        }
    }
    let x = dec_exec(v, a, b);
    if x > 65535 {
        return None;
    }
    Some(x as u16)
}

pub fn octet_exec(v: &Vec<char>, a: usize, b: usize) -> (r: Option<u8>)
    requires
        a <= b <= v@.len(),
    ensures
        r == spec_octet(v@.subrange(a as int, b as int)),
{
    let ghost t = v@.subrange(a as int, b as int);
    if b - a < 1 || b - a > 3 || !all_digits(v, a, b) {
        return None;
    }
    assert(t[0] == v@[a as int]);
    if b - a > 1 && v[a] == '0' {
        return None;
    }
    proof {
        assert forall|i: int| a <= i < b implies is_digit(#[trigger] v@[i]) by {
            assert(t[i - a] == v@[i]);
        }
    }
    let x = dec_exec(v, a, b);
    if x > 255 {
        return None;
    }
    Some(x as u8)
}

fn hex_exec(c: char) -> (r: Option<u32>)
    ensures
        match hex_value(c) {
            None => r is None,
            Some(x) => r == Some(x as u32),
        },
{
    if c >= '0' && c <= '9' {
        Some((c as u32) - ('0' as u32))
    } else if c >= 'a' && c <= 'f' {
        Some((c as u32) - ('a' as u32) + 10)
    } else if c >= 'A' && c <= 'F' {
        Some((c as u32) - ('A' as u32) + 10)
    } else {
        None
    }
}

proof fn lemma_hex_bound(s: Seq<char>)
    requires
        forall|i: int| 0 <= i < s.len() ==> hex_value(#[trigger] s[i]) is Some,
    ensures
        0 <= hex_value_of(s) < pow16(s.len()),
    decreases s.len(),
{
    if s.len() > 0 {
        let d = s.drop_last();
        assert forall|i: int| 0 <= i < d.len() implies hex_value(#[trigger] d[i]) is Some by {
            assert(d[i] == s[i]);
        }
        lemma_hex_bound(d);
        assert(hex_value(s[s.len() - 1]) is Some);
    }
}

pub open spec fn pow16(n: nat) -> int
    decreases n,
{
    if n == 0 {
        1
    } else {
        16 * pow16((n - 1) as nat)
    }
}

pub fn group_exec(v: &Vec<char>, a: usize, b: usize) -> (r: Option<u16>)
    requires
        a <= b <= v@.len(),
    ensures
        r == spec_group(v@.subrange(a as int, b as int)),
{
    let ghost t = v@.subrange(a as int, b as int);
    if b - a < 1 || b - a > 4 {
        return None;
    }
    let mut x: u32 = 0;
    let mut i: usize = a;
    while i < b
        invariant
            a <= i <= b <= v@.len(),
            b - a <= 4,
            t == v@.subrange(a as int, b as int),
            forall|k: int| a <= k < i ==> hex_value(#[trigger] v@[k]) is Some,
            x == hex_value_of(v@.subrange(a as int, i as int)),
        decreases b - i,
    {
        let ghost u = v@.subrange(a as int, i + 1);
        assert(u.drop_last() =~= v@.subrange(a as int, i as int));
        let h = match hex_exec(v[i]) {
            Some(h) => h,
            None => {
                assert(t[i - a] == v@[i as int]);
                return None;
            },
        };
        proof {
            assert forall|k: int| 0 <= k < u.len() implies hex_value(#[trigger] u[k]) is Some by {
                assert(u[k] == v@[a + k]);
            }
            lemma_hex_bound(u);
            reveal_with_fuel(pow16, 5);
        }
        x = x * 16 + h;
        i = i + 1;
    }
    assert forall|k: int| 0 <= k < t.len() implies hex_value(#[trigger] t[k]) is Some by {
        assert(t[k] == v@[a + k]);
    }
    proof {
        lemma_hex_bound(t);
        reveal_with_fuel(pow16, 5);
    }
    Some(x as u16)
}

/// The ranges of the fields of `v[a..b]` split at `sep`.
pub fn split_exec(v: &Vec<char>, a: usize, b: usize, sep: char) -> (r: Vec<(usize, usize)>)
    requires
        a <= b <= v@.len(),
    ensures
        r@.len() == split_on(v@.subrange(a as int, b as int), sep).len(),
        forall|k: int| 0 <= k < r@.len() ==> a <= (#[trigger] r@[k]).0 <= r@[k].1 <= b && v@.subrange(r@[k].0 as int, r@[k].1 as int)
            == split_on(v@.subrange(a as int, b as int), sep)[k],
{
    let mut out: Vec<(usize, usize)> = Vec::new();
    out.push((a, a));
    let mut i: usize = a;
    assert(v@.subrange(a as int, a as int) =~= Seq::<char>::empty());
    assert(split_on(v@.subrange(a as int, a as int), sep) =~= seq![Seq::<char>::empty()]);
    while i < b
        invariant
            a <= i <= b <= v@.len(),
            out@.len() == split_on(v@.subrange(a as int, i as int), sep).len(),
            out@.len() >= 1,
            out@[out@.len() - 1].1 == i,
            forall|k: int| 0 <= k < out@.len() ==> a <= (#[trigger] out@[k]).0 <= out@[k].1 <= i && v@.subrange(
                out@[k].0 as int,
                out@[k].1 as int,
            ) == split_on(v@.subrange(a as int, i as int), sep)[k],
        decreases b - i,
    {
        let ghost prev = split_on(v@.subrange(a as int, i as int), sep);
        let ghost t = v@.subrange(a as int, i + 1);
        assert(t.drop_last() =~= v@.subrange(a as int, i as int));
        assert(t.last() == v@[i as int]);
        let ghost o = out@;
        if v[i] == sep {
            out.push((i + 1, i + 1));
            assert(v@.subrange(i + 1, i + 1) =~= Seq::<char>::empty());
            assert forall|k: int| 0 <= k < out@.len() implies a <= (#[trigger] out@[k]).0 <= out@[k].1 <= i + 1 && v@.subrange(
                out@[k].0 as int,
                out@[k].1 as int,
            ) == split_on(t, sep)[k] by {
                if k < o.len() {
                    assert(out@[k] == o[k]);
                }
            }
        } else {
            let last = out.len() - 1;
            let (s0, _) = out[last];
            out.set(last, (s0, i + 1));
            assert(v@.subrange(s0 as int, i + 1) =~= v@.subrange(s0 as int, i as int).push(v@[i as int]));
            assert forall|k: int| 0 <= k < out@.len() implies a <= (#[trigger] out@[k]).0 <= out@[k].1 <= i + 1 && v@.subrange(
                out@[k].0 as int,
                out@[k].1 as int,
            ) == split_on(t, sep)[k] by {
                if k < last {
                    assert(out@[k] == o[k]);
                }
            }
        }
        i = i + 1;
    }
    out
}

pub fn v4_exec(v: &Vec<char>, a: usize, b: usize) -> (r: Option<[u8; 4]>)
    requires
        a <= b <= v@.len(),
    ensures
        r == spec_v4(v@.subrange(a as int, b as int)),
{
    let ghost p = split_on(v@.subrange(a as int, b as int), '.');
    let f = split_exec(v, a, b, '.');
    if f.len() != 4 {
        return None;
    }
    let o0 = octet_exec(v, f[0].0, f[0].1);
    let o1 = octet_exec(v, f[1].0, f[1].1);
    let o2 = octet_exec(v, f[2].0, f[2].1);
    let o3 = octet_exec(v, f[3].0, f[3].1);
    assert(f@[0] == f@[0]);
    match (o0, o1, o2, o3) {
        (Some(x0), Some(x1), Some(x2), Some(x3)) => Some([x0, x1, x2, x3]),
        _ => None,
    }
}

pub fn groups_exec(v: &Vec<char>, a: usize, b: usize) -> (r: Option<Vec<u16>>)
    requires
        a <= b <= v@.len(),
    ensures
        match groups(v@.subrange(a as int, b as int)) {
            None => r is None,
            Some(g) => r matches Some(x) && x@ == g,
        },
{
    let ghost t = v@.subrange(a as int, b as int);
    if a == b {
        let e: Vec<u16> = Vec::new();
        assert(e@ =~= Seq::<u16>::empty());
        return Some(e);
    }
    let ghost p = split_on(t, ':');
    let f = split_exec(v, a, b, ':');
    let mut out: Vec<u16> = Vec::new();
    let mut k: usize = 0;
    while k < f.len()
        invariant
            k <= f@.len(),
            a < b <= v@.len(),
            f@.len() == p.len(),
            p == split_on(t, ':'),
            t == v@.subrange(a as int, b as int),
            forall|j: int| 0 <= j < f@.len() ==> a <= (#[trigger] f@[j]).0 <= f@[j].1 <= b && v@.subrange(f@[j].0 as int, f@[j].1 as int) == p[j],
            forall|j: int| 0 <= j < k ==> spec_group(#[trigger] p[j]) is Some,
            out@ == p.take(k as int).map_values(|x: Seq<char>| spec_group(x)->0),
        decreases f@.len() - k,
    {
        let (s0, s1) = f[k];
        assert(f@[k as int] == (s0, s1));
        let g = match group_exec(v, s0, s1) {
            Some(g) => g,
            None => {
                assert(spec_group(p[k as int]) is None);
                return None;
            },
        };
        out.push(g);
        k = k + 1;
        assert(out@ =~= p.take(k as int).map_values(|x: Seq<char>| spec_group(x)->0));
    }
    assert(p.take(k as int) =~= p);
    Some(out)
}

pub fn v6_exec(v: &Vec<char>, a: usize, b: usize) -> (r: Option<[u8; 16]>)
    requires
        a <= b <= v@.len(),
    ensures
        match spec_v6_groups(v@.subrange(a as int, b as int)) {
            None => r is None,
            Some(g) => r matches Some(x) && x@ == group_bytes(g),
        },
{
    let ghost t = v@.subrange(a as int, b as int);
    let mut i: usize = a;
    let mut found = false;
    while b - i > 1 && !found
        invariant
            a <= i <= b <= v@.len(),
            t == v@.subrange(a as int, b as int),
            forall|j: int| 0 <= j < i - a ==> !dc_at(t, j),
            found ==> dc_at(t, i - a),
        decreases b - i + (if found { 0int } else { 1int }),
    {
        if v[i] == ':' && v[i + 1] == ':' {
            assert(t[i - a] == v@[i as int] && t[i - a + 1] == v@[i + 1]);
            found = true;
        } else {
            assert(t[i - a] == v@[i as int] && t[i - a + 1] == v@[i + 1]);
            i = i + 1;
        }
    }
    let gs: Vec<u16> = if found {
        let ghost d = (i - a) as int;
        proof {
            let c = choose|x: int| #[trigger] dc_at(t, x) && forall|j: int| 0 <= j < x ==> !dc_at(t, j);
            assert(dc_at(t, d) && forall|j: int| 0 <= j < d ==> !dc_at(t, j));
            if c < d {
                assert(!dc_at(t, c));
            } else if c > d {
                assert(!dc_at(t, d));
            }
            assert(double_colon(t) == Some(d));
            assert(t.take(d) =~= v@.subrange(a as int, i as int));
            assert(t.skip(d + 2) =~= v@.subrange(i + 2, b as int));
        }
        let l = match groups_exec(v, a, i) {
            Some(l) => l,
            None => return None,
        };
        let r = match groups_exec(v, i + 2, b) {
            Some(r) => r,
            None => return None,
        };
        if l.len() > 7 || r.len() > 7 - l.len() {
            return None;
        }
        let mut g: Vec<u16> = Vec::new();
        let mut k: usize = 0;
        while k < l.len()
            invariant
                k <= l@.len(),
                g@ == l@.take(k as int),
            decreases l@.len() - k,
        {
            g.push(l[k]);
            k = k + 1;
            assert(g@ =~= l@.take(k as int));
        }
        let zeros = 8 - l.len() - r.len();
        let mut z: usize = 0;
        while z < zeros
            invariant
                z <= zeros,
                g@ == l@ + Seq::new(z as nat, |q: int| 0u16),
            decreases zeros - z,
        {
            g.push(0);
            z = z + 1;
            assert(g@ =~= l@ + Seq::new(z as nat, |q: int| 0u16));
        }
        let ghost mid = g@;
        let mut k: usize = 0;
        while k < r.len()
            invariant
                k <= r@.len(),
                g@ == mid + r@.take(k as int),
            decreases r@.len() - k,
        {
            g.push(r[k]);
            k = k + 1;
            assert(g@ =~= mid + r@.take(k as int));
        }
        assert(l@.take(l@.len() as int) =~= l@);
        assert(r@.take(r@.len() as int) =~= r@);
        g
    } else {
        proof {
            assert forall|x: int| !#[trigger] dc_at(t, x) by {
                if dc_at(t, x) {
                    assert(0 <= x < i - a || x + a >= i);
                }
            }
            assert(double_colon(t) is None);
        }
        if a == b {
            return None;
        }
        let g = match groups_exec(v, a, b) {
            Some(g) => g,
            None => return None,
        };
        if g.len() != 8 {
            return None;
        }
        g
    };
    let mut out: [u8; 16] = [0u8; 16];
    let mut k: usize = 0;
    while k < 8
        invariant
            k <= 8,
            gs@.len() == 8,
            forall|j: int| 0 <= j < 2 * k ==> out@[j] == group_bytes(gs@)[j],
        decreases 8 - k,
    {
        let x = gs[k];
        out.set(2 * k, (x / 256) as u8);
        out.set(2 * k + 1, (x % 256) as u8);
        k = k + 1;
    }
    assert(out@ =~= group_bytes(gs@));
    Some(out)
}

/// Reads `A.B.C.D:PORT` or `[IPV6]:PORT`.
pub fn parse_endpoint(s: &String) -> (r: Option<SocketAddress>)
    ensures
        r == spec_endpoint(s@),
{
    let v = chars_of(s);
    let n = v.len();
    if n > 0 && v[0] == '[' {
        let mut k: usize = 0;
        while k < n && v[k] != ']'
            invariant
                k <= n == v@.len(),
                v@ == s@,
                forall|j: int| 0 <= j < k ==> v@[j] != ']',
            decreases n - k,
        {
            k = k + 1;
        }
        if k == n {
            assert(close_bracket(s@) is None);
            return None;
        }
        proof {
            let c = choose|i: int| 0 <= i < s@.len() && s@[i] == ']' && forall|j: int| 0 <= j < i ==> s@[j] != ']';
            assert(0 <= k < s@.len() && s@[k as int] == ']' && forall|j: int| 0 <= j < k ==> s@[j] != ']');
            if c < k {
                assert(s@[c] != ']');
            } else if c > k {
                assert(s@[k as int] != ']');
            }
            assert(close_bracket(s@) == Some(k as int));
        }
        if !(k + 1 < n && v[k + 1] == ':') {
            return None;
        }
        if k < 1 {
            return None;
        }
        let g = v6_exec(&v, 1, k);
        let p = port_exec(&v, k + 2, n);
        assert(v@.skip(k + 2) =~= v@.subrange(k + 2, n as int));
        match (g, p) {
            (Some(a), Some(p)) => {
                proof {
                    let gs = spec_v6_groups(s@.subrange(1, k as int))->0;
                    let c = arr16(group_bytes(gs));
                    assert(c@ == group_bytes(gs));
                    assert(c@ =~= a@);
                    assert(c =~= a);
                }
                Some(SocketAddress { ip: IpAddress::V6(a), port: p })
            },
            _ => None,
        }
    } else {
        let mut k: usize = n;
        while k > 0 && v[k - 1] != ':'
            invariant
                k <= n == v@.len(),
                v@ == s@,
                forall|j: int| k <= j < n ==> v@[j] != ':',
            decreases k,
        {
            k = k - 1;
        }
        if k == 0 {
            assert(last_colon(s@) is None);
            return None;
        }
        let c = k - 1;
        proof {
            let x = choose|i: int| 0 <= i < s@.len() && s@[i] == ':' && forall|j: int| i < j < s@.len() ==> s@[j] != ':';
            assert(0 <= c < s@.len() && s@[c as int] == ':' && forall|j: int| c < j < s@.len() ==> s@[j] != ':');
            if x < c {
                assert(s@[c as int] != ':');
            } else if x > c {
                assert(s@[x] != ':');
            }
            assert(last_colon(s@) == Some(c as int));
        }
        let a = v4_exec(&v, 0, c);
        let p = port_exec(&v, c + 1, n);
        assert(v@.take(c as int) =~= v@.subrange(0, c as int));
        assert(v@.skip(c + 1) =~= v@.subrange(c + 1, n as int));
        match (a, p) {
            (Some(a), Some(p)) => Some(SocketAddress { ip: IpAddress::V4(a), port: p }),
            _ => None,
        }
    }
}

} // verus!
