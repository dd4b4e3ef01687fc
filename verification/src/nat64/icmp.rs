//! RFC 7915 ICMP type and code translation; values are semantic MTUs or pointers.
use vstd::prelude::*;

verus! {

/// The first RFC 1191 plateau strictly below the quoted original length, or 0.
pub open spec fn plateau(quoted_length: u32) -> u32 {
    if 65535 < quoted_length {
        65535
    } else if 32000 < quoted_length {
        32000
    } else if 17914 < quoted_length {
        17914
    } else if 8166 < quoted_length {
        8166
    } else if 4352 < quoted_length {
        4352
    } else if 2002 < quoted_length {
        2002
    } else if 1492 < quoted_length {
        1492
    } else {
        0
    }
}

pub open spec fn sat_add(a: u32, b: u32) -> u32 {
    if a + b > u32::MAX { u32::MAX } else { (a + b) as u32 }
}

pub open spec fn sat_sub(a: u32, b: u32) -> u32 {
    if a < b { 0 } else { (a - b) as u32 }
}

pub open spec fn min32(a: u32, b: u32) -> u32 {
    if a < b { a } else { b }
}

pub open spec fn max32(a: u32, b: u32) -> u32 {
    if a > b { a } else { b }
}

/// ICMPv4 error to ICMPv6 (type, code, value).
pub open spec fn spec_v4_to_v6(kind: u8, code: u8, value: u32, quoted_length: u32, mtu4: u32, mtu6: u32) -> Option<
    (u8, u8, u32),
> {
    if kind == 3 && (code == 0 || code == 1 || code == 5 || code == 6 || code == 7 || code == 8 || code == 11 || code
        == 12) {
        Some((1, 0, 0))
    } else if kind == 3 && code == 2 {
        Some((4, 1, 6))
    } else if kind == 3 && code == 3 {
        Some((1, 4, 0))
    } else if kind == 3 && code == 4 {
        let mtu = if value == 0 { plateau(quoted_length) } else { value };
        Some((2, 0, max32(min32(min32(sat_add(mtu, 20), mtu6), sat_add(mtu4, 20)), 1280)))
    } else if kind == 3 && (code == 9 || code == 10 || code == 13 || code == 15) {
        Some((1, 1, 0))
    } else if kind == 11 && (code == 0 || code == 1) {
        Some((3, code, 0))
    } else if kind == 12 && (code == 0 || code == 2) {
        if value == 0 {
            Some((4, 0, 0))
        } else if value == 1 {
            Some((4, 0, 1))
        } else if value == 2 || value == 3 {
            Some((4, 0, 4))
        } else if value == 8 {
            Some((4, 0, 7))
        } else if value == 9 {
            Some((4, 0, 6))
        } else if 12 <= value <= 15 {
            Some((4, 0, 8))
        } else if 16 <= value <= 19 {
            Some((4, 0, 24))
        } else {
            None
        }
    } else {
        None
    }
}

/// ICMPv6 error to ICMPv4 (type, code, value).
pub open spec fn spec_v6_to_v4(kind: u8, code: u8, value: u32, mtu4: u32, mtu6: u32) -> Option<(u8, u8, u32)> {
    if kind == 1 && (code == 0 || code == 2 || code == 3) {
        Some((3, 1, 0))
    } else if kind == 1 && code == 1 {
        Some((3, 10, 0))
    } else if kind == 1 && code == 4 {
        Some((3, 3, 0))
    } else if kind == 2 && code == 0 {
        let v = min32(min32(sat_sub(value, 20), mtu4), sat_sub(mtu6, 20));
        Some((3, 4, if v < 68 { 68 } else if v > 65535 { 65535 } else { v }))
    } else if kind == 3 && (code == 0 || code == 1) {
        Some((11, code, 0))
    } else if kind == 4 && code == 0 {
        if value == 0 {
            Some((12, 0, 0))
        } else if value == 1 {
            Some((12, 0, 1))
        } else if value == 4 || value == 5 {
            Some((12, 0, 2))
        } else if value == 6 {
            Some((12, 0, 9))
        } else if value == 7 {
            Some((12, 0, 8))
        } else if 8 <= value <= 23 {
            Some((12, 0, 12))
        } else if 24 <= value <= 39 {
            Some((12, 0, 16))
        } else {
            None
        }
    } else if kind == 4 && code == 1 {
        Some((3, 2, 0))
    } else {
        None
    }
}

fn satu_add(a: u32, b: u32) -> (r: u32)
    ensures
        r == sat_add(a, b),
{
    if a > u32::MAX - b { u32::MAX } else { a + b }
}

fn satu_sub(a: u32, b: u32) -> (r: u32)
    ensures
        r == sat_sub(a, b),
{
    if a < b { 0 } else { a - b }
}

fn umin(a: u32, b: u32) -> (r: u32)
    ensures
        r == min32(a, b),
{
    if a < b { a } else { b }
}

/// Translates an ICMPv4 error to ICMPv6; None when it has no translation.
pub fn v4_to_v6(kind: u8, code: u8, value: u32, quoted_length: u32, mtu4: u32, mtu6: u32) -> (r: Option<(u8, u8, u32)>)
    ensures
        r == spec_v4_to_v6(kind, code, value, quoted_length, mtu4, mtu6),
{
    if kind == 3 && (code == 0 || code == 1 || code == 5 || code == 6 || code == 7 || code == 8 || code == 11 || code
        == 12) {
        Some((1, 0, 0))
    } else if kind == 3 && code == 2 {
        Some((4, 1, 6))
    } else if kind == 3 && code == 3 {
        Some((1, 4, 0))
    } else if kind == 3 && code == 4 {
        let mtu = if value == 0 {
            if 65535 < quoted_length {
                65535
            } else if 32000 < quoted_length {
                32000
            } else if 17914 < quoted_length {
                17914
            } else if 8166 < quoted_length {
                8166
            } else if 4352 < quoted_length {
                4352
            } else if 2002 < quoted_length {
                2002
            } else if 1492 < quoted_length {
                1492
            } else {
                0
            }
        } else {
            value
        };
        let v = umin(umin(satu_add(mtu, 20), mtu6), satu_add(mtu4, 20));
        Some((2, 0, if v > 1280 { v } else { 1280 }))
    } else if kind == 3 && (code == 9 || code == 10 || code == 13 || code == 15) {
        Some((1, 1, 0))
    } else if kind == 11 && (code == 0 || code == 1) {
        Some((3, code, 0))
    } else if kind == 12 && (code == 0 || code == 2) {
        if value == 0 {
            Some((4, 0, 0))
        } else if value == 1 {
            Some((4, 0, 1))
        } else if value == 2 || value == 3 {
            Some((4, 0, 4))
        } else if value == 8 {
            Some((4, 0, 7))
        } else if value == 9 {
            Some((4, 0, 6))
        } else if 12 <= value && value <= 15 {
            Some((4, 0, 8))
        } else if 16 <= value && value <= 19 {
            Some((4, 0, 24))
        } else {
            None
        }
    } else {
        None
    }
}

/// Translates an ICMPv6 error to ICMPv4; None when it has no translation.
pub fn v6_to_v4(kind: u8, code: u8, value: u32, mtu4: u32, mtu6: u32) -> (r: Option<(u8, u8, u32)>)
    ensures
        r == spec_v6_to_v4(kind, code, value, mtu4, mtu6),
{
    if kind == 1 && (code == 0 || code == 2 || code == 3) {
        Some((3, 1, 0))
    } else if kind == 1 && code == 1 {
        Some((3, 10, 0))
    } else if kind == 1 && code == 4 {
        Some((3, 3, 0))
    } else if kind == 2 && code == 0 {
        let v = umin(umin(satu_sub(value, 20), mtu4), satu_sub(mtu6, 20));
        Some((3, 4, if v < 68 { 68 } else if v > 65535 { 65535 } else { v }))
    } else if kind == 3 && (code == 0 || code == 1) {
        Some((11, code, 0))
    } else if kind == 4 && code == 0 {
        if value == 0 {
            Some((12, 0, 0))
        } else if value == 1 {
            Some((12, 0, 1))
        } else if value == 4 || value == 5 {
            Some((12, 0, 2))
        } else if value == 6 {
            Some((12, 0, 9))
        } else if value == 7 {
            Some((12, 0, 8))
        } else if 8 <= value && value <= 23 {
            Some((12, 0, 12))
        } else if 24 <= value && value <= 39 {
            Some((12, 0, 16))
        } else {
            None
        }
    } else if kind == 4 && code == 1 {
        Some((3, 2, 0))
    } else {
        None
    }
}

/// The errors that name one cause on both sides translate into each other, whatever the
/// value, quoted length and link MTUs: an ICMPv4 port unreachable is an ICMPv6 port
/// unreachable and back, protocol unreachable is a parameter problem pointing at the next
/// header and back, and a time exceeded keeps its code both ways.
pub proof fn lemma_errors_correspond(code: u8, value: u32, quoted_length: u32, mtu4: u32, mtu6: u32)
    ensures
        spec_v4_to_v6(3, 3, value, quoted_length, mtu4, mtu6) == Some((1u8, 4u8, 0u32)),
        spec_v6_to_v4(1, 4, value, mtu4, mtu6) == Some((3u8, 3u8, 0u32)),
        spec_v4_to_v6(3, 2, value, quoted_length, mtu4, mtu6) == Some((4u8, 1u8, 6u32)),
        spec_v6_to_v4(4, 1, value, mtu4, mtu6) == Some((3u8, 2u8, 0u32)),
        code <= 1 ==> spec_v4_to_v6(11, code, value, quoted_length, mtu4, mtu6) == Some((3u8, code, 0u32)),
        code <= 1 ==> spec_v6_to_v4(3, code, value, mtu4, mtu6) == Some((11u8, code, 0u32)),
{
}

/// A fragmentation-needed error becomes a packet-too-big error whose MTU is at least the
/// IPv6 minimum of 1280 and otherwise fits both links (the IPv4 one grown by the 20 octets of
/// header difference); a reported MTU that fits both is passed on grown by those 20 octets.
/// The other way, a packet-too-big error becomes a fragmentation-needed error whose MTU lies
/// between 68 and 65535 and otherwise fits the IPv4 link, the reported MTU shrunk by 20 and the
/// IPv6 link shrunk by 20; a reported MTU that fits is passed on shrunk by 20.
pub proof fn lemma_mtu_bounds(value: u32, quoted_length: u32, mtu4: u32, mtu6: u32)
    ensures
        spec_v4_to_v6(3, 4, value, quoted_length, mtu4, mtu6) matches Some((t, c, x)) && t == 2 && c == 0 && 1280
            <= x && (x <= mtu6 || x == 1280) && (x <= mtu4 + 20 || x == 1280) && (x <= value + 20 || x == 1280
            || value == 0),
        value != 0 && 1260 <= value && value + 20 <= mtu6 && value <= mtu4 ==> spec_v4_to_v6(
            3,
            4,
            value,
            quoted_length,
            mtu4,
            mtu6,
        ) == Some((2u8, 0u8, (value + 20) as u32)),
        spec_v6_to_v4(2, 0, value, mtu4, mtu6) matches Some((t, c, y)) && t == 3 && c == 4 && 68 <= y <= 65535 && (y
            <= mtu4 || y == 68) && (y + 20 <= value || y == 68) && (y + 20 <= mtu6 || y == 68),
        88 <= value && value - 20 <= 65535 && value - 20 <= mtu4 && value <= mtu6 ==> spec_v6_to_v4(2, 0, value, mtu4, mtu6)
            == Some((3u8, 4u8, (value - 20) as u32)),
{
}

/// A parameter-problem pointer at the start of an IPv4 header field comes back to the same
/// field after a translation to IPv6 and back.
pub proof fn lemma_pointer_round_trip(pointer: u32, quoted_length: u32, mtu4: u32, mtu6: u32)
    requires
        pointer == 0 || pointer == 1 || pointer == 2 || pointer == 8 || pointer == 9 || pointer == 12 || pointer == 16,
    ensures
        spec_v4_to_v6(12, 0, pointer, quoted_length, mtu4, mtu6) matches Some((t, c, p6)) && t == 4 && c == 0
            && spec_v6_to_v4(4, 0, p6, mtu4, mtu6) == Some((12u8, 0u8, pointer)),
{
}

} // verus!
