//! RFC 6146 section 3.5.2 transport state; this is not a TCP endpoint.
use vstd::prelude::*;

verus! {

pub const ESTABLISHED: u64 = 7_200_000;
pub const TRANSITORY: u64 = 240_000;

#[derive(Clone, Copy, Debug, PartialEq, Eq, Structural)]
pub enum State {
    V4Init,
    V6Init,
    Established,
    V4Fin,
    V6Fin,
    BothFin,
    Transitory,
}

pub open spec fn sat_add64(a: u64, b: u64) -> u64 {
    if a + b > u64::MAX { u64::MAX } else { (a + b) as u64 }
}

/// The next state and expiry after one packet with the given flags (FIN 1, SYN 2, RST 4)
/// seen from the IPv6 side (`v6`) or the IPv4 side.
pub open spec fn spec_packet(s: State, v6: bool, flags: u8, expires: u64, now: u64) -> (State, u64) {
    let syn = (flags / 2) % 2 == 1;
    let fin = flags % 2 == 1;
    let rst = (flags / 4) % 2 == 1;
    let est = sat_add64(now, ESTABLISHED);
    let trans = sat_add64(now, TRANSITORY);
    match s {
        State::V4Init => if v6 && syn { (State::Established, est) } else { (s, expires) },
        State::V6Init => if !v6 && syn { (State::Established, est) } else if v6 && syn { (s, trans) } else { (s, expires) },
        State::BothFin => (s, expires),
        State::Established => if fin {
            (if v6 { State::V6Fin } else { State::V4Fin }, expires)
        } else if rst {
            (State::Transitory, trans)
        } else {
            (s, est)
        },
        State::V4Fin => if v6 && fin { (State::BothFin, trans) } else { (s, est) },
        State::V6Fin => if !v6 && fin { (State::BothFin, trans) } else { (s, est) },
        State::Transitory => if !rst { (State::Established, est) } else { (s, expires) },
    }
}

fn sadd(a: u64, b: u64) -> (r: u64)
    ensures
        r == sat_add64(a, b),
{
    if a > u64::MAX - b { u64::MAX } else { a + b }
}

impl State {
    /// Advances the session state for one packet.
    pub fn packet(self, v6: bool, flags: u8, expires: u64, now: u64) -> (r: (State, u64))
        ensures
            r == spec_packet(self, v6, flags, expires, now),
    {
        let syn = (flags / 2) % 2 == 1;
        let fin = flags % 2 == 1;
        let rst = (flags / 4) % 2 == 1;
        let est = sadd(now, ESTABLISHED);
        let trans = sadd(now, TRANSITORY);
        match self {
            State::V4Init => if v6 && syn { (State::Established, est) } else { (self, expires) },
            State::V6Init => if !v6 && syn {
                (State::Established, est)
            } else if v6 && syn {
                (self, trans)
            } else {
                (self, expires)
            },
            State::BothFin => (self, expires),
            State::Established => if fin {
                (if v6 { State::V6Fin } else { State::V4Fin }, expires)
            } else if rst {
                (State::Transitory, trans)
            } else {
                (self, est)
            },
            State::V4Fin => if v6 && fin { (State::BothFin, trans) } else { (self, est) },
            State::V6Fin => if !v6 && fin { (State::BothFin, trans) } else { (self, est) },
            State::Transitory => if !rst { (State::Established, est) } else { (self, expires) },
        }
    }
}

} // verus!
