use vstd::prelude::*;

verus! {

/// The two links that the router joins: the adjacent infrastructure link and the stub link.
#[derive(Clone, Copy, Debug, PartialEq, Eq, Structural)]
pub enum Link {
    Ail,
    Stub,
}

impl Link {
    pub open spec fn spec_index(self) -> int {
        match self {
            Link::Ail => 0,
            Link::Stub => 1,
        }
    }

    /// Position of the link in per-link tables.
    pub fn index(self) -> (r: usize)
        ensures
            r == self.spec_index(),
    {
        match self {
            Link::Ail => 0,
            Link::Stub => 1,
        }
    }

    /// The link on the other side of the router.
    pub fn other(self) -> (r: Link)
        ensures
            r != self,
            r.spec_index() == 1 - self.spec_index(),
    {
        match self {
            Link::Ail => Link::Stub,
            Link::Stub => Link::Ail,
        }
    }
}

} // verus!

pub mod bytes;
pub mod config;
pub mod digest;
pub mod error;
pub mod discovery_proxy;
pub mod dns;
pub mod io;
pub mod ip_reassembly;
pub mod ipv4;
pub mod mdns;
pub mod nat64;
pub mod persist;
pub mod platform;
pub mod text;
pub mod time;
