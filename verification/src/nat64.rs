//! Stateful NAT64 building blocks.
use vstd::prelude::*;



pub mod icmp;
pub mod selection;
pub mod tcp;

verus! {

/// How UDP inbound packets are filtered against existing sessions.
#[derive(Clone, Copy, Debug, PartialEq, Eq, Structural)]
pub enum UdpFiltering {
    AddressDependent,
    EndpointIndependent,
}

impl Default for UdpFiltering {
    fn default() -> (r: UdpFiltering)
        ensures
            r == UdpFiltering::AddressDependent,
    {
        UdpFiltering::AddressDependent
    }
}

/// Service readiness inputs to NAT64 selection.
#[derive(Clone, Copy, Debug)]
pub struct Readiness {
    pub pd: Option<u64>,
    pub ipv4: Option<u64>,
    pub stub: Option<u64>,
    pub translator: bool,
}

/// The NAT64 service this router provides.
#[derive(Clone, Copy, Debug, PartialEq, Eq, Structural)]
pub enum Mode {
    Disabled,
    NoService,
    Local,
    Infrastructure,
    Peer,
}

/// Where an advertised NAT64 prefix came from.
#[derive(Clone, Copy, Debug, PartialEq, Eq, Structural)]
pub enum Source {
    Local,
    Infrastructure,
    Configured,
}

} // verus!
