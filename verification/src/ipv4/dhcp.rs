//! DHCPv4 leases for the AIL.
use crate::ipv4::{routes_view, Route, RouteV};
use wire::names_view;
use vstd::prelude::*;

pub mod wire;

verus! {

/// What a lease configures on the AIL.
#[derive(Clone, Debug)]
pub struct Configuration {
    pub address: [u8; 4],
    pub length: u8,
    pub routes: Vec<Route>,
    pub dns: Vec<[u8; 4]>,
    pub search: Vec<Vec<Vec<u8>>>,
}

/// A lease and its renewal, rebinding and expiry times.
#[derive(Clone, Debug)]
pub struct Lease {
    pub config: Configuration,
    pub server: [u8; 4],
    pub t1: u64,
    pub t2: u64,
    pub expires: u64,
}

pub struct ConfigurationV {
    pub address: Seq<u8>,
    pub length: u8,
    pub routes: Seq<RouteV>,
    pub dns: Seq<Seq<u8>>,
    pub search: Seq<Seq<Seq<u8>>>,
}

pub struct LeaseV {
    pub config: ConfigurationV,
    pub server: Seq<u8>,
    pub t1: u64,
    pub t2: u64,
    pub expires: u64,
}

pub open spec fn addrs_view(v: Seq<[u8; 4]>) -> Seq<Seq<u8>> {
    v.map_values(|a: [u8; 4]| a@)
}

impl View for Configuration {
    type V = ConfigurationV;

    open spec fn view(&self) -> ConfigurationV {
        ConfigurationV {
            address: self.address@,
            length: self.length,
            routes: routes_view(self.routes@),
            dns: addrs_view(self.dns@),
            search: names_view(self.search@),
        }
    }
}

impl View for Lease {
    type V = LeaseV;

    open spec fn view(&self) -> LeaseV {
        LeaseV { config: self.config@, server: self.server@, t1: self.t1, t2: self.t2, expires: self.expires }
    }
}

} // verus!
