//! Checks on the two native links before the router opens them.
use crate::error::Error;
use crate::io::{LinkInfo, NativeFraming};
use vstd::prelude::*;

verus! {

#[derive(Clone, Copy, Debug)]
pub struct LinkStatus {
    pub administrative_up: bool,
    pub carrier: bool,
}

impl LinkStatus {
    /// A link carries packets only when it is up and has carrier.
    pub fn usable(self) -> (r: bool)
        ensures
            r == (self.administrative_up && self.carrier),
    {
        self.administrative_up && self.carrier
    }
}

#[derive(Clone, Debug)]
pub struct DescriptorInfo {
    pub name: String,
    pub framing: NativeFraming,
}

/// What the operating system reports about links and descriptors.
pub trait NativeQueries {
    fn status(&self, name: &String) -> Result<LinkStatus, Error>;

    fn bridge(&self, name: &String) -> Result<Option<u32>, Error>;

    fn descriptor(&self, fd: i32) -> Result<DescriptorInfo, Error>;
}

/// Why a pair of links or a descriptor was refused.
#[derive(Clone, Copy, Debug, PartialEq, Eq, Structural)]
pub enum PlatformError {
    /// The operating system could not answer.
    Query,
    /// The AIL and the stub are the same interface.
    SameInterface,
    /// The AIL and the stub share a bridge or master.
    SharedBridge,
    /// The descriptor does not belong to the named interface with that framing.
    Mismatch,
}

/// Whether two distinct links with these bridge masters may be used together.
pub open spec fn spec_bridges_apart(index0: u32, index1: u32, a: Option<u32>, b: Option<u32>) -> bool {
    !((a is Some && (a == b || a == Some(index1))) || b == Some(index0))
}

/// The verdict on two distinct links given the bridge master of each.
pub fn bridges_apart(index0: u32, index1: u32, a: Option<u32>, b: Option<u32>) -> (r: bool)
    ensures
        r == spec_bridges_apart(index0, index1, a, b),
{
    let shared = match a {
        Some(x) => match b {
            Some(y) => x == y || x == index1,
            None => x == index1,
        },
        None => false,
    };
    let back = match b {
        Some(y) => y == index0,
        None => false,
    };
    !(shared || back)
}

/// The verdict on an AIL/stub pair: one interface, a shared bridge, or usable.
pub open spec fn spec_pair_verdict(index0: u32, index1: u32, a: Option<u32>, b: Option<u32>) -> Result<(), PlatformError> {
    if index0 == index1 {
        Err(PlatformError::SameInterface)
    } else if !spec_bridges_apart(index0, index1, a, b) {
        Err(PlatformError::SharedBridge)
    } else {
        Ok(())
    }
}

/// The verdict on an AIL/stub pair given the bridge master of each.
pub fn pair_verdict(index0: u32, index1: u32, a: Option<u32>, b: Option<u32>) -> (r: Result<(), PlatformError>)
    ensures
        r == spec_pair_verdict(index0, index1, a, b),
{
    if index0 == index1 {
        return Err(PlatformError::SameInterface);
    }
    if !bridges_apart(index0, index1, a, b) {
        return Err(PlatformError::SharedBridge);
    }
    Ok(())
}

/// Refuses an AIL/stub pair that is one interface or shares a bridge. Two distinct
/// interfaces are judged by `pair_verdict` on the bridge masters that `query` reports for
/// them (their own names are what is asked); a failed query is `Query`.
pub fn validate_pair_with<Q: NativeQueries>(info: &[LinkInfo; 2], query: &Q) -> (r: Result<(), PlatformError>)
    ensures
        r == Err::<(), PlatformError>(PlatformError::SameInterface) <==> info[0].index == info[1].index,
        r == Err::<(), PlatformError>(PlatformError::Query) || exists|a: Option<u32>, b: Option<u32>|
            r == spec_pair_verdict(info[0].index, info[1].index, a, b),
{
    if info[0].index == info[1].index {
        assert(spec_pair_verdict(info[0].index, info[1].index, None, None) == Err::<(), PlatformError>(PlatformError::SameInterface));
        return Err(PlatformError::SameInterface);
    }
    let a = match query.bridge(&info[0].name) {
        Ok(a) => a,
        Err(_) => return Err(PlatformError::Query),
    };
    let b = match query.bridge(&info[1].name) {
        Ok(b) => b,
        Err(_) => return Err(PlatformError::Query),
    };
    pair_verdict(info[0].index, info[1].index, a, b)
}

/// Refuses a descriptor that the operating system places on another interface or framing.
pub fn validate_descriptor_with<Q: NativeQueries>(
    fd: i32,
    name: &String,
    framing: NativeFraming,
    query: &Q,
) -> (r: Result<(), PlatformError>)
    ensures
        r is Ok || r == Err::<(), PlatformError>(PlatformError::Query) || r == Err::<(), PlatformError>(
            PlatformError::Mismatch,
        ),
{
    let observed = match query.descriptor(fd) {
        Ok(o) => o,
        Err(_) => return Err(PlatformError::Query),
    };
    if !observed.name.eq(name) || observed.framing != framing {
        return Err(PlatformError::Mismatch);
    }
    Ok(())
}

/// The verdict on a descriptor given what the operating system reports for it.
pub fn descriptor_matches(observed: &DescriptorInfo, name: &String, framing: NativeFraming) -> (r: bool)
    ensures
        r == (observed.name@ == name@ && observed.framing == framing),
{
    observed.name.eq(name) && observed.framing == framing
}

} // verus!
