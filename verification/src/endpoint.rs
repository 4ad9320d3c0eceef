use vstd::prelude::*;

verus! {

/// A peer endpoint: the (address, port) pair that identifies one remote
/// party. The address is carried as its integer value (an IPv4 address
/// occupies the low 32 bits), so equality of endpoints is equality of
/// plain integers.
#[derive(PartialEq, Eq, Structural, Clone, Copy, Debug)]
pub struct Endpoint {
    pub ip: u128,
    pub port: u16,
}

impl Endpoint {
    /// Builds an endpoint from an address value and a port.
    pub fn new(ip: u128, port: u16) -> (r: Endpoint)
        ensures
            r.ip == ip,
            r.port == port,
    {
        Endpoint { ip, port }
    }
}

} // verus!
