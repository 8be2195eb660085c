//! Transport addresses: an IPv4 host and a TCP port.
use vstd::prelude::*;

verus! {

/// Where a peer accepts connections: an IPv4 host and a TCP port.
#[derive(Clone, Copy, Debug)]
pub struct Address {
    pub ip: [u8; 4],
    pub port: u16,
}

impl Address {
    pub fn new(ip: [u8; 4], port: u16) -> (r: Address)
        ensures
            r.ip == ip,
            r.port == port,
    {
        Address { ip, port }
    }

    /// Whether two addresses name the same host and port.
    pub fn same_as(&self, other: &Address) -> (r: bool)
        ensures
            r == (self.ip@ == other.ip@ && self.port == other.port),
    {
        let r = self.ip[0] == other.ip[0] && self.ip[1] == other.ip[1] && self.ip[2] == other.ip[2]
            && self.ip[3] == other.ip[3] && self.port == other.port;
        proof {
            if r {
                assert(self.ip@ =~= other.ip@);
            }
        }
        r
    }
}

} // verus!
