use vstd::prelude::*;

verus! {

/// An IP address as plain bits: an IPv4 address as the big-endian value of
/// its four octets, an IPv6 address as the big-endian value of its sixteen.
#[derive(Clone, Copy, Debug, PartialEq, Eq, Structural)]
pub enum IpAddress {
    V4(u32),
    V6(u128),
}

impl IpAddress {
    /// The position of an address in the order of addresses: every IPv4
    /// address comes before every IPv6 address, and within a family the
    /// numeric value decides.
    pub open spec fn rank(self) -> int {
        match self {
            IpAddress::V4(a) => a as int,
            IpAddress::V6(a) => 0x1_0000_0000 + a,
        }
    }

    /// Whether `self` comes strictly before `other` in the order of addresses.
    pub fn precedes(&self, other: &IpAddress) -> (res: bool)
        ensures
            res == (self.rank() < other.rank()),
    {
        match (self, other) {
            (IpAddress::V4(a), IpAddress::V4(b)) => *a < *b,
            (IpAddress::V4(_), IpAddress::V6(_)) => true,
            (IpAddress::V6(_), IpAddress::V4(_)) => false,
            (IpAddress::V6(a), IpAddress::V6(b)) => *a < *b,
        }
    }
}

/// The transport protocol of a probe.
#[derive(Clone, Copy, Debug, PartialEq, Eq, Structural)]
pub enum Protocol {
    Tcp,
    Udp,
}

/// What a probe learned about a port.
#[derive(Clone, Copy, Debug, PartialEq, Eq, Structural)]
pub enum PortState {
    Open,
    OpenOrFiltered,
}

/// One port found open (or possibly open) on one host.
#[derive(Debug)]
pub struct ScanResult {
    pub ip: IpAddress,
    pub port: u16,
    pub protocol: Protocol,
    pub state: PortState,
    pub banner: Option<String>,
}

impl Clone for ScanResult {
    fn clone(&self) -> (res: Self)
        ensures
            res == *self,
    {
        let banner = match &self.banner {
            Some(b) => Some(b.clone()),
            None => None,
        };
        ScanResult {
            ip: self.ip,
            port: self.port,
            protocol: self.protocol,
            state: self.state,
            banner,
        }
    }
}

/// Whether a host answered during host discovery.
#[derive(Clone, Copy, Debug, PartialEq, Eq, Structural)]
pub struct HostInfo {
    pub ip: IpAddress,
    pub is_up: bool,
}

} // verus!
