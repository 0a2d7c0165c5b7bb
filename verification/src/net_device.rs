//! Network devices and the namespaces that they live in.
use crate::netns::INode;
use vstd::prelude::*;

verus! {

/// A device at the other end of a link, by its name and its namespace.
#[derive(Debug, PartialEq)]
pub struct PeerRef {
    pub name: String,
    pub netns: INode,
}

/// The kind of a network device.
#[derive(Debug, PartialEq)]
pub enum Kind {
    Ethernet,
    Wifi,
    Wwan,
    Ppp,
    Slip,
    Loopback,
    Veth { peer: PeerRef },
    Bridge { ports: Vec<PeerRef> },
    Bond { slaves: Vec<PeerRef> },
    Vlan { id: u16, parent: PeerRef },
    MacVlan { parent: PeerRef },
    IpVlan { parent: PeerRef },
    Vxlan { vni: u32 },
    Tun,
    Tap,
    Gre,
    Wireguard,
    Other(String),
}

/// A hardware address.
pub type Mac = [u8; 6];

/// The mask of an IPv4 address.
pub type Ipv4Mask = [u8; 4];

/// The mask of an IPv6 address.
pub type Ipv6Mask = [u8; 16];

} // verus!
