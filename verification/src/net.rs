//! IP addresses and prefixes, and the two address crates that read and write them.

use crate::text::decimal_text;
use vstd::arithmetic::power2::*;
use vstd::prelude::*;

verus! {

/// An IP address, as the number that its bits make.
#[derive(Clone, Copy, Debug, PartialEq, Eq, Structural)]
pub enum IpAddr {
    V4(u32),
    V6(u128),
}

/// An address and a number of leading bits, such as `10.0.0.5/24`. The bits after those may be
/// set: see [`Prefix::is_network`].
#[derive(Clone, Copy, Debug, PartialEq, Eq, Structural)]
pub struct Prefix {
    pub addr: IpAddr,
    pub len: u8,
}

impl IpAddr {
    /// The number of bits of the address.
    pub open spec fn width(self) -> nat {
        match self {
            IpAddr::V4(_) => 32,
            IpAddr::V6(_) => 128,
        }
    }

    /// The address as a number.
    pub open spec fn number(self) -> nat {
        match self {
            IpAddr::V4(n) => n as nat,
            IpAddr::V6(n) => n as nat,
        }
    }

    /// Whether both addresses are of one family.
    pub open spec fn same_family(self, other: IpAddr) -> bool {
        (self is V4) == (other is V4)
    }

    /// The prefix of the first `len` bits, with the bits after them cleared.
    pub open spec fn cut(self, len: nat) -> Prefix {
        let rest = pow2((self.width() - len) as nat);
        let number = self.number() / rest * rest;
        Prefix {
            addr: match self {
                IpAddr::V4(_) => IpAddr::V4(number as u32),
                IpAddr::V6(_) => IpAddr::V6(number as u128),
            },
            len: len as u8,
        }
    }

    /// The prefix that holds this address alone.
    pub open spec fn host_prefix(self) -> Prefix {
        Prefix { addr: self, len: self.width() as u8 }
    }

    /// The prefix that holds this address alone.
    pub fn host(self) -> (prefix: Prefix)
        ensures
            prefix == self.host_prefix(),
            prefix.valid(),
    {
        match self {
            IpAddr::V4(_) => Prefix { addr: self, len: 32 },
            IpAddr::V6(_) => Prefix { addr: self, len: 128 },
        }
    }
}

impl Prefix {
    /// Whether the length fits the address.
    pub open spec fn valid(self) -> bool {
        self.len <= self.addr.width()
    }

    /// Whether every bit after the leading ones is clear.
    pub open spec fn is_network(self) -> bool {
        self.addr.number() % pow2((self.addr.width() - self.len) as nat) == 0
    }

    /// Whether `ip` is of the same family and agrees with the prefix in the leading bits.
    pub open spec fn contains(self, ip: IpAddr) -> bool {
        let rest = pow2((self.addr.width() - self.len) as nat);
        self.addr.same_family(ip) && self.addr.number() / rest == ip.number() / rest
    }
}

/// `ipnet::AddrParseError`, why a text is no prefix; nothing in it is read.
#[verifier::external_type_specification]
#[verifier::external_body]
pub struct ExAddrParseError(ipnet::AddrParseError);

/// `ip_network::IpNetworkParseError`, why a text is no network; nothing in it is read.
#[verifier::external_type_specification]
#[verifier::external_body]
pub struct ExIpNetworkParseError(ip_network::IpNetworkParseError);

/// What the standard library displays for an address.
pub uninterp spec fn text_of_address(ip: IpAddr) -> Seq<char>;

/// A prefix as text: the address, a slash and the length.
pub open spec fn text_of_prefix(prefix: Prefix) -> Seq<char> {
    text_of_address(prefix.addr) + "/"@ + decimal_text(prefix.len as nat)
}

/// What `ipnet::IpNet` parses from a text: nothing where it is refused.
pub uninterp spec fn prefix_of_text(text: Seq<char>) -> Option<Prefix>;

/// What `ip_network::IpNetwork` parses from a text: nothing where it is refused.
pub uninterp spec fn network_of_text(text: Seq<char>) -> Option<Prefix>;

/// The address as text, by `Display` of the standard library's `IpAddr`, which
/// `ipnet::IpNet::addr` gives back as it was put in.
#[verifier::external_body]
pub(crate) fn address_text(ip: &IpAddr) -> (text: String)
    ensures
        text@ == text_of_address(*ip),
{
    let addr = match *ip {
        IpAddr::V4(n) => n.to_be_bytes().into(),
        IpAddr::V6(n) => n.to_be_bytes().into(),
    };
    ipnet::IpNet::new(addr, 0).unwrap().addr().to_string()
}

/// The prefix as text, by `Display` of `ipnet::IpNet`: the address, a slash and the length.
/// `ipnet::IpNet::new` takes every length that fits the address.
#[verifier::external_body]
pub(crate) fn prefix_text(prefix: &Prefix) -> (text: String)
    requires
        prefix.valid(),
    ensures
        text@ == text_of_prefix(*prefix),
{
    let addr = match prefix.addr {
        IpAddr::V4(n) => n.to_be_bytes().into(),
        IpAddr::V6(n) => n.to_be_bytes().into(),
    };
    ipnet::IpNet::new(addr, prefix.len).unwrap().to_string()
}

/// The prefix that a text stands for, by `FromStr` of `ipnet::IpNet`, which keeps the bits after
/// the leading ones. What `ipnet::IpNet` displays for a prefix is read back as that prefix.
#[verifier::external_body]
pub(crate) fn parse_prefix(text: &str) -> (result: Result<Prefix, ipnet::AddrParseError>)
    ensures
        match result {
            Ok(prefix) => prefix_of_text(text@) == Some(prefix) && prefix.valid(),
            Err(_) => prefix_of_text(text@) is None,
        },
        forall|p: Prefix|
            p.valid() && text@ == #[trigger] text_of_prefix(p) ==> match result {
                Ok(prefix) => prefix == p,
                Err(_) => false,
            },
{
    text.parse::<ipnet::IpNet>().map(
        |net| match net {
            ipnet::IpNet::V4(n) => Prefix {
                addr: IpAddr::V4(u32::from(n.addr())),
                len: n.prefix_len(),
            },
            ipnet::IpNet::V6(n) => Prefix {
                addr: IpAddr::V6(u128::from(n.addr())),
                len: n.prefix_len(),
            },
        },
    )
}

/// The network that a text stands for, by `FromStr` of `ip_network::IpNetwork`, which refuses an
/// address with a bit set after the leading ones. It reads what `ipnet::IpNet` displays for a
/// prefix as that prefix, and refuses it exactly where such a bit is set.
#[verifier::external_body]
pub(crate) fn parse_network(text: &str) -> (result: Result<
    Prefix,
    ip_network::IpNetworkParseError,
>)
    ensures
        match result {
            Ok(network) => network_of_text(text@) == Some(network) && network.valid()
                && network.is_network(),
            Err(_) => network_of_text(text@) is None,
        },
        forall|p: Prefix|
            p.valid() && text@ == #[trigger] text_of_prefix(p) ==> match result {
                Ok(network) => p.is_network() && network == p,
                Err(_) => !p.is_network(),
            },
{
    text.parse::<ip_network::IpNetwork>().map(
        |network| match network {
            ip_network::IpNetwork::V4(n) => Prefix {
                addr: IpAddr::V4(u32::from(n.network_address())),
                len: n.netmask(),
            },
            ip_network::IpNetwork::V6(n) => Prefix {
                addr: IpAddr::V6(u128::from(n.network_address())),
                len: n.netmask(),
            },
        },
    )
}

} // verus!
