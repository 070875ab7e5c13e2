//! IPv4 addresses, socket endpoints and CIDR ranges as plain numbers.

use crate::decimal::{decimal_text, push_decimal};
use vstd::arithmetic::power2::{lemma2_to64, pow2};
use vstd::bits::lemma_u32_shr_is_div;
use vstd::prelude::*;
use vstd::string::StringExecFns;

verus! {

/// An IPv4 address, held as the 32-bit number whose most significant byte is
/// the first octet.
#[derive(Clone, Copy, Debug, PartialEq, Eq, Structural)]
pub struct Address {
    pub bits: u32,
}

/// The number that four octets spell, first octet most significant.
pub open spec fn octets_value(a: u8, b: u8, c: u8, d: u8) -> int {
    a as int * 0x100_0000 + b as int * 0x1_0000 + c as int * 0x100 + d as int
}

impl Address {
    /// The address `a.b.c.d`.
    pub fn from_octets(a: u8, b: u8, c: u8, d: u8) -> (result: Address)
        ensures
            result.bits as int == octets_value(a, b, c, d),
    {
        let bits: u32 = (a as u32) * 0x100_0000 + (b as u32) * 0x1_0000 + (c as u32) * 0x100 + (
        d as u32);
        Address { bits }
    }

    /// The four octets of the address, first octet first.
    pub fn octets(&self) -> (result: (u8, u8, u8, u8))
        ensures
            octets_value(result.0, result.1, result.2, result.3) == self.bits as int,
            result.0 == self.bits / 0x100_0000,
            result.1 == (self.bits / 0x1_0000) % 0x100,
            result.2 == (self.bits / 0x100) % 0x100,
            result.3 == self.bits % 0x100,
    {
        let a: u8 = (self.bits / 0x100_0000) as u8;
        let b: u8 = ((self.bits / 0x1_0000) % 0x100) as u8;
        let c: u8 = ((self.bits / 0x100) % 0x100) as u8;
        let d: u8 = (self.bits % 0x100) as u8;
        (a, b, c, d)
    }
}

impl Address {
    /// Writes the address in dotted notation.
    pub fn to_text(&self) -> (result: String)
        ensures
            result@ == address_text(self.bits),
    {
        let (a, b, c, d) = self.octets();
        let mut out = String::new();
        proof {
            reveal_strlit(".");
        }
        push_decimal(&mut out, a as u32);
        out.append(".");
        push_decimal(&mut out, b as u32);
        out.append(".");
        push_decimal(&mut out, c as u32);
        out.append(".");
        push_decimal(&mut out, d as u32);
        assert(out@ =~= address_text(self.bits));
        out
    }
}

/// The address and UDP port that the server binds to.
#[derive(Clone, Copy, Debug, PartialEq, Eq, Structural)]
pub struct Endpoint {
    pub address: Address,
    pub port: u16,
}

/// A CIDR range: an address together with the number of its leading bits that
/// are common to every address of the range. The address keeps its host bits,
/// so `10.33.7.1/24` and `10.33.7.0/24` are different values that cover the
/// same addresses.
#[derive(Clone, Copy, Debug, PartialEq, Eq, Structural)]
pub struct IpRange {
    pub address: Address,
    pub prefix_len: u8,
}

impl IpRange {
    /// A range is well formed when its prefix is no longer than an address.
    pub open spec fn wf(&self) -> bool {
        self.prefix_len <= 32
    }

    /// True when `ip` shares the leading `prefix_len` bits of the range's
    /// address.
    pub open spec fn covers(&self, ip: Address) -> bool {
        ip.bits as nat / pow2((32 - self.prefix_len) as nat) == self.address.bits as nat / pow2(
            (32 - self.prefix_len) as nat,
        )
    }

    /// The range of `prefix_len` leading bits around `address`, or `None`
    /// when the prefix is longer than 32 bits.
    pub fn new(address: Address, prefix_len: u8) -> (result: Option<IpRange>)
        ensures
            result == if prefix_len <= 32 {
                Some((IpRange { address, prefix_len }))
            } else {
                None
            },
    {
        if prefix_len <= 32 {
            Some(IpRange { address, prefix_len })
        } else {
            None
        }
    }

    /// The range that holds `address` and nothing else.
    pub fn host(address: Address) -> (result: IpRange)
        ensures
            result == (IpRange { address, prefix_len: 32 }),
            result.wf(),
            forall|ip: Address| result.covers(ip) <==> ip == address,
    {
        proof {
            assert forall|ip: Address| (IpRange { address, prefix_len: 32 }).covers(ip) <==> ip
                == address by {
                lemma_host_range_covers(address, ip);
            }
        }
        IpRange { address, prefix_len: 32 }
    }

    /// Tells whether `ip` lies in the range.
    pub fn contains(&self, ip: Address) -> (result: bool)
        requires
            self.wf(),
        ensures
            result == self.covers(ip),
    {
        if self.prefix_len == 0 {
            proof {
                lemma2_to64();
                assert(pow2((32 - self.prefix_len) as nat) == 0x1_0000_0000);
                assert(ip.bits as nat / 0x1_0000_0000 == 0);
                assert(self.address.bits as nat / 0x1_0000_0000 == 0);
            }
            true
        } else {
            let shift: u32 = 32 - self.prefix_len as u32;
            proof {
                lemma_u32_shr_is_div(ip.bits, shift);
                lemma_u32_shr_is_div(self.address.bits, shift);
                assert(shift as nat == (32 - self.prefix_len) as nat);
            }
            (ip.bits >> shift) == (self.address.bits >> shift)
        }
    }
}

/// True when every range of the sequence is well formed.
pub open spec fn ranges_wf(ranges: Seq<IpRange>) -> bool {
    forall|i: int| 0 <= i < ranges.len() ==> (#[trigger] ranges[i]).wf()
}

/// Tells whether every range of the list is well formed.
pub fn ranges_well_formed(ranges: &Vec<IpRange>) -> (result: bool)
    ensures
        result == ranges_wf(ranges@),
{
    let mut i: usize = 0;
    while i < ranges.len()
        invariant
            i <= ranges.len(),
            forall|j: int| 0 <= j < i ==> (#[trigger] ranges@[j]).wf(),
        decreases ranges.len() - i,
    {
        if ranges[i].prefix_len > 32 {
            return false;
        }
        i = i + 1;
    }
    true
}

/// A range of prefix 32 covers its own address and no other.
pub proof fn lemma_host_range_covers(address: Address, ip: Address)
    ensures
        (IpRange { address, prefix_len: 32 }).covers(ip) <==> ip == address,
{
    lemma2_to64();
    let range = IpRange { address, prefix_len: 32 };
    assert((32 - range.prefix_len) as nat == 0);
    assert(range.covers(ip) == (ip.bits == address.bits));
}

/// The dotted spelling of an address: four decimal octets.
pub open spec fn address_text(bits: u32) -> Seq<char> {
    decimal_text((bits / 0x100_0000) as nat) + seq!['.'] + decimal_text(
        ((bits / 0x1_0000) % 0x100) as nat,
    ) + seq!['.'] + decimal_text(((bits / 0x100) % 0x100) as nat) + seq!['.'] + decimal_text(
        (bits % 0x100) as nat,
    )
}

/// The CIDR spelling of a range: the dotted address, a slash, the prefix.
pub open spec fn range_text(range: IpRange) -> Seq<char> {
    address_text(range.address.bits) + seq!['/'] + decimal_text(range.prefix_len as nat)
}

/// The address bits and prefix that `ipnet` reads from a text, if it accepts
/// the text as an IPv4 network.
pub uninterp spec fn ipv4net_parsed(text: Seq<char>) -> Option<(u32, u8)>;

/// The range that a CIDR text denotes.
pub open spec fn parsed_range(text: Seq<char>) -> Option<IpRange> {
    match ipv4net_parsed(text) {
        Some(pair) => Some((IpRange { address: Address { bits: pair.0 }, prefix_len: pair.1 })),
        None => None,
    }
}

/// Calls `ipnet`'s `FromStr` for `Ipv4Net`. Trusted: the outcome depends on
/// the text alone, and an accepted network has a prefix of at most 32 bits.
#[verifier::external_body]
fn ipv4net_from_str(text: &str) -> (result: Option<(u32, u8)>)
    ensures
        result == ipv4net_parsed(text@),
        result matches Some(pair) ==> pair.1 <= 32,
{
    match text.parse::<ipnet::Ipv4Net>() {
        Ok(net) => Some((net.addr().into(), net.prefix_len())),
        Err(_) => None,
    }
}

/// Calls `ipnet`'s `Display` for `Ipv4Net`. Trusted: the text is the dotted
/// address, a slash and the prefix in decimal, and `ipnet` reads that text
/// back as the same address and prefix.
#[verifier::external_body]
fn ipv4net_to_string(bits: u32, prefix_len: u8) -> (result: String)
    requires
        prefix_len <= 32,
    ensures
        result@ == range_text((IpRange { address: Address { bits }, prefix_len })),
        ipv4net_parsed(result@) == Some((bits, prefix_len)),
{
    ipnet::Ipv4Net::new(bits.into(), prefix_len).unwrap().to_string()
}

/// Raised for a text that is no IPv4 network in CIDR notation.
#[derive(Clone, Copy, Debug, PartialEq, Eq, Structural)]
pub struct RangeSyntaxError;

impl IpRange {
    /// Reads a range from CIDR notation, such as `10.33.7.0/24`.
    pub fn parse(text: &str) -> (result: Result<IpRange, RangeSyntaxError>)
        ensures
            result == match parsed_range(text@) {
                Some(range) => Ok::<IpRange, RangeSyntaxError>(range),
                None => Err(RangeSyntaxError),
            },
            result matches Ok(range) ==> range.wf(),
    {
        match ipv4net_from_str(text) {
            Some(pair) => Ok(IpRange { address: Address { bits: pair.0 }, prefix_len: pair.1 }),
            None => Err(RangeSyntaxError),
        }
    }

    /// Writes the range in CIDR notation. The text reads back as the same
    /// range.
    pub fn to_text(&self) -> (result: String)
        requires
            self.wf(),
        ensures
            result@ == range_text(*self),
            parsed_range(result@) == Some(*self),
    {
        ipv4net_to_string(self.address.bits, self.prefix_len)
    }
}

} // verus!
