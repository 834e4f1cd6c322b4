//! Network packet parsing (Ethernet, IPv4, TCP, UDP), classification,
//! a first-match firewall and connection tracking.
use vstd::prelude::*;
use crate::text::{append_chars, string_from_chars};

verus! {

// ============================================================================
// Byte-order helpers
// ============================================================================

/// The big-endian value of two bytes.
pub open spec fn be16(hi: u8, lo: u8) -> int {
    hi * 256 + lo
}

/// The big-endian value of four bytes.
pub open spec fn be32(b0: u8, b1: u8, b2: u8, b3: u8) -> int {
    b0 * 16777216 + b1 * 65536 + b2 * 256 + b3
}

fn u16_from_be(hi: u8, lo: u8) -> (r: u16)
    ensures
        r == be16(hi, lo),
{
    (hi as u16) * 256 + (lo as u16)
}

fn u32_from_be(b0: u8, b1: u8, b2: u8, b3: u8) -> (r: u32)
    ensures
        r == be32(b0, b1, b2, b3),
{
    (b0 as u32) * 16777216 + (b1 as u32) * 65536 + (b2 as u32) * 256 + (b3 as u32)
}

// ============================================================================
// Ethernet layer
// ============================================================================

/// A 48-bit hardware address.
#[derive(Debug, Clone, Copy, PartialEq, Eq, Hash)]
pub struct MacAddress(pub [u8; 6]);

impl MacAddress {
    pub fn new(bytes: [u8; 6]) -> (r: Self)
        ensures
            r.0 == bytes,
    {
        MacAddress(bytes)
    }

    /// All six bytes are 0xFF.
    pub open spec fn spec_is_broadcast(self) -> bool {
        forall|i: int| 0 <= i < 6 ==> self.0@[i] == 0xFFu8
    }

    pub fn is_broadcast(&self) -> (r: bool)
        ensures
            r == self.spec_is_broadcast(),
    {
        let b = &self.0;
        let r = b[0] == 0xFF && b[1] == 0xFF && b[2] == 0xFF && b[3] == 0xFF && b[4] == 0xFF
            && b[5] == 0xFF;
        proof {
            if r {
                assert forall|i: int| 0 <= i < 6 implies self.0@[i] == 0xFFu8 by {
                    if i == 0 {} else if i == 1 {} else if i == 2 {} else if i == 3 {} else if i == 4 {} else {}
                }
            }
        }
        r
    }

    /// The group bit (lowest bit of the first byte) is set.
    pub fn is_multicast(&self) -> (r: bool)
        ensures
            r == ((self.0@[0] & 0x01u8) != 0u8),
    {
        (self.0[0] & 0x01) != 0
    }

    /// The address written as six upper-case hexadecimal pairs separated by ':'.
    pub fn to_text(&self) -> (s: String)
        ensures
            s@ == mac_text(self.0@),
    {
        let mut v: Vec<char> = Vec::new();
        let mut i: usize = 0;
        while i < 6
            invariant
                i <= 6,
                v@ == mac_text_prefix(self.0@, i as nat),
            decreases 6 - i,
        {
            if i > 0 {
                v.push(':');
            }
            let b = self.0[i];
            v.push(hex_upper(b / 16));
            v.push(hex_upper(b % 16));
            i = i + 1;
        }
        string_from_chars(v.as_slice())
    }
}

/// The upper-case hexadecimal digit of a value below 16.
pub open spec fn hex_digit(d: int) -> char {
    if d < 10 { (('0' as int) + d) as char } else { (('A' as int) + d - 10) as char }
}

fn hex_upper(d: u8) -> (c: char)
    requires
        d < 16,
    ensures
        c == hex_digit(d as int),
{
    if d < 10 { (('0' as u8) + d) as char } else { (('A' as u8) + d - 10) as char }
}

/// The first `n` bytes of a MAC address in colon-separated hexadecimal.
pub open spec fn mac_text_prefix(b: Seq<u8>, n: nat) -> Seq<char>
    decreases n,
{
    if n == 0 {
        Seq::empty()
    } else {
        let prev = mac_text_prefix(b, (n - 1) as nat);
        let sep = if n > 1 { prev.push(':') } else { prev };
        sep.push(hex_digit(b[n - 1] as int / 16)).push(hex_digit(b[n - 1] as int % 16))
    }
}

/// A MAC address in colon-separated hexadecimal, such as `00:11:22:AA:BB:CC`.
pub open spec fn mac_text(b: Seq<u8>) -> Seq<char> {
    mac_text_prefix(b, 6)
}

/// The protocol carried by an Ethernet frame.
#[derive(Debug, Clone, Copy, PartialEq, Eq)]
pub enum EtherType {
    IPv4,
    IPv6,
    ARP,
    Unknown(u16),
}

/// The EtherType named by a 16-bit value.
pub open spec fn ether_type_of(value: int) -> EtherType {
    if value == 0x0800 {
        EtherType::IPv4
    } else if value == 0x86DD {
        EtherType::IPv6
    } else if value == 0x0806 {
        EtherType::ARP
    } else {
        EtherType::Unknown(value as u16)
    }
}

impl EtherType {
    pub fn from_bytes(bytes: [u8; 2]) -> (r: Self)
        ensures
            r == ether_type_of(be16(bytes@[0], bytes@[1])),
    {
        let value = u16_from_be(bytes[0], bytes[1]);
        if value == 0x0800 {
            EtherType::IPv4
        } else if value == 0x86DD {
            EtherType::IPv6
        } else if value == 0x0806 {
            EtherType::ARP
        } else {
            EtherType::Unknown(value)
        }
    }
}

/// An Ethernet II frame.
#[derive(Debug, Clone)]
pub struct EthernetFrame {
    pub dst_mac: MacAddress,
    pub src_mac: MacAddress,
    pub ethertype: EtherType,
    pub payload: Vec<u8>,
}

/// Why a buffer could not be parsed.
#[derive(Debug, PartialEq)]
pub enum ParseError {
    TooShort { expected: usize, found: usize },
    InvalidProtocol(u8),
    Malformed(String),
}

fn mac_at(data: &[u8], at: usize) -> (m: MacAddress)
    requires
        at + 6 <= data@.len(),
    ensures
        m.0@ == data@.subrange(at as int, at + 6),
{
    let m = MacAddress::new([data[at], data[at + 1], data[at + 2], data[at + 3], data[at + 4], data[at + 5]]);
    assert(m.0@ =~= data@.subrange(at as int, at + 6));
    m
}

/// The bytes from `from` to the end, or nothing when `from` is past the end.
pub open spec fn tail_from(data: Seq<u8>, from: int) -> Seq<u8> {
    if data.len() > from { data.subrange(from, data.len() as int) } else { Seq::empty() }
}

fn copy_tail(data: &[u8], from: usize) -> (v: Vec<u8>)
    ensures
        v@ == tail_from(data@, from as int),
{
    if data.len() > from {
        vstd::slice::slice_to_vec(&data[from..data.len()])
    } else {
        Vec::new()
    }
}

impl EthernetFrame {
    /// Splits a frame into its 14-byte header fields and payload.
    pub fn parse(data: &[u8]) -> (r: Result<Self, ParseError>)
        ensures
            data@.len() < 14 ==> r == Err::<Self, ParseError>(
                ParseError::TooShort { expected: 14, found: data@.len() as usize },
            ),
            data@.len() >= 14 ==> (r matches Ok(f) && {
                &&& f.dst_mac.0@ == data@.subrange(0, 6)
                &&& f.src_mac.0@ == data@.subrange(6, 12)
                &&& f.ethertype == ether_type_of(be16(data@[12], data@[13]))
                &&& f.payload@ == data@.subrange(14, data@.len() as int)
            }),
    {
        if data.len() < 14 {
            return Err(ParseError::TooShort { expected: 14, found: data.len() });
        }
        let dst_mac = mac_at(data, 0);
        let src_mac = mac_at(data, 6);
        let ethertype = EtherType::from_bytes([data[12], data[13]]);
        let payload = copy_tail(data, 14);
        Ok(EthernetFrame { dst_mac, src_mac, ethertype, payload })
    }

    /// `"<src> -> <dst> [<kind>]"`, or `"Unknown(0x....)"` for an unknown EtherType.
    pub fn summary(&self) -> (s: String)
        ensures
            s@ == frame_summary(self.src_mac.0@, self.dst_mac.0@, self.ethertype),
    {
        let mut v: Vec<char> = Vec::new();
        match self.ethertype {
            EtherType::Unknown(val) => {
                append_chars(&mut v, &['U', 'n', 'k', 'n', 'o', 'w', 'n', '(', '0', 'x']);
                v.push(hex_upper(((val / 4096) % 16) as u8));
                v.push(hex_upper(((val / 256) % 16) as u8));
                v.push(hex_upper(((val / 16) % 16) as u8));
                v.push(hex_upper((val % 16) as u8));
                v.push(')');
                assert(v@ =~= frame_summary(self.src_mac.0@, self.dst_mac.0@, self.ethertype));
                return string_from_chars(v.as_slice());
            },
            _ => {},
        }
        let src = self.src_mac.to_text();
        let dst = self.dst_mac.to_text();
        crate::text::append_str(&mut v, src.as_str());
        append_chars(&mut v, &[' ', '-', '>', ' ']);
        crate::text::append_str(&mut v, dst.as_str());
        append_chars(&mut v, &[' ', '[']);
        match self.ethertype {
            EtherType::IPv4 => append_chars(&mut v, &['I', 'P', 'v', '4']),
            EtherType::IPv6 => append_chars(&mut v, &['I', 'P', 'v', '6']),
            _ => append_chars(&mut v, &['A', 'R', 'P']),
        }
        v.push(']');
        assert(v@ =~= frame_summary(self.src_mac.0@, self.dst_mac.0@, self.ethertype));
        string_from_chars(v.as_slice())
    }
}

/// The one-line description of a frame that `EthernetFrame::summary` returns.
pub open spec fn frame_summary(src: Seq<u8>, dst: Seq<u8>, t: EtherType) -> Seq<char> {
    match t {
        EtherType::Unknown(val) => seq!['U', 'n', 'k', 'n', 'o', 'w', 'n', '(', '0', 'x']
            + seq![hex_digit((val as int / 4096) % 16), hex_digit((val as int / 256) % 16), hex_digit((val as int / 16) % 16), hex_digit(val as int % 16), ')'],
        _ => mac_text(src) + seq![' ', '-', '>', ' '] + mac_text(dst) + seq![' ', '[']
            + (match t {
                EtherType::IPv4 => seq!['I', 'P', 'v', '4'],
                EtherType::IPv6 => seq!['I', 'P', 'v', '6'],
                _ => seq!['A', 'R', 'P'],
            }) + seq![']'],
    }
}

/// A short description of the traffic class of a frame.
pub fn classify_ethernet(frame: &EthernetFrame) -> (r: &'static str)
    ensures
        r@ == (match frame.ethertype {
            EtherType::IPv4 => "IPv4 traffic"@,
            EtherType::IPv6 => "IPv6 traffic"@,
            EtherType::ARP => "ARP request/reply"@,
            EtherType::Unknown(_) => "Unknown protocol"@,
        }),
{
    match frame.ethertype {
        EtherType::IPv4 => "IPv4 traffic",
        EtherType::IPv6 => "IPv6 traffic",
        EtherType::ARP => "ARP request/reply",
        EtherType::Unknown(_) => "Unknown protocol",
    }
}

/// IP traffic that is not addressed to the broadcast address.
pub fn is_interesting(frame: &EthernetFrame) -> (r: bool)
    ensures
        r == ((frame.ethertype is IPv4 || frame.ethertype is IPv6)
            && !frame.dst_mac.spec_is_broadcast()),
{
    let ip = match frame.ethertype {
        EtherType::IPv4 | EtherType::IPv6 => true,
        _ => false,
    };
    ip && !frame.dst_mac.is_broadcast()
}

// ============================================================================
// IPv4 layer
// ============================================================================

/// A 32-bit IPv4 address, as its four bytes in network order.
#[derive(Debug, Clone, Copy, PartialEq, Eq, Hash)]
pub struct Ipv4Address(pub [u8; 4]);

/// The address as one 32-bit number (first byte most significant).
pub open spec fn ip_value(ip: Ipv4Address) -> int {
    be32(ip.0@[0], ip.0@[1], ip.0@[2], ip.0@[3])
}

impl Ipv4Address {
    pub fn new(a: u8, b: u8, c: u8, d: u8) -> (r: Self)
        ensures
            r.0@ == seq![a, b, c, d],
    {
        let r = Ipv4Address([a, b, c, d]);
        assert(r.0@ =~= seq![a, b, c, d]);
        r
    }

    /// Whether both addresses hold the same four bytes.
    pub fn same(&self, other: &Self) -> (r: bool)
        ensures
            r == (*self == *other),
    {
        let r = self.0[0] == other.0[0] && self.0[1] == other.0[1] && self.0[2] == other.0[2]
            && self.0[3] == other.0[3];
        proof {
            broadcast use vstd::array::axiom_array_ext_equal;
            if r {
                assert forall|i: int| 0 <= i < 4 implies self.0[i] == other.0[i] by {
                    if i == 0 {} else if i == 1 {} else if i == 2 {} else {}
                }
                assert(self.0 =~= other.0);
            }
        }
        r
    }

    /// 10.0.0.0/8, 172.16.0.0/12 or 192.168.0.0/16.
    pub open spec fn spec_is_private(self) -> bool {
        ||| self.0@[0] == 10
        ||| self.0@[0] == 172 && 16 <= self.0@[1] <= 31
        ||| self.0@[0] == 192 && self.0@[1] == 168
    }

    pub fn is_private(&self) -> (r: bool)
        ensures
            r == self.spec_is_private(),
    {
        let a = self.0[0];
        let b = self.0[1];
        a == 10 || (a == 172 && 16 <= b && b <= 31) || (a == 192 && b == 168)
    }

    /// 127.0.0.0/8.
    pub open spec fn spec_is_loopback(self) -> bool {
        self.0@[0] == 127
    }

    pub fn is_loopback(&self) -> (r: bool)
        ensures
            r == self.spec_is_loopback(),
    {
        self.0[0] == 127
    }

    /// 224.0.0.0/4 (first byte 224 to 239).
    pub open spec fn spec_is_multicast(self) -> bool {
        224 <= self.0@[0] <= 239
    }

    pub fn is_multicast(&self) -> (r: bool)
        ensures
            r == self.spec_is_multicast(),
    {
        224 <= self.0[0] && self.0[0] <= 239
    }

    /// 169.254.0.0/16.
    pub fn is_link_local(&self) -> (r: bool)
        ensures
            r == (self.0@[0] == 169 && self.0@[1] == 254),
    {
        self.0[0] == 169 && self.0[1] == 254
    }

    /// The dotted-decimal text of the address, such as `192.168.1.1`.
    pub fn to_text(&self) -> (s: String)
        ensures
            s@ == crate::text::decimal(self.0@[0] as nat) + seq!['.'] + crate::text::decimal(self.0@[1] as nat)
                + seq!['.'] + crate::text::decimal(self.0@[2] as nat) + seq!['.']
                + crate::text::decimal(self.0@[3] as nat),
    {
        let mut v = crate::text::decimal_chars(self.0[0] as u64);
        v.push('.');
        let d1 = crate::text::decimal_chars(self.0[1] as u64);
        append_chars(&mut v, d1.as_slice());
        v.push('.');
        let d2 = crate::text::decimal_chars(self.0[2] as u64);
        append_chars(&mut v, d2.as_slice());
        v.push('.');
        let d3 = crate::text::decimal_chars(self.0[3] as u64);
        append_chars(&mut v, d3.as_slice());
        string_from_chars(v.as_slice())
    }
}

/// The transport protocol carried by an IPv4 packet.
#[derive(Debug, Clone, Copy, PartialEq, Eq, Hash)]
pub enum IpProtocol {
    ICMP,
    TCP,
    UDP,
    Unknown(u8),
}

/// The protocol named by a protocol number.
pub open spec fn protocol_of(value: u8) -> IpProtocol {
    if value == 1 {
        IpProtocol::ICMP
    } else if value == 6 {
        IpProtocol::TCP
    } else if value == 17 {
        IpProtocol::UDP
    } else {
        IpProtocol::Unknown(value)
    }
}

impl IpProtocol {
    pub fn from_u8(value: u8) -> (r: Self)
        ensures
            r == protocol_of(value),
    {
        if value == 1 {
            IpProtocol::ICMP
        } else if value == 6 {
            IpProtocol::TCP
        } else if value == 17 {
            IpProtocol::UDP
        } else {
            IpProtocol::Unknown(value)
        }
    }

    /// Whether both name the same protocol.
    pub fn same(&self, other: &Self) -> (r: bool)
        ensures
            r == (*self == *other),
    {
        match (self, other) {
            (IpProtocol::ICMP, IpProtocol::ICMP) => true,
            (IpProtocol::TCP, IpProtocol::TCP) => true,
            (IpProtocol::UDP, IpProtocol::UDP) => true,
            (IpProtocol::Unknown(a), IpProtocol::Unknown(b)) => *a == *b,
            _ => false,
        }
    }
}

/// An IPv4 packet: the header fields that the analyses read, and the payload.
#[derive(Debug, Clone)]
pub struct Ipv4Packet {
    pub version: u8,
    pub header_length: u8,
    pub total_length: u16,
    pub ttl: u8,
    pub protocol: IpProtocol,
    pub src_ip: Ipv4Address,
    pub dst_ip: Ipv4Address,
    pub payload: Vec<u8>,
}

fn ip_at(data: &[u8], at: usize) -> (ip: Ipv4Address)
    requires
        at + 4 <= data@.len(),
    ensures
        ip.0@ == data@.subrange(at as int, at + 4),
{
    let ip = Ipv4Address([data[at], data[at + 1], data[at + 2], data[at + 3]]);
    assert(ip.0@ =~= data@.subrange(at as int, at + 4));
    ip
}

impl Ipv4Packet {
    /// Parses an IPv4 header. The version is the high nibble of the first byte and must
    /// be 4; the header length is four times its low nibble, and the payload is whatever
    /// follows the header.
    pub fn parse(data: &[u8]) -> (r: Result<Self, ParseError>)
        ensures
            data@.len() < 20 ==> r == Err::<Self, ParseError>(
                ParseError::TooShort { expected: 20, found: data@.len() as usize },
            ),
            data@.len() >= 20 && data@[0] / 16 != 4 ==> r == Err::<Self, ParseError>(
                ParseError::InvalidProtocol((data@[0] / 16) as u8),
            ),
            data@.len() >= 20 && data@[0] / 16 == 4 ==> (r matches Ok(p) && {
                &&& p.version == 4
                &&& p.header_length == (data@[0] % 16) * 4
                &&& p.total_length == be16(data@[2], data@[3])
                &&& p.ttl == data@[8]
                &&& p.protocol == protocol_of(data@[9])
                &&& p.src_ip.0@ == data@.subrange(12, 16)
                &&& p.dst_ip.0@ == data@.subrange(16, 20)
                &&& p.payload@ == tail_from(data@, p.header_length as int)
            }),
    {
        if data.len() < 20 {
            return Err(ParseError::TooShort { expected: 20, found: data.len() });
        }
        let version_ihl = data[0];
        let version = version_ihl / 16;
        let ihl = version_ihl % 16;
        let header_length = ihl * 4;
        if version != 4 {
            return Err(ParseError::InvalidProtocol(version));
        }
        let total_length = u16_from_be(data[2], data[3]);
        let ttl = data[8];
        let protocol = IpProtocol::from_u8(data[9]);
        let src_ip = ip_at(data, 12);
        let dst_ip = ip_at(data, 16);
        let payload = copy_tail(data, header_length as usize);
        Ok(Ipv4Packet { version, header_length, total_length, ttl, protocol, src_ip, dst_ip, payload })
    }
}

/// Where a packet travels relative to the private address ranges.
#[derive(Debug, PartialEq, Eq)]
pub enum TrafficType {
    LocalPrivate,
    Outbound,
    Inbound,
    Loopback,
    Multicast,
    InternetRouted,
    Other,
}

/// The traffic class of a packet: loopback and multicast first, then by which ends
/// are private.
pub open spec fn traffic_of(src: Ipv4Address, dst: Ipv4Address) -> TrafficType {
    if src.spec_is_loopback() || dst.spec_is_loopback() {
        TrafficType::Loopback
    } else if dst.spec_is_multicast() {
        TrafficType::Multicast
    } else if src.spec_is_private() && dst.spec_is_private() {
        TrafficType::LocalPrivate
    } else if src.spec_is_private() {
        TrafficType::Outbound
    } else if dst.spec_is_private() {
        TrafficType::Inbound
    } else {
        TrafficType::InternetRouted
    }
}

/// The direction of traffic between a private network and the internet, for ends that
/// are neither loopback nor multicast: from a private source (10/8, 172.16/12,
/// 192.168/16) to a public destination it is outbound, from a public source to a private
/// destination it is inbound, between two private ends it stays local, and between two
/// public ends it is routed over the internet.
pub proof fn lemma_traffic_direction(src: Ipv4Address, dst: Ipv4Address)
    requires
        src.0@[0] != 127,
        dst.0@[0] != 127,
        !(224 <= dst.0@[0] <= 239),
    ensures
        src.spec_is_private() && !dst.spec_is_private() ==> traffic_of(src, dst) == TrafficType::Outbound,
        !src.spec_is_private() && dst.spec_is_private() ==> traffic_of(src, dst) == TrafficType::Inbound,
        src.spec_is_private() && dst.spec_is_private() ==> traffic_of(src, dst) == TrafficType::LocalPrivate,
        !src.spec_is_private() && !dst.spec_is_private() ==> traffic_of(src, dst) == TrafficType::InternetRouted,
        private_block(src) && !private_block(dst) ==> traffic_of(src, dst) == TrafficType::Outbound,
        !private_block(src) && private_block(dst) ==> traffic_of(src, dst) == TrafficType::Inbound,
{
}

/// An address in one of the private blocks 10.0.0.0/8, 172.16.0.0/12 and 192.168.0.0/16,
/// by its octets.
pub open spec fn private_block(a: Ipv4Address) -> bool {
    a.0@[0] == 10 || (a.0@[0] == 172 && 16 <= a.0@[1] && a.0@[1] <= 31) || (a.0@[0] == 192 && a.0@[1] == 168)
}

/// Loopback traffic (either end in 127.0.0.0/8) comes first, then traffic to a multicast
/// group (destination in 224.0.0.0/4).
pub proof fn lemma_traffic_special(src: Ipv4Address, dst: Ipv4Address)
    ensures
        src.0@[0] == 127 || dst.0@[0] == 127 ==> traffic_of(src, dst) == TrafficType::Loopback,
        src.0@[0] != 127 && dst.0@[0] != 127 && 224 <= dst.0@[0] && dst.0@[0] <= 239 ==> traffic_of(src, dst)
            == TrafficType::Multicast,
{
}

pub fn classify_traffic(packet: &Ipv4Packet) -> (r: TrafficType)
    ensures
        r == traffic_of(packet.src_ip, packet.dst_ip),
        packet.src_ip.0@[0] != 127 && packet.dst_ip.0@[0] != 127 && !(224 <= packet.dst_ip.0@[0] <= 239) ==> {
            &&& private_block(packet.src_ip) && !private_block(packet.dst_ip) ==> r == TrafficType::Outbound
            &&& !private_block(packet.src_ip) && private_block(packet.dst_ip) ==> r == TrafficType::Inbound
        },
{
    proof {
        if packet.src_ip.0@[0] != 127 && packet.dst_ip.0@[0] != 127 && !(224 <= packet.dst_ip.0@[0] <= 239) {
            lemma_traffic_direction(packet.src_ip, packet.dst_ip);
        }
    }
    let src = &packet.src_ip;
    let dst = &packet.dst_ip;
    if src.is_loopback() || dst.is_loopback() {
        TrafficType::Loopback
    } else if dst.is_multicast() {
        TrafficType::Multicast
    } else if src.is_private() && dst.is_private() {
        TrafficType::LocalPrivate
    } else if src.is_private() {
        TrafficType::Outbound
    } else if dst.is_private() {
        TrafficType::Inbound
    } else {
        TrafficType::InternetRouted
    }
}

/// A decoded packet, possibly wrapping the packet of the next layer.
#[derive(Debug)]
pub enum Packet {
    Ethernet { frame: EthernetFrame, inner: Option<Box<Packet>> },
    IPv4 { packet: Ipv4Packet, inner: Option<Box<Packet>> },
    TCP(TcpPacket),
    UDP(UdpPacket),
    Raw(Vec<u8>),
}

/// What `Packet::parse` nests inside an IPv4 packet with the given protocol and payload:
/// the TCP or UDP segment when the payload is long enough, and nothing otherwise.
pub open spec fn transport_matches(protocol: IpProtocol, payload: Seq<u8>, t: Option<Box<Packet>>) -> bool {
    match protocol {
        IpProtocol::TCP => if payload.len() >= 20 {
            t matches Some(b) && (*b matches Packet::TCP(x) && is_tcp_of(x, payload))
        } else {
            t is None
        },
        IpProtocol::UDP => if payload.len() >= 8 {
            t matches Some(b) && (*b matches Packet::UDP(x) && is_udp_of(x, payload))
        } else {
            t is None
        },
        _ => t is None,
    }
}

impl Packet {
    /// Parses an Ethernet frame and, where it carries IPv4, the IPv4 packet and its TCP
    /// or UDP segment. Inner layers that fail to parse are left out.
    pub fn parse(data: &[u8]) -> (r: Result<Self, ParseError>)
        ensures
            data@.len() < 14 ==> r == Err::<Self, ParseError>(
                ParseError::TooShort { expected: 14, found: data@.len() as usize },
            ),
            data@.len() >= 14 ==> (r matches Ok(Packet::Ethernet { frame, inner }) && {
                let payload = data@.subrange(14, data@.len() as int);
                &&& frame.payload@ == payload
                &&& frame.dst_mac.0@ == data@.subrange(0, 6)
                &&& frame.src_mac.0@ == data@.subrange(6, 12)
                &&& frame.ethertype == ether_type_of(be16(data@[12], data@[13]))
                &&& (inner is Some <==> (frame.ethertype is IPv4 && payload.len() >= 20
                    && payload[0] / 16 == 4))
                &&& inner matches Some(b) ==> (*b matches Packet::IPv4 { packet, inner: t } && {
                    &&& packet.version == 4
                    &&& packet.header_length == (payload[0] % 16) * 4
                    &&& packet.total_length == be16(payload[2], payload[3])
                    &&& packet.ttl == payload[8]
                    &&& packet.src_ip.0@ == payload.subrange(12, 16)
                    &&& packet.dst_ip.0@ == payload.subrange(16, 20)
                    &&& packet.protocol == protocol_of(payload[9])
                    &&& packet.payload@ == tail_from(payload, packet.header_length as int)
                    &&& transport_matches(packet.protocol, packet.payload@, t)
                })
            }),
    {
        let ethernet = EthernetFrame::parse(data)?;
        let inner = match ethernet.ethertype {
            EtherType::IPv4 => match Ipv4Packet::parse(ethernet.payload.as_slice()) {
                Ok(ipv4) => {
                    let transport_inner = match ipv4.protocol {
                        IpProtocol::TCP => match TcpPacket::parse(ipv4.payload.as_slice()) {
                            Ok(tcp) => Some(Box::new(Packet::TCP(tcp))),
                            Err(_) => None,
                        },
                        IpProtocol::UDP => match UdpPacket::parse(ipv4.payload.as_slice()) {
                            Ok(udp) => Some(Box::new(Packet::UDP(udp))),
                            Err(_) => None,
                        },
                        _ => None,
                    };
                    Some(Box::new(Packet::IPv4 { packet: ipv4, inner: transport_inner }))
                },
                Err(_) => None,
            },
            _ => None,
        };
        Ok(Packet::Ethernet { frame: ethernet, inner })
    }

    /// The source and destination addresses of an IPv4 packet, or of the IPv4 packet
    /// directly inside an Ethernet frame.
    pub fn extract_ips(&self) -> (r: Option<(Ipv4Address, Ipv4Address)>)
        ensures
            r == (match self {
                Packet::Ethernet { inner: Some(b), .. } => match **b {
                    Packet::IPv4 { packet, .. } => Some((packet.src_ip, packet.dst_ip)),
                    _ => None,
                },
                Packet::IPv4 { packet, .. } => Some((packet.src_ip, packet.dst_ip)),
                _ => None,
            }),
    {
        match self {
            Packet::Ethernet { inner: Some(inner), .. } => match &**inner {
                Packet::IPv4 { packet, .. } => Some((packet.src_ip, packet.dst_ip)),
                _ => None,
            },
            Packet::IPv4 { packet, .. } => Some((packet.src_ip, packet.dst_ip)),
            _ => None,
        }
    }
}

// ============================================================================
// TCP / UDP layer
// ============================================================================

/// The six classic TCP control bits.
#[derive(Debug, Clone, Copy)]
pub struct TcpFlags {
    pub fin: bool,
    pub syn: bool,
    pub rst: bool,
    pub psh: bool,
    pub ack: bool,
    pub urg: bool,
}

/// The flags encoded in the low six bits of a TCP flags byte.
pub open spec fn flags_of(byte: u8) -> TcpFlags {
    TcpFlags {
        fin: (byte & 0x01u8) != 0u8,
        syn: (byte & 0x02u8) != 0u8,
        rst: (byte & 0x04u8) != 0u8,
        psh: (byte & 0x08u8) != 0u8,
        ack: (byte & 0x10u8) != 0u8,
        urg: (byte & 0x20u8) != 0u8,
    }
}

impl TcpFlags {
    pub fn from_byte(byte: u8) -> (r: Self)
        ensures
            r == flags_of(byte),
    {
        TcpFlags {
            fin: (byte & 0x01) != 0,
            syn: (byte & 0x02) != 0,
            rst: (byte & 0x04) != 0,
            psh: (byte & 0x08) != 0,
            ack: (byte & 0x10) != 0,
            urg: (byte & 0x20) != 0,
        }
    }
}

/// A TCP segment.
#[derive(Debug, Clone)]
pub struct TcpPacket {
    pub src_port: u16,
    pub dst_port: u16,
    pub seq_num: u32,
    pub ack_num: u32,
    pub flags: TcpFlags,
    pub window_size: u16,
    pub payload: Vec<u8>,
}

/// The TCP segment read from at least 20 bytes: ports, sequence numbers, flags,
/// window, and the payload after the header whose length is four times the high
/// nibble of byte 12.
pub open spec fn tcp_of(d: Seq<u8>) -> TcpPacket {
    TcpPacket {
        src_port: be16(d[0], d[1]) as u16,
        dst_port: be16(d[2], d[3]) as u16,
        seq_num: be32(d[4], d[5], d[6], d[7]) as u32,
        ack_num: be32(d[8], d[9], d[10], d[11]) as u32,
        flags: flags_of(d[13]),
        window_size: be16(d[14], d[15]) as u16,
        payload: arbitrary(),
    }
}

/// A TCP segment equals `tcp_of(d)` in every field but the payload, which is the tail
/// after the header.
pub open spec fn is_tcp_of(t: TcpPacket, d: Seq<u8>) -> bool {
    &&& t.src_port == tcp_of(d).src_port
    &&& t.dst_port == tcp_of(d).dst_port
    &&& t.seq_num == tcp_of(d).seq_num
    &&& t.ack_num == tcp_of(d).ack_num
    &&& t.flags == tcp_of(d).flags
    &&& t.window_size == tcp_of(d).window_size
    &&& t.payload@ == tail_from(d, (d[12] / 16) * 4)
}

impl TcpPacket {
    pub fn parse(data: &[u8]) -> (r: Result<Self, ParseError>)
        ensures
            data@.len() < 20 ==> r == Err::<Self, ParseError>(
                ParseError::TooShort { expected: 20, found: data@.len() as usize },
            ),
            data@.len() >= 20 ==> (r matches Ok(t) && is_tcp_of(t, data@)),
    {
        if data.len() < 20 {
            return Err(ParseError::TooShort { expected: 20, found: data.len() });
        }
        let src_port = u16_from_be(data[0], data[1]);
        let dst_port = u16_from_be(data[2], data[3]);
        let seq_num = u32_from_be(data[4], data[5], data[6], data[7]);
        let ack_num = u32_from_be(data[8], data[9], data[10], data[11]);
        let data_offset = (data[12] / 16) * 4;
        let flags = TcpFlags::from_byte(data[13]);
        let window_size = u16_from_be(data[14], data[15]);
        let payload = copy_tail(data, data_offset as usize);
        Ok(TcpPacket { src_port, dst_port, seq_num, ack_num, flags, window_size, payload })
    }
}

/// A UDP datagram.
#[derive(Debug, Clone)]
pub struct UdpPacket {
    pub src_port: u16,
    pub dst_port: u16,
    pub length: u16,
    pub payload: Vec<u8>,
}

/// The header fields of a UDP datagram read from at least 8 bytes.
pub open spec fn udp_of(d: Seq<u8>) -> UdpPacket {
    UdpPacket {
        src_port: be16(d[0], d[1]) as u16,
        dst_port: be16(d[2], d[3]) as u16,
        length: be16(d[4], d[5]) as u16,
        payload: arbitrary(),
    }
}

/// A UDP datagram holds the header fields of `udp_of(d)` and the bytes after the header.
pub open spec fn is_udp_of(u: UdpPacket, d: Seq<u8>) -> bool {
    &&& u.src_port == udp_of(d).src_port
    &&& u.dst_port == udp_of(d).dst_port
    &&& u.length == udp_of(d).length
    &&& u.payload@ == tail_from(d, 8)
}

impl UdpPacket {
    pub fn parse(data: &[u8]) -> (r: Result<Self, ParseError>)
        ensures
            data@.len() < 8 ==> r == Err::<Self, ParseError>(
                ParseError::TooShort { expected: 8, found: data@.len() as usize },
            ),
            data@.len() >= 8 ==> (r matches Ok(u) && is_udp_of(u, data@)),
    {
        if data.len() < 8 {
            return Err(ParseError::TooShort { expected: 8, found: data.len() });
        }
        let src_port = u16_from_be(data[0], data[1]);
        let dst_port = u16_from_be(data[2], data[3]);
        let length = u16_from_be(data[4], data[5]);
        let payload = copy_tail(data, 8);
        Ok(UdpPacket { src_port, dst_port, length, payload })
    }
}

/// The IANA port ranges.
#[derive(Debug, PartialEq, Eq)]
pub enum PortClass {
    Reserved,
    WellKnown,
    Registered,
    Dynamic,
}

pub fn classify_port(port: u16) -> (r: PortClass)
    ensures
        r == (if port == 0 {
            PortClass::Reserved
        } else if port <= 1023 {
            PortClass::WellKnown
        } else if port <= 49151 {
            PortClass::Registered
        } else {
            PortClass::Dynamic
        }),
{
    if port == 0 {
        PortClass::Reserved
    } else if port <= 1023 {
        PortClass::WellKnown
    } else if port <= 49151 {
        PortClass::Registered
    } else {
        PortClass::Dynamic
    }
}

/// An application service recognised by its port.
#[derive(Debug, PartialEq, Eq, Clone, Copy)]
pub enum Service {
    Http,
    Https,
    SSH,
    FTP,
    SMTP,
    DNS,
    DHCP,
    Database,
    Unknown,
}

/// The service conventionally reached at `port` over `protocol`.
pub open spec fn service_of(port: u16, protocol: IpProtocol) -> Service {
    let tcp = protocol is TCP;
    let udp = protocol is UDP;
    if tcp && (port == 80 || port == 8080 || port == 8000) {
        Service::Http
    } else if tcp && (port == 443 || port == 8443) {
        Service::Https
    } else if tcp && port == 22 {
        Service::SSH
    } else if tcp && (port == 20 || port == 21) {
        Service::FTP
    } else if tcp && port == 25 {
        Service::SMTP
    } else if tcp && (port == 3306 || port == 5432 || port == 1433 || port == 27017) {
        Service::Database
    } else if (tcp || udp) && port == 53 {
        Service::DNS
    } else if udp && (port == 67 || port == 68) {
        Service::DHCP
    } else {
        Service::Unknown
    }
}

pub fn detect_service(port: u16, protocol: IpProtocol) -> (r: Service)
    ensures
        r == service_of(port, protocol),
{
    let tcp = match protocol {
        IpProtocol::TCP => true,
        _ => false,
    };
    let udp = match protocol {
        IpProtocol::UDP => true,
        _ => false,
    };
    if tcp && (port == 80 || port == 8080 || port == 8000) {
        Service::Http
    } else if tcp && (port == 443 || port == 8443) {
        Service::Https
    } else if tcp && port == 22 {
        Service::SSH
    } else if tcp && (port == 20 || port == 21) {
        Service::FTP
    } else if tcp && port == 25 {
        Service::SMTP
    } else if tcp && (port == 3306 || port == 5432 || port == 1433 || port == 27017) {
        Service::Database
    } else if (tcp || udp) && port == 53 {
        Service::DNS
    } else if udp && (port == 67 || port == 68) {
        Service::DHCP
    } else {
        Service::Unknown
    }
}

/// A bare TCP segment with SYN set and ACK clear.
pub fn is_tcp_syn(packet: &Packet) -> (r: bool)
    ensures
        r == (packet matches Packet::TCP(t) && t.flags.syn && !t.flags.ack),
{
    match packet {
        Packet::TCP(t) => t.flags.syn && !t.flags.ack,
        _ => false,
    }
}

/// A bare TCP segment with both SYN and ACK set.
pub fn is_tcp_syn_ack(packet: &Packet) -> (r: bool)
    ensures
        r == (packet matches Packet::TCP(t) && t.flags.syn && t.flags.ack),
{
    match packet {
        Packet::TCP(t) => t.flags.syn && t.flags.ack,
        _ => false,
    }
}

// ============================================================================
// Firewall engine
// ============================================================================

/// One firewall rule. Rules are tried in order and the first that matches decides.
#[derive(Debug, Clone)]
pub enum FirewallRule {
    AllowAll,
    DenyAll,
    AllowPort { port: u16 },
    DenyPort { port: u16 },
    AllowPortRange { start: u16, end: u16 },
    DenyPortRange { start: u16, end: u16 },
    AllowIp { ip: Ipv4Address },
    DenyIp { ip: Ipv4Address },
    AllowSubnet { network: Ipv4Address, mask: u8 },
    DenySubnet { network: Ipv4Address, mask: u8 },
    AllowService(Service),
    DenyService(Service),
    Complex {
        src_ip: Option<Ipv4Address>,
        dst_ip: Option<Ipv4Address>,
        src_port: Option<u16>,
        dst_port: Option<u16>,
        protocol: Option<IpProtocol>,
        action: Action,
    },
}

/// What to do with a packet.
#[derive(Debug, Clone, Copy, PartialEq, Eq)]
pub enum Action {
    Allow,
    Deny,
    Log,
    LogAndAllow,
    LogAndDeny,
}

/// An ordered rule list with a default action for packets that no rule matches.
#[derive(Debug)]
pub struct Firewall {
    rules: Vec<FirewallRule>,
    default_action: Action,
}

/// The addresses, ports and protocol that a packet exposes to the rules.
#[derive(Debug)]
pub struct PacketInfo {
    pub src_ip: Option<Ipv4Address>,
    pub dst_ip: Option<Ipv4Address>,
    pub src_port: Option<u16>,
    pub dst_port: Option<u16>,
    pub protocol: Option<IpProtocol>,
}

/// The information a packet exposes: an Ethernet frame exposes what its inner packet
/// exposes; an IPv4 packet its addresses, with the ports and protocol of a TCP or UDP
/// segment inside; a bare segment its ports and protocol.
pub open spec fn packet_info(p: Packet) -> Option<PacketInfo>
    decreases p,
{
    match p {
        Packet::Ethernet { inner: Some(b), .. } => packet_info(*b),
        Packet::IPv4 { packet: ipv4, inner } => match inner {
            Some(b) => match *b {
                Packet::TCP(tcp) => Some(PacketInfo {
                    src_ip: Some(ipv4.src_ip),
                    dst_ip: Some(ipv4.dst_ip),
                    src_port: Some(tcp.src_port),
                    dst_port: Some(tcp.dst_port),
                    protocol: Some(IpProtocol::TCP),
                }),
                Packet::UDP(udp) => Some(PacketInfo {
                    src_ip: Some(ipv4.src_ip),
                    dst_ip: Some(ipv4.dst_ip),
                    src_port: Some(udp.src_port),
                    dst_port: Some(udp.dst_port),
                    protocol: Some(IpProtocol::UDP),
                }),
                _ => Some(PacketInfo {
                    src_ip: Some(ipv4.src_ip),
                    dst_ip: Some(ipv4.dst_ip),
                    src_port: None,
                    dst_port: None,
                    protocol: Some(ipv4.protocol),
                }),
            },
            None => Some(PacketInfo {
                src_ip: Some(ipv4.src_ip),
                dst_ip: Some(ipv4.dst_ip),
                src_port: None,
                dst_port: None,
                protocol: Some(ipv4.protocol),
            }),
        },
        Packet::TCP(tcp) => Some(PacketInfo {
            src_ip: None,
            dst_ip: None,
            src_port: Some(tcp.src_port),
            dst_port: Some(tcp.dst_port),
            protocol: Some(IpProtocol::TCP),
        }),
        Packet::UDP(udp) => Some(PacketInfo {
            src_ip: None,
            dst_ip: None,
            src_port: Some(udp.src_port),
            dst_port: Some(udp.dst_port),
            protocol: Some(IpProtocol::UDP),
        }),
        _ => None,
    }
}

impl PacketInfo {
    pub fn extract(packet: &Packet) -> (r: Option<PacketInfo>)
        ensures
            r == packet_info(*packet),
        decreases packet,
    {
        match packet {
            Packet::Ethernet { inner: Some(inner), .. } => Self::extract(&**inner),
            Packet::IPv4 { packet: ipv4, inner } => {
                if let Some(inner) = inner {
                    match &**inner {
                        Packet::TCP(tcp) => Some(PacketInfo {
                            src_ip: Some(ipv4.src_ip),
                            dst_ip: Some(ipv4.dst_ip),
                            src_port: Some(tcp.src_port),
                            dst_port: Some(tcp.dst_port),
                            protocol: Some(IpProtocol::TCP),
                        }),
                        Packet::UDP(udp) => Some(PacketInfo {
                            src_ip: Some(ipv4.src_ip),
                            dst_ip: Some(ipv4.dst_ip),
                            src_port: Some(udp.src_port),
                            dst_port: Some(udp.dst_port),
                            protocol: Some(IpProtocol::UDP),
                        }),
                        _ => Some(PacketInfo {
                            src_ip: Some(ipv4.src_ip),
                            dst_ip: Some(ipv4.dst_ip),
                            src_port: None,
                            dst_port: None,
                            protocol: Some(ipv4.protocol),
                        }),
                    }
                } else {
                    Some(PacketInfo {
                        src_ip: Some(ipv4.src_ip),
                        dst_ip: Some(ipv4.dst_ip),
                        src_port: None,
                        dst_port: None,
                        protocol: Some(ipv4.protocol),
                    })
                }
            },
            Packet::TCP(tcp) => Some(PacketInfo {
                src_ip: None,
                dst_ip: None,
                src_port: Some(tcp.src_port),
                dst_port: Some(tcp.dst_port),
                protocol: Some(IpProtocol::TCP),
            }),
            Packet::UDP(udp) => Some(PacketInfo {
                src_ip: None,
                dst_ip: None,
                src_port: Some(udp.src_port),
                dst_port: Some(udp.dst_port),
                protocol: Some(IpProtocol::UDP),
            }),
            _ => None,
        }
    }
}

/// The network mask with the top `mask` bits set.
pub open spec fn mask_bits(mask: u8) -> u32 {
    (!0u32) << ((32 - mask) as u32)
}

/// Whether `ip` lies in `network`/`mask`.
pub open spec fn in_subnet_spec(ip: Ipv4Address, network: Ipv4Address, mask: u8) -> bool {
    ((ip_value(ip) as u32) & mask_bits(mask)) == ((ip_value(network) as u32) & mask_bits(mask))
}

/// The service of a bare TCP or UDP segment, judged by its destination port.
pub open spec fn service_of_packet(p: Packet) -> Service {
    match p {
        Packet::TCP(tcp) => service_of(tcp.dst_port, IpProtocol::TCP),
        Packet::UDP(udp) => service_of(udp.dst_port, IpProtocol::UDP),
        _ => Service::Unknown,
    }
}

/// Whether a rule's optional field is absent or equal to the packet's.
pub open spec fn opt_matches<T>(rule: Option<T>, seen: Option<T>) -> bool {
    match rule {
        Some(v) => seen == Some(v),
        None => true,
    }
}

/// The source and destination ports of a bare TCP or UDP segment.
pub open spec fn ports_of(p: Packet) -> Option<(u16, u16)> {
    match p {
        Packet::TCP(t) => Some((t.src_port, t.dst_port)),
        Packet::UDP(u) => Some((u.src_port, u.dst_port)),
        _ => None,
    }
}

/// The source and destination addresses of an IPv4 packet, or of the IPv4 packet
/// directly inside an Ethernet frame.
pub open spec fn ips_of(p: Packet) -> Option<(Ipv4Address, Ipv4Address)> {
    match p {
        Packet::Ethernet { inner: Some(b), .. } => match *b {
            Packet::IPv4 { packet, .. } => Some((packet.src_ip, packet.dst_ip)),
            _ => None,
        },
        Packet::IPv4 { packet, .. } => Some((packet.src_ip, packet.dst_ip)),
        _ => None,
    }
}

/// `Some(a)` when `cond` holds, `None` otherwise.
pub open spec fn action_if(cond: bool, a: Action) -> Option<Action> {
    if cond {
        Some(a)
    } else {
        None
    }
}

/// The decision of one rule for one packet, or `None` when the rule does not apply: a
/// port rule applies to a segment with that port at either end, a port range to a
/// segment whose destination port lies in it, an address rule to a packet with that
/// address at either end, a subnet rule to a bare IPv4 packet whose destination lies in
/// the subnet, a service rule to a segment of that service, and a combined rule to a
/// packet whose five-tuple agrees with every field the rule gives.
pub open spec fn rule_action(rule: FirewallRule, p: Packet) -> Option<Action> {
    match rule {
        FirewallRule::AllowAll => Some(Action::Allow),
        FirewallRule::DenyAll => Some(Action::Deny),
        FirewallRule::AllowPort { port } => action_if(ports_of(p) matches Some((a, b)) && (a == port || b == port), Action::Allow),
        FirewallRule::DenyPort { port } => action_if(ports_of(p) matches Some((a, b)) && (a == port || b == port), Action::Deny),
        FirewallRule::AllowPortRange { start, end } => action_if(ports_of(p) matches Some((_, b)) && start <= b <= end, Action::Allow),
        FirewallRule::AllowIp { ip } => action_if(ips_of(p) matches Some((a, b)) && (a == ip || b == ip), Action::Allow),
        FirewallRule::AllowSubnet { network, mask } => action_if(
            p matches Packet::IPv4 { packet, .. } && in_subnet_spec(packet.dst_ip, network, mask),
            Action::Allow,
        ),
        FirewallRule::AllowService(service) => if service_of_packet(p) == service {
            Some(Action::Allow)
        } else {
            None
        },
        FirewallRule::DenyService(service) => if service_of_packet(p) == service {
            Some(Action::Deny)
        } else {
            None
        },
        FirewallRule::Complex { src_ip, dst_ip, src_port, dst_port, protocol, action } => {
            match packet_info(p) {
                Some(info) => if opt_matches(src_ip, info.src_ip) && opt_matches(dst_ip, info.dst_ip)
                    && opt_matches(src_port, info.src_port) && opt_matches(dst_port, info.dst_port)
                    && opt_matches(protocol, info.protocol) {
                    Some(action)
                } else {
                    None
                },
                None => None,
            }
        },
        _ => None,
    }
}

/// A port-range rule allows exactly the TCP and UDP segments whose destination port lies
/// in the range, whatever their source port, and says nothing of any other packet.
pub proof fn lemma_port_range_rule(start: u16, end: u16, p: Packet)
    ensures
        p matches Packet::TCP(t) ==> rule_action(FirewallRule::AllowPortRange { start, end }, p) == (if start <= t.dst_port
            && t.dst_port <= end { Some(Action::Allow) } else { None }),
        p matches Packet::UDP(u) ==> rule_action(FirewallRule::AllowPortRange { start, end }, p) == (if start <= u.dst_port
            && u.dst_port <= end { Some(Action::Allow) } else { None }),
        !(p is TCP) && !(p is UDP) ==> rule_action(FirewallRule::AllowPortRange { start, end }, p) is None,
{
}

/// The first rule that applies decides: `first_match` gives the decision of the rule at
/// the least index from `i` on that applies, and nothing when none does.
pub proof fn lemma_first_rule_wins(rules: Seq<FirewallRule>, i: int, p: Packet)
    requires
        0 <= i <= rules.len(),
    ensures
        first_match(rules, i, p) is None <==> forall|j: int| i <= j < rules.len() ==> (#[trigger] rule_action(rules[j], p)) is None,
        first_match(rules, i, p) matches Some(a) ==> exists|k: int| #![trigger rules[k]] i <= k < rules.len()
            && rule_action(rules[k], p) == Some(a) && forall|j: int| i <= j < k ==> (#[trigger] rule_action(rules[j], p)) is None,
    decreases rules.len() - i,
{
    if i < rules.len() {
        lemma_first_rule_wins(rules, i + 1, p);
        if rule_action(rules[i], p) is None {
            match first_match(rules, i + 1, p) {
                Some(a) => {
                    let k = choose|k: int| #![trigger rules[k]] i + 1 <= k < rules.len()
                        && rule_action(rules[k], p) == Some(a) && forall|j: int| i + 1 <= j < k ==> (#[trigger] rule_action(rules[j], p)) is None;
                    assert(rules[k] == rules[k]);
                },
                None => {},
            }
        } else {
            assert(rules[i] == rules[i]);
        }
    }
}

/// Port rules match a TCP or UDP segment with the port at either end, and no other
/// packet; allow-all and deny-all match every packet.
pub proof fn lemma_port_rules(port: u16, p: Packet)
    ensures
        p matches Packet::TCP(t) ==> rule_action(FirewallRule::AllowPort { port }, p) == (if t.src_port == port
            || t.dst_port == port { Some(Action::Allow) } else { None }),
        p matches Packet::UDP(u) ==> rule_action(FirewallRule::AllowPort { port }, p) == (if u.src_port == port
            || u.dst_port == port { Some(Action::Allow) } else { None }),
        p matches Packet::TCP(t) ==> rule_action(FirewallRule::DenyPort { port }, p) == (if t.src_port == port
            || t.dst_port == port { Some(Action::Deny) } else { None }),
        p matches Packet::UDP(u) ==> rule_action(FirewallRule::DenyPort { port }, p) == (if u.src_port == port
            || u.dst_port == port { Some(Action::Deny) } else { None }),
        !(p is TCP) && !(p is UDP) ==> rule_action(FirewallRule::AllowPort { port }, p) is None
            && rule_action(FirewallRule::DenyPort { port }, p) is None,
        rule_action(FirewallRule::AllowAll, p) == Some(Action::Allow),
        rule_action(FirewallRule::DenyAll, p) == Some(Action::Deny),
{
}

/// A firewall whose only rule is a port range decides a TCP or UDP segment by its
/// destination port alone: allowed inside the range, the default action outside it.
pub proof fn lemma_port_range_firewall(start: u16, end: u16, p: Packet)
    ensures
        p matches Packet::TCP(t) ==> first_match(seq![FirewallRule::AllowPortRange { start, end }], 0, p) == (if start
            <= t.dst_port && t.dst_port <= end { Some(Action::Allow) } else { None }),
        p matches Packet::UDP(u) ==> first_match(seq![FirewallRule::AllowPortRange { start, end }], 0, p) == (if start
            <= u.dst_port && u.dst_port <= end { Some(Action::Allow) } else { None }),
{
    lemma_port_range_rule(start, end, p);
    let rules = seq![FirewallRule::AllowPortRange { start, end }];
    assert(first_match(rules, 1, p) is None);
}

/// Whether evaluating `rule` on `p` is defined: a subnet rule tested against an IPv4
/// packet needs a mask between 1 and 32.
pub open spec fn rule_defined(rule: FirewallRule, p: Packet) -> bool {
    match rule {
        FirewallRule::AllowSubnet { mask, .. } => (p is IPv4) ==> 1 <= mask <= 32,
        _ => true,
    }
}

/// The decision of the first rule from index `i` on that applies, if any.
pub open spec fn first_match(rules: Seq<FirewallRule>, i: int, p: Packet) -> Option<Action>
    decreases rules.len() - i,
{
    if i < 0 || i >= rules.len() {
        None
    } else {
        match rule_action(rules[i], p) {
            Some(a) => Some(a),
            None => first_match(rules, i + 1, p),
        }
    }
}

/// Whether every rule tried before the first match (and the match itself) is defined.
pub open spec fn evaluation_defined(rules: Seq<FirewallRule>, i: int, p: Packet) -> bool
    decreases rules.len() - i,
{
    if i < 0 || i >= rules.len() {
        true
    } else {
        rule_defined(rules[i], p) && (rule_action(rules[i], p) is None ==> evaluation_defined(
            rules,
            i + 1,
            p,
        ))
    }
}

fn opt_ip_matches(rule: &Option<Ipv4Address>, seen: &Option<Ipv4Address>) -> (r: bool)
    ensures
        r == opt_matches(*rule, *seen),
{
    match rule {
        Some(v) => match seen {
            Some(w) => w.same(v),
            None => false,
        },
        None => true,
    }
}

fn opt_port_matches(rule: &Option<u16>, seen: &Option<u16>) -> (r: bool)
    ensures
        r == opt_matches(*rule, *seen),
{
    match rule {
        Some(v) => match seen {
            Some(w) => *w == *v,
            None => false,
        },
        None => true,
    }
}

fn opt_proto_matches(rule: &Option<IpProtocol>, seen: &Option<IpProtocol>) -> (r: bool)
    ensures
        r == opt_matches(*rule, *seen),
{
    match rule {
        Some(v) => match seen {
            Some(w) => w.same(v),
            None => false,
        },
        None => true,
    }
}

fn same_service(a: Service, b: Service) -> (r: bool)
    ensures
        r == (a == b),
{
    match (a, b) {
        (Service::Http, Service::Http) => true,
        (Service::Https, Service::Https) => true,
        (Service::SSH, Service::SSH) => true,
        (Service::FTP, Service::FTP) => true,
        (Service::SMTP, Service::SMTP) => true,
        (Service::DNS, Service::DNS) => true,
        (Service::DHCP, Service::DHCP) => true,
        (Service::Database, Service::Database) => true,
        (Service::Unknown, Service::Unknown) => true,
        _ => false,
    }
}

impl Firewall {
    pub closed spec fn rules(&self) -> Seq<FirewallRule> {
        self.rules@
    }

    pub closed spec fn default_action(&self) -> Action {
        self.default_action
    }

    pub fn new(default_action: Action) -> (r: Self)
        ensures
            r.rules() == Seq::<FirewallRule>::empty(),
            r.default_action() == default_action,
    {
        Firewall { rules: Vec::new(), default_action }
    }

    /// Appends a rule; it is tried after all the rules added before it.
    pub fn add_rule(&mut self, rule: FirewallRule)
        ensures
            final(self).rules() == old(self).rules().push(rule),
            final(self).default_action() == old(self).default_action(),
    {
        self.rules.push(rule);
    }

    /// The decision of the first rule that applies, or the default action.
    pub fn check_packet(&self, packet: &Packet) -> (r: Action)
        requires
            evaluation_defined(self.rules(), 0, *packet),
        ensures
            r == (match first_match(self.rules(), 0, *packet) {
                Some(a) => a,
                None => self.default_action(),
            }),
    {
        let mut i: usize = 0;
        while i < self.rules.len()
            invariant
                i <= self.rules@.len(),
                first_match(self.rules@, 0, *packet) == first_match(self.rules@, i as int, *packet),
                evaluation_defined(self.rules@, i as int, *packet),
            decreases self.rules@.len() - i,
        {
            if let Some(action) = Self::match_rule(&self.rules[i], packet) {
                return action;
            }
            i = i + 1;
        }
        self.default_action
    }

    fn match_rule(rule: &FirewallRule, packet: &Packet) -> (r: Option<Action>)
        requires
            rule_defined(*rule, *packet),
        ensures
            r == rule_action(*rule, *packet),
            match (*rule, *packet) {
                (FirewallRule::AllowPortRange { start, end }, Packet::TCP(t)) => r == (if start <= t.dst_port
                    && t.dst_port <= end { Some(Action::Allow) } else { None }),
                (FirewallRule::AllowPortRange { start, end }, Packet::UDP(u)) => r == (if start <= u.dst_port
                    && u.dst_port <= end { Some(Action::Allow) } else { None }),
                _ => true,
            },
    {
        match rule {
            FirewallRule::AllowAll => Some(Action::Allow),
            FirewallRule::DenyAll => Some(Action::Deny),
            FirewallRule::AllowPort { port } => match packet {
                Packet::TCP(t) => if t.src_port == *port || t.dst_port == *port { Some(Action::Allow) } else { None },
                Packet::UDP(u) => if u.src_port == *port || u.dst_port == *port { Some(Action::Allow) } else { None },
                _ => None,
            },
            FirewallRule::DenyPort { port } => match packet {
                Packet::TCP(t) => if t.src_port == *port || t.dst_port == *port { Some(Action::Deny) } else { None },
                Packet::UDP(u) => if u.src_port == *port || u.dst_port == *port { Some(Action::Deny) } else { None },
                _ => None,
            },
            FirewallRule::AllowPortRange { start, end } => match packet {
                Packet::TCP(t) => if *start <= t.dst_port && t.dst_port <= *end { Some(Action::Allow) } else { None },
                Packet::UDP(u) => if *start <= u.dst_port && u.dst_port <= *end { Some(Action::Allow) } else { None },
                _ => None,
            },
            FirewallRule::AllowIp { ip } => match packet {
                Packet::Ethernet { inner: Some(b), .. } => match &**b {
                    Packet::IPv4 { packet: p4, .. } => if p4.src_ip.same(ip) || p4.dst_ip.same(ip) {
                        Some(Action::Allow)
                    } else {
                        None
                    },
                    _ => None,
                },
                Packet::IPv4 { packet: p4, .. } => if p4.src_ip.same(ip) || p4.dst_ip.same(ip) {
                    Some(Action::Allow)
                } else {
                    None
                },
                _ => None,
            },
            FirewallRule::AllowSubnet { network, mask } => match packet {
                Packet::IPv4 { packet: p4, .. } => if Self::in_subnet(&p4.dst_ip, network, *mask) {
                    Some(Action::Allow)
                } else {
                    None
                },
                _ => None,
            },
            FirewallRule::AllowService(service) => {
                let detected = Self::detect_service_from_packet(packet);
                if same_service(detected, *service) { Some(Action::Allow) } else { None }
            },
            FirewallRule::DenyService(service) => {
                let detected = Self::detect_service_from_packet(packet);
                if same_service(detected, *service) { Some(Action::Deny) } else { None }
            },
            FirewallRule::Complex { src_ip, dst_ip, src_port, dst_port, protocol, action } => {
                let info = PacketInfo::extract(packet);
                match info {
                    Some(info) => {
                        let ip_match = opt_ip_matches(src_ip, &info.src_ip) && opt_ip_matches(dst_ip, &info.dst_ip);
                        let port_match = opt_port_matches(src_port, &info.src_port) && opt_port_matches(dst_port, &info.dst_port);
                        let proto_match = opt_proto_matches(protocol, &info.protocol);
                        if ip_match && port_match && proto_match { Some(*action) } else { None }
                    },
                    None => None,
                }
            },
            _ => None,
        }
    }

    fn in_subnet(ip: &Ipv4Address, network: &Ipv4Address, mask: u8) -> (r: bool)
        requires
            1 <= mask <= 32,
        ensures
            r == in_subnet_spec(*ip, *network, mask),
    {
        let ip_bits = u32_from_be(ip.0[0], ip.0[1], ip.0[2], ip.0[3]);
        let net_bits = u32_from_be(network.0[0], network.0[1], network.0[2], network.0[3]);
        let shift: u32 = (32 - mask) as u32;
        let mask_bits: u32 = (!0u32) << shift;
        (ip_bits & mask_bits) == (net_bits & mask_bits)
    }

    fn detect_service_from_packet(packet: &Packet) -> (r: Service)
        ensures
            r == service_of_packet(*packet),
    {
        match packet {
            Packet::TCP(tcp) => detect_service(tcp.dst_port, IpProtocol::TCP),
            Packet::UDP(udp) => detect_service(udp.dst_port, IpProtocol::UDP),
            _ => Service::Unknown,
        }
    }
}

// ============================================================================
// Connection tracking
// ============================================================================

#[verifier::external_type_specification]
#[verifier::external_body]
pub struct ExInstant(std::time::Instant);

/// The current instant of the monotonic clock (`std::time::Instant::now`); nothing is
/// promised of the value.
#[verifier::external_body]
pub(crate) fn clock_now() -> std::time::Instant {
    std::time::Instant::now()
}

/// How long ago `then` was, seen from `now` (`Instant::duration_since`); the value is
/// not described.
#[verifier::external_body]
pub(crate) fn elapsed_between(now: &std::time::Instant, then: &std::time::Instant) -> std::time::Duration {
    now.duration_since(*then)
}

/// Whether one duration is shorter than another (`Duration`'s `<`); durations have no
/// model here, so the answer is not described.
#[verifier::external_body]
pub(crate) fn duration_shorter(a: &std::time::Duration, b: &std::time::Duration) -> bool {
    *a < *b
}

/// The five-tuple that identifies a flow.
#[derive(Debug, Clone, Copy, PartialEq, Eq, Hash)]
pub struct ConnectionKey {
    pub src_ip: Ipv4Address,
    pub dst_ip: Ipv4Address,
    pub src_port: u16,
    pub dst_port: u16,
    pub protocol: IpProtocol,
}

/// The direction-independent form of a key: the end with the smaller address (or, for
/// equal addresses, the smaller port) becomes the source.
pub open spec fn canonical_key(k: ConnectionKey) -> ConnectionKey {
    if ip_value(k.src_ip) < ip_value(k.dst_ip) || (k.src_ip == k.dst_ip && k.src_port < k.dst_port) {
        k
    } else {
        ConnectionKey {
            src_ip: k.dst_ip,
            dst_ip: k.src_ip,
            src_port: k.dst_port,
            dst_port: k.src_port,
            protocol: k.protocol,
        }
    }
}

impl ConnectionKey {
    pub fn canonical(&self) -> (r: Self)
        ensures
            r == canonical_key(*self),
    {
        let a = u32_from_be(self.src_ip.0[0], self.src_ip.0[1], self.src_ip.0[2], self.src_ip.0[3]);
        let b = u32_from_be(self.dst_ip.0[0], self.dst_ip.0[1], self.dst_ip.0[2], self.dst_ip.0[3]);
        if a < b || (self.src_ip.same(&self.dst_ip) && self.src_port < self.dst_port) {
            *self
        } else {
            ConnectionKey {
                src_ip: self.dst_ip,
                dst_ip: self.src_ip,
                src_port: self.dst_port,
                dst_port: self.src_port,
                protocol: self.protocol,
            }
        }
    }

    /// Whether both keys name the same flow in the same direction.
    pub fn same(&self, other: &Self) -> (r: bool)
        ensures
            r == (*self == *other),
    {
        self.src_ip.same(&other.src_ip) && self.dst_ip.same(&other.dst_ip) && self.src_port
            == other.src_port && self.dst_port == other.dst_port && self.protocol.same(&other.protocol)
    }
}

/// The state of a tracked flow.
#[derive(Debug, Clone, Copy, PartialEq, Eq)]
pub enum ConnectionState {
    Unknown,
    TcpSynSent,
    TcpSynReceived,
    TcpEstablished,
    TcpFinWait,
    TcpClosed,
    UdpActive,
}

/// A tracked flow.
#[derive(Debug, Clone, Copy)]
pub struct Connection {
    pub key: ConnectionKey,
    pub state: ConnectionState,
    pub packets: usize,
    pub bytes: usize,
    pub start_time: std::time::Instant,
    pub last_seen: std::time::Instant,
}

/// Packet counters by layer.
#[derive(Debug)]
pub struct Statistics {
    pub total_packets: usize,
    pub ethernet_packets: usize,
    pub ipv4_packets: usize,
    pub tcp_packets: usize,
    pub udp_packets: usize,
    pub icmp_packets: usize,
    pub raw_packets: usize,
}

impl Default for Statistics {
    fn default() -> (r: Self)
        ensures
            r.total_packets == 0 && r.ethernet_packets == 0 && r.ipv4_packets == 0
                && r.tcp_packets == 0 && r.udp_packets == 0 && r.icmp_packets == 0
                && r.raw_packets == 0,
    {
        Statistics {
            total_packets: 0,
            ethernet_packets: 0,
            ipv4_packets: 0,
            tcp_packets: 0,
            udp_packets: 0,
            icmp_packets: 0,
            raw_packets: 0,
        }
    }
}

/// The counter of control-message packets.
pub open spec fn control_message_count(s: Statistics) -> usize {
    s.icmp_packets
}

/// The TCP state machine step (SYN, SYN-ACK, ACK, FIN, RST) and UDP activity.
pub open spec fn next_state(p: Packet, s: ConnectionState) -> ConnectionState {
    match p {
        Packet::TCP(t) => {
            let f = t.flags;
            if f.syn && !f.ack && s is Unknown {
                ConnectionState::TcpSynSent
            } else if f.syn && f.ack && s is TcpSynSent {
                ConnectionState::TcpSynReceived
            } else if f.ack && !f.syn && !f.fin && s is TcpSynReceived {
                ConnectionState::TcpEstablished
            } else if f.fin && s is TcpEstablished {
                ConnectionState::TcpFinWait
            } else if f.rst {
                ConnectionState::TcpClosed
            } else {
                s
            }
        },
        Packet::UDP(_) => ConnectionState::UdpActive,
        _ => s,
    }
}

/// The connection key of a packet that exposes both addresses, both ports and a
/// protocol.
pub open spec fn key_of(p: Packet) -> Option<ConnectionKey> {
    match packet_info(p) {
        Some(info) => if info.src_ip is Some && info.dst_ip is Some && info.src_port is Some
            && info.dst_port is Some && info.protocol is Some {
            Some(ConnectionKey {
                src_ip: info.src_ip->0,
                dst_ip: info.dst_ip->0,
                src_port: info.src_port->0,
                dst_port: info.dst_port->0,
                protocol: info.protocol->0,
            })
        } else {
            None
        },
        None => None,
    }
}

/// Counts packets by layer and tracks flows by their canonical key.
pub struct PacketAnalyzer {
    connections: Vec<Connection>,
    statistics: Statistics,
}

/// Whether a connection is counted as closed.
pub open spec fn is_closed(c: Connection) -> bool {
    c.state is TcpClosed
}

/// The first `n` flows of `conns` that are not closed and whose flag in `recent` is set,
/// in order.
pub open spec fn active_prefix(conns: Seq<Connection>, recent: Seq<bool>, n: int) -> Seq<Connection>
    decreases n,
{
    if n <= 0 {
        Seq::empty()
    } else {
        let rest = active_prefix(conns, recent, n - 1);
        if recent[n - 1] && !is_closed(conns[n - 1]) {
            rest.push(conns[n - 1])
        } else {
            rest
        }
    }
}

/// Of the first `n` flows of `conns`, those that are not closed or whose flag in `young`
/// is set, in order.
pub open spec fn kept_prefix(conns: Seq<Connection>, young: Seq<bool>, n: int) -> Seq<Connection>
    decreases n,
{
    if n <= 0 {
        Seq::empty()
    } else {
        let rest = kept_prefix(conns, young, n - 1);
        if young[n - 1] || !is_closed(conns[n - 1]) {
            rest.push(conns[n - 1])
        } else {
            rest
        }
    }
}

/// The references in `refs` point, one by one, at the flows of `flows`.
pub open spec fn selects(refs: Seq<&Connection>, flows: Seq<Connection>) -> bool {
    refs.len() == flows.len() && forall|k: int| 0 <= k < refs.len() ==> *#[trigger] refs[k] == flows[k]
}

impl PacketAnalyzer {
    /// The tracked flows, in the order they were first seen.
    pub closed spec fn connections(&self) -> Seq<Connection> {
        self.connections@
    }

    /// The packet counters.
    pub closed spec fn stats(&self) -> Statistics {
        self.statistics
    }

    /// No two flows share a key, and no counter exceeds the total.
    pub closed spec fn wf(&self) -> bool {
        &&& forall|i: int, j: int|
            0 <= i < j < self.connections@.len() ==> self.connections@[i].key
                != self.connections@[j].key
        &&& forall|i: int|
            0 <= i < self.connections@.len() ==> self.connections@[i].packets
                <= self.statistics.total_packets
        &&& self.statistics.ethernet_packets <= self.statistics.total_packets
        &&& self.statistics.ipv4_packets <= self.statistics.total_packets
        &&& self.statistics.tcp_packets <= self.statistics.total_packets
        &&& self.statistics.udp_packets <= self.statistics.total_packets
        &&& self.statistics.raw_packets <= self.statistics.total_packets
    }

    pub fn new() -> (r: Self)
        ensures
            r.wf(),
            r.connections().len() == 0,
            r.stats().total_packets == 0,
    {
        PacketAnalyzer { connections: Vec::new(), statistics: Statistics::default() }
    }

    /// The index of the flow with key `key`, if it is tracked.
    fn find_connection(&self, key: &ConnectionKey) -> (r: Option<usize>)
        ensures
            match r {
                Some(i) => i < self.connections@.len() && self.connections@[i as int].key == *key,
                None => forall|i: int| 0 <= i < self.connections@.len() ==> self.connections@[i].key != *key,
            },
    {
        let mut i: usize = 0;
        while i < self.connections.len()
            invariant
                i <= self.connections@.len(),
                forall|j: int| 0 <= j < i ==> self.connections@[j].key != *key,
            decreases self.connections@.len() - i,
        {
            if self.connections[i].key.same(key) {
                return Some(i);
            }
            i = i + 1;
        }
        None
    }

    /// Counts the packet and, when it carries a full five-tuple, records it on the flow
    /// with its canonical key (creating the flow if needed) and steps the flow's state.
    pub fn process_packet(&mut self, packet: &Packet)
        requires
            old(self).wf(),
            old(self).stats().total_packets < usize::MAX,
        ensures
            final(self).wf(),
            final(self).stats().total_packets == old(self).stats().total_packets + 1,
            final(self).stats().ethernet_packets == old(self).stats().ethernet_packets + (if packet is Ethernet { 1int } else { 0 }),
            final(self).stats().ipv4_packets == old(self).stats().ipv4_packets + (if packet is IPv4 { 1int } else { 0 }),
            final(self).stats().tcp_packets == old(self).stats().tcp_packets + (if packet is TCP { 1int } else { 0 }),
            final(self).stats().udp_packets == old(self).stats().udp_packets + (if packet is UDP { 1int } else { 0 }),
            final(self).stats().raw_packets == old(self).stats().raw_packets + (if packet is Raw { 1int } else { 0 }),
            control_message_count(final(self).stats()) == control_message_count(old(self).stats()),
            key_of(*packet) is None ==> final(self).connections() == old(self).connections(),
            key_of(*packet) matches Some(k) ==> {
                let ck = canonical_key(k);
                ||| exists|i: int| {
                    &&& 0 <= i < old(self).connections().len()
                    &&& old(self).connections()[i].key == ck
                    &&& final(self).connections().len() == old(self).connections().len()
                    &&& final(self).connections()[i].key == ck
                    &&& final(self).connections()[i].packets == old(self).connections()[i].packets + 1
                    &&& final(self).connections()[i].bytes == old(self).connections()[i].bytes
                    &&& final(self).connections()[i].state == next_state(*packet, old(self).connections()[i].state)
                    &&& forall|j: int| 0 <= j < final(self).connections().len() && j != i
                        ==> final(self).connections()[j] == old(self).connections()[j]
                }
                ||| {
                    &&& forall|i: int| 0 <= i < old(self).connections().len()
                        ==> old(self).connections()[i].key != ck
                    &&& final(self).connections().len() == old(self).connections().len() + 1
                    &&& final(self).connections().subrange(0, old(self).connections().len() as int) == old(self).connections()
                    &&& final(self).connections().last().key == ck
                    &&& final(self).connections().last().packets == 1
                    &&& final(self).connections().last().bytes == 0
                    &&& final(self).connections().last().state == next_state(*packet, ConnectionState::Unknown)
                }
            },
    {
        self.statistics.total_packets = self.statistics.total_packets + 1;
        self.update_statistics(packet);
        if let Some(key) = Self::extract_connection_key(packet) {
            self.track_connection(key.canonical(), packet);
        }
    }

    fn update_statistics(&mut self, packet: &Packet)
        requires
            old(self).statistics.ethernet_packets < old(self).statistics.total_packets,
            old(self).statistics.ipv4_packets < old(self).statistics.total_packets,
            old(self).statistics.tcp_packets < old(self).statistics.total_packets,
            old(self).statistics.udp_packets < old(self).statistics.total_packets,
            old(self).statistics.raw_packets < old(self).statistics.total_packets,
        ensures
            final(self).connections == old(self).connections,
            final(self).statistics.total_packets == old(self).statistics.total_packets,
            final(self).statistics.icmp_packets == old(self).statistics.icmp_packets,
            final(self).statistics.ethernet_packets == old(self).statistics.ethernet_packets + (if packet is Ethernet { 1int } else { 0 }),
            final(self).statistics.ipv4_packets == old(self).statistics.ipv4_packets + (if packet is IPv4 { 1int } else { 0 }),
            final(self).statistics.tcp_packets == old(self).statistics.tcp_packets + (if packet is TCP { 1int } else { 0 }),
            final(self).statistics.udp_packets == old(self).statistics.udp_packets + (if packet is UDP { 1int } else { 0 }),
            final(self).statistics.raw_packets == old(self).statistics.raw_packets + (if packet is Raw { 1int } else { 0 }),
    {
        match packet {
            Packet::Ethernet { .. } => self.statistics.ethernet_packets = self.statistics.ethernet_packets + 1,
            Packet::IPv4 { .. } => self.statistics.ipv4_packets = self.statistics.ipv4_packets + 1,
            Packet::TCP(_) => self.statistics.tcp_packets = self.statistics.tcp_packets + 1,
            Packet::UDP(_) => self.statistics.udp_packets = self.statistics.udp_packets + 1,
            Packet::Raw(_) => self.statistics.raw_packets = self.statistics.raw_packets + 1,
        }
    }

    fn track_connection(&mut self, key: ConnectionKey, packet: &Packet)
        requires
            forall|i: int, j: int|
                0 <= i < j < old(self).connections@.len() ==> old(self).connections@[i].key
                    != old(self).connections@[j].key,
            forall|i: int|
                0 <= i < old(self).connections@.len() ==> old(self).connections@[i].packets
                    < old(self).statistics.total_packets,
            old(self).statistics.total_packets >= 1,
        ensures
            final(self).statistics == old(self).statistics,
            forall|i: int, j: int|
                0 <= i < j < final(self).connections@.len() ==> final(self).connections@[i].key
                    != final(self).connections@[j].key,
            forall|i: int|
                0 <= i < final(self).connections@.len() ==> final(self).connections@[i].packets
                    <= final(self).statistics.total_packets,
            ({
            ||| exists|i: int| {
                &&& 0 <= i < old(self).connections@.len()
                &&& old(self).connections@[i].key == key
                &&& final(self).connections@.len() == old(self).connections@.len()
                &&& final(self).connections@[i].key == key
                &&& final(self).connections@[i].packets == old(self).connections@[i].packets + 1
                &&& final(self).connections@[i].bytes == old(self).connections@[i].bytes
                &&& final(self).connections@[i].state == next_state(*packet, old(self).connections@[i].state)
                &&& forall|j: int| 0 <= j < final(self).connections@.len() && j != i
                    ==> final(self).connections@[j] == old(self).connections@[j]
            }
            ||| {
                &&& forall|i: int| 0 <= i < old(self).connections@.len()
                    ==> old(self).connections@[i].key != key
                &&& final(self).connections@.len() == old(self).connections@.len() + 1
                &&& final(self).connections@.subrange(0, old(self).connections@.len() as int) == old(self).connections@
                &&& final(self).connections@.last().key == key
                &&& final(self).connections@.last().packets == 1
                &&& final(self).connections@.last().bytes == 0
                &&& final(self).connections@.last().state == next_state(*packet, ConnectionState::Unknown)
            }
            }),
    {
        let now = clock_now();
        match self.find_connection(&key) {
            Some(i) => {
                let mut conn = self.connections[i];
                conn.packets = conn.packets + 1;
                conn.last_seen = now;
                conn.state = Self::update_connection_state(conn.state, packet);
                self.connections.set(i, conn);
            },
            None => {
                let conn = Connection {
                    key,
                    state: Self::update_connection_state(ConnectionState::Unknown, packet),
                    packets: 1,
                    bytes: 0,
                    start_time: now,
                    last_seen: now,
                };
                self.connections.push(conn);
            },
        }
    }

    fn update_connection_state(state: ConnectionState, packet: &Packet) -> (r: ConnectionState)
        ensures
            r == next_state(*packet, state),
    {
        match packet {
            Packet::TCP(t) => {
                let f = t.flags;
                let unknown = match state { ConnectionState::Unknown => true, _ => false };
                let syn_sent = match state { ConnectionState::TcpSynSent => true, _ => false };
                let syn_received = match state { ConnectionState::TcpSynReceived => true, _ => false };
                let established = match state { ConnectionState::TcpEstablished => true, _ => false };
                if f.syn && !f.ack && unknown {
                    ConnectionState::TcpSynSent
                } else if f.syn && f.ack && syn_sent {
                    ConnectionState::TcpSynReceived
                } else if f.ack && !f.syn && !f.fin && syn_received {
                    ConnectionState::TcpEstablished
                } else if f.fin && established {
                    ConnectionState::TcpFinWait
                } else if f.rst {
                    ConnectionState::TcpClosed
                } else {
                    state
                }
            },
            Packet::UDP(_) => ConnectionState::UdpActive,
            _ => state,
        }
    }

    fn extract_connection_key(packet: &Packet) -> (r: Option<ConnectionKey>)
        ensures
            r == key_of(*packet),
    {
        let info = PacketInfo::extract(packet)?;
        Some(ConnectionKey {
            src_ip: info.src_ip?,
            dst_ip: info.dst_ip?,
            src_port: info.src_port?,
            dst_port: info.dst_port?,
            protocol: info.protocol?,
        })
    }

    /// The flows seen within the last minute that are not closed, in tracking order.
    /// Which flows count as recent depends on the clock: the result is the selection that
    /// `active_among` makes for some flags, one per flow.
    pub fn get_active_connections(&self) -> (r: Vec<&Connection>)
        ensures
            r@.len() <= self.connections().len(),
            forall|k: int| 0 <= k < r@.len() ==> !is_closed(*r@[k]) && self.connections().contains(*r@[k]),
            exists|recent: Seq<bool>| #![trigger active_prefix(self.connections(), recent, self.connections().len() as int)]
                recent.len() == self.connections().len() && selects(r@, active_prefix(self.connections(), recent, self.connections().len() as int)),
    {
        let now = clock_now();
        let limit = crate::safe_config::duration_from_secs(60);
        let mut recent: Vec<bool> = Vec::new();
        let mut i: usize = 0;
        while i < self.connections.len()
            invariant
                i <= self.connections@.len(),
                recent@.len() == i,
            decreases self.connections@.len() - i,
        {
            let age = elapsed_between(&now, &self.connections[i].last_seen);
            recent.push(duration_shorter(&age, &limit));
            i = i + 1;
        }
        let r = self.active_among(&recent);
        proof {
            let n = self.connections().len() as int;
            assert(recent@.len() == self.connections().len() && selects(r@, active_prefix(self.connections(), recent@, n)));
        }
        r
    }

    /// The flows that are not closed and whose flag in `recent` is set, in tracking order.
    pub fn active_among(&self, recent: &Vec<bool>) -> (r: Vec<&Connection>)
        requires
            recent@.len() == self.connections().len(),
        ensures
            selects(r@, active_prefix(self.connections(), recent@, self.connections().len() as int)),
            r@.len() <= self.connections().len(),
            forall|k: int| 0 <= k < r@.len() ==> !is_closed(*r@[k]) && self.connections().contains(*r@[k]),
    {
        let ghost conns = self.connections@;
        let mut out: Vec<&Connection> = Vec::new();
        let mut i: usize = 0;
        while i < self.connections.len()
            invariant
                conns == self.connections@,
                recent@.len() == conns.len(),
                i <= conns.len(),
                out@.len() <= i,
                selects(out@, active_prefix(conns, recent@, i as int)),
                forall|k: int| 0 <= k < out@.len() ==> !is_closed(*out@[k]) && conns.contains(*out@[k]),
            decreases conns.len() - i,
        {
            let conn = &self.connections[i];
            let closed = match conn.state { ConnectionState::TcpClosed => true, _ => false };
            let ghost before = out@;
            if recent[i] && !closed {
                out.push(conn);
                proof {
                    assert(out@[out@.len() - 1] == conn);
                    assert(conns[i as int] == *conn);
                }
            }
            i = i + 1;
        }
        out
    }

    /// Drops closed flows that were last seen at least `max_age` ago; every flow that is
    /// not closed stays, and the order is kept. Which closed flows are old depends on the
    /// clock: the result is what `retain_flows` keeps for some flags, one per flow.
    pub fn cleanup_old_connections(&mut self, max_age: std::time::Duration)
        requires
            old(self).wf(),
        ensures
            final(self).wf(),
            final(self).stats() == old(self).stats(),
            forall|i: int| 0 <= i < old(self).connections().len() && !is_closed(old(self).connections()[i])
                ==> final(self).connections().contains(old(self).connections()[i]),
            forall|k: int| 0 <= k < final(self).connections().len()
                ==> old(self).connections().contains(final(self).connections()[k]),
            exists|young: Seq<bool>| #![trigger kept_prefix(old(self).connections(), young, old(self).connections().len() as int)]
                young.len() == old(self).connections().len()
                && final(self).connections() == kept_prefix(old(self).connections(), young, old(self).connections().len() as int),
    {
        let now = clock_now();
        let mut young: Vec<bool> = Vec::new();
        let mut i: usize = 0;
        while i < self.connections.len()
            invariant
                i <= self.connections@.len(),
                young@.len() == i,
            decreases self.connections@.len() - i,
        {
            let age = elapsed_between(&now, &self.connections[i].last_seen);
            young.push(duration_shorter(&age, &max_age));
            i = i + 1;
        }
        let ghost before = self.connections();
        self.retain_flows(&young);
        proof {
            let n = before.len() as int;
            assert(young@.len() == before.len() && self.connections() == kept_prefix(before, young@, n));
        }
    }

    /// Keeps the flows that are not closed or whose flag in `young` is set, in order, and
    /// drops the others.
    pub fn retain_flows(&mut self, young: &Vec<bool>)
        requires
            old(self).wf(),
            young@.len() == old(self).connections().len(),
        ensures
            final(self).wf(),
            final(self).stats() == old(self).stats(),
            final(self).connections() == kept_prefix(old(self).connections(), young@, old(self).connections().len() as int),
            forall|i: int| 0 <= i < old(self).connections().len() && !is_closed(old(self).connections()[i])
                ==> final(self).connections().contains(old(self).connections()[i]),
            forall|k: int| 0 <= k < final(self).connections().len()
                ==> old(self).connections().contains(final(self).connections()[k]),
    {
        let mut kept: Vec<Connection> = Vec::new();
        let mut old_conns: Vec<Connection> = Vec::new();
        std::mem::swap(&mut old_conns, &mut self.connections);
        let ghost orig = old_conns@;
        let ghost mut idx: Seq<int> = Seq::empty();
        let mut i: usize = 0;
        while i < old_conns.len()
            invariant
                old_conns@ == orig,
                young@.len() == orig.len(),
                i <= orig.len(),
                idx.len() == kept@.len(),
                kept@ == kept_prefix(orig, young@, i as int),
                forall|k: int| 0 <= k < kept@.len() ==> 0 <= #[trigger] idx[k] < i && kept@[k] == orig[idx[k]],
                forall|a: int, b: int| 0 <= a < b < kept@.len() ==> #[trigger] idx[a] < #[trigger] idx[b],
                forall|j: int| 0 <= j < i && !is_closed(#[trigger] orig[j]) ==> kept@.contains(orig[j]),
            decreases orig.len() - i,
        {
            let conn = &old_conns[i];
            let closed = match conn.state { ConnectionState::TcpClosed => true, _ => false };
            let ghost prev = kept@;
            if young[i] || !closed {
                kept.push(*conn);
                proof {
                    idx = idx.push(i as int);
                    assert(kept@[kept@.len() - 1] == orig[i as int]);
                }
            }
            proof {
                assert forall|j: int| 0 <= j < i + 1 && !is_closed(#[trigger] orig[j]) implies kept@.contains(orig[j]) by {
                    if j == i {
                        assert(kept@[kept@.len() - 1] == orig[j]);
                    } else {
                        assert(prev.contains(orig[j]));
                        let n = choose|n: int| 0 <= n < prev.len() && prev[n] == orig[j];
                        assert(kept@[n] == orig[j]);
                    }
                }
            }
            i = i + 1;
        }
        proof {
            assert forall|a: int, b: int| 0 <= a < b < kept@.len() implies kept@[a].key != kept@[b].key by {
                assert(idx[a] < idx[b]);
            }
            assert forall|k: int| 0 <= k < kept@.len() implies orig.contains(kept@[k]) by {
                assert(kept@[k] == orig[idx[k]]);
            }
        }
        self.connections = kept;
    }
}

/// A coarse judgement of a flow from its state and packet count.
#[derive(Debug, PartialEq, Eq)]
pub enum ConnectionAnalysis {
    Normal,
    SynFlood,
    PossiblePortScan,
    LongLived,
    UdpQuery,
    Closed,
}

pub fn analyze_connection(conn: &Connection) -> (r: ConnectionAnalysis)
    ensures
        r == (match conn.state {
            ConnectionState::TcpSynSent => if conn.packets > 100 {
                ConnectionAnalysis::SynFlood
            } else if conn.packets < 5 {
                ConnectionAnalysis::PossiblePortScan
            } else {
                ConnectionAnalysis::Normal
            },
            ConnectionState::TcpEstablished => if conn.packets > 10000 {
                ConnectionAnalysis::LongLived
            } else {
                ConnectionAnalysis::Normal
            },
            ConnectionState::UdpActive => if conn.packets < 3 {
                ConnectionAnalysis::UdpQuery
            } else {
                ConnectionAnalysis::Normal
            },
            ConnectionState::TcpClosed => ConnectionAnalysis::Closed,
            _ => ConnectionAnalysis::Normal,
        }),
{
    match conn.state {
        ConnectionState::TcpSynSent => if conn.packets > 100 {
            ConnectionAnalysis::SynFlood
        } else if conn.packets < 5 {
            ConnectionAnalysis::PossiblePortScan
        } else {
            ConnectionAnalysis::Normal
        },
        ConnectionState::TcpEstablished => if conn.packets > 10000 {
            ConnectionAnalysis::LongLived
        } else {
            ConnectionAnalysis::Normal
        },
        ConnectionState::UdpActive => if conn.packets < 3 {
            ConnectionAnalysis::UdpQuery
        } else {
            ConnectionAnalysis::Normal
        },
        ConnectionState::TcpClosed => ConnectionAnalysis::Closed,
        _ => ConnectionAnalysis::Normal,
    }
}

/// Feeds every packet to the analyzer in order; after every thousandth packet in the
/// analyzer's lifetime, closed flows idle for five minutes are dropped.
pub fn process_packet_stream(analyzer: &mut PacketAnalyzer, packets: Vec<Packet>)
    requires
        old(analyzer).wf(),
        old(analyzer).stats().total_packets + packets@.len() <= usize::MAX,
    ensures
        final(analyzer).wf(),
        final(analyzer).stats().total_packets == old(analyzer).stats().total_packets + packets@.len(),
{
    let mut i: usize = 0;
    while i < packets.len()
        invariant
            analyzer.wf(),
            i <= packets@.len(),
            analyzer.stats().total_packets == old(analyzer).stats().total_packets + i,
            old(analyzer).stats().total_packets + packets@.len() <= usize::MAX,
        decreases packets@.len() - i,
    {
        analyzer.process_packet(&packets[i]);
        if analyzer.statistics.total_packets % 1000 == 0 {
            analyzer.cleanup_old_connections(crate::safe_config::duration_from_secs(300));
        }
        i = i + 1;
    }
}

} // verus!
