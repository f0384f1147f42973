//! Classification of captured Ethernet frames.

use vstd::prelude::*;
use pnet::packet::ethernet::EthernetPacket;
use pnet::packet::ipv4::Ipv4Packet;
use pnet::packet::ipv6::Ipv6Packet;
use pnet::packet::Packet;
use crate::data::{AddressPair, Ipv4StatsKey, Ipv6StatsKey, StatsKey};

verus! {

/// Length of the Ethernet header.
pub const ETHERNET_HEADER_LEN: usize = 14;

/// Length of an IPv4 header without options.
pub const IPV4_HEADER_LEN: usize = 20;

/// Length of the fixed IPv6 header.
pub const IPV6_HEADER_LEN: usize = 40;

/// EtherType of IPv4.
pub const ETHERTYPE_IPV4: u16 = 0x0800;

/// EtherType of IPv6.
pub const ETHERTYPE_IPV6: u16 = 0x86DD;

/// The number that the `n` bytes of `bytes` from index `at` on spell in
/// network order (most significant byte first).
pub open spec fn be_value(bytes: Seq<u8>, at: int, n: nat) -> nat
    decreases n,
{
    if n == 0 {
        0
    } else {
        be_value(bytes, at, (n - 1) as nat) * 256 + bytes[at + n - 1] as nat
    }
}

/// What the classifier reads from an Ethernet frame.
struct EthernetView {
    ethertype: u16,
    payload: Vec<u8>,
}

/// What the classifier reads from an IPv4 header.
struct Ipv4View {
    source: u32,
    destination: u32,
    total_length: u16,
}

/// What the classifier reads from an IPv6 header.
struct Ipv6View {
    source: u128,
    destination: u128,
    payload_length: u16,
}

/// `pnet`'s `EthernetPacket::new`, `get_ethertype` and `payload`: a frame
/// shorter than the 14-byte header is refused; otherwise the EtherType is
/// the big-endian number in bytes 12 and 13, and the payload is every byte
/// after the header.
#[verifier::external_body]
fn ethernet_view(frame: &[u8]) -> (r: Option<EthernetView>)
    ensures
        r is Some <==> frame@.len() >= ETHERNET_HEADER_LEN,
        r matches Some(e) ==> {
            &&& e.ethertype == be_value(frame@, 12, 2)
            &&& e.payload@ == frame@.subrange(ETHERNET_HEADER_LEN as int, frame@.len() as int)
        },
{
    match EthernetPacket::new(frame) {
        Some(p) => Some(
            EthernetView { ethertype: p.get_ethertype().0, payload: p.payload().to_vec() },
        ),
        None => None,
    }
}

/// `pnet`'s `Ipv4Packet::new`, `get_source`, `get_destination` and
/// `get_total_length`: a buffer shorter than the 20-byte header is refused;
/// otherwise the total length is the big-endian number in bytes 2 and 3, the
/// source address the four bytes from 12 on and the destination the four
/// from 16 on. Version and header-length nibbles are not inspected.
#[verifier::external_body]
fn ipv4_view(packet: &[u8]) -> (r: Option<Ipv4View>)
    ensures
        r is Some <==> packet@.len() >= IPV4_HEADER_LEN,
        r matches Some(h) ==> {
            &&& h.total_length == be_value(packet@, 2, 2)
            &&& h.source == be_value(packet@, 12, 4)
            &&& h.destination == be_value(packet@, 16, 4)
        },
{
    match Ipv4Packet::new(packet) {
        Some(p) => Some(Ipv4View {
            source: u32::from(p.get_source()),
            destination: u32::from(p.get_destination()),
            total_length: p.get_total_length(),
        }),
        None => None,
    }
}

/// `pnet`'s `Ipv6Packet::new`, `get_source`, `get_destination` and
/// `get_payload_length`: a buffer shorter than the 40-byte header is
/// refused; otherwise the payload length is the big-endian number in bytes
/// 4 and 5, the source address the sixteen bytes from 8 on and the
/// destination the sixteen from 24 on. The version nibble is not inspected.
#[verifier::external_body]
fn ipv6_view(packet: &[u8]) -> (r: Option<Ipv6View>)
    ensures
        r is Some <==> packet@.len() >= IPV6_HEADER_LEN,
        r matches Some(h) ==> {
            &&& h.payload_length == be_value(packet@, 4, 2)
            &&& h.source == be_value(packet@, 8, 16)
            &&& h.destination == be_value(packet@, 24, 16)
        },
{
    match Ipv6Packet::new(packet) {
        Some(p) => Some(Ipv6View {
            source: u128::from(p.get_source()),
            destination: u128::from(p.get_destination()),
            payload_length: p.get_payload_length(),
        }),
        None => None,
    }
}

/// Why a frame contributes nothing to the table.
#[derive(Clone, Copy, Debug, PartialEq, Eq, Structural)]
pub enum ClassifyError {
    /// The buffer is shorter than an Ethernet header.
    FrameTooSmall,
    /// The frame announces IPv4 but its payload is shorter than an IPv4 header.
    Ipv4HeaderTooSmall,
    /// The frame announces IPv6 but its payload is shorter than an IPv6 header.
    Ipv6HeaderTooSmall,
    /// The EtherType is neither IPv4 nor IPv6.
    UnsupportedProtocol,
}

/// The key and declared length that an IPv4 header yields.
pub open spec fn ipv4_observation(header: Seq<u8>) -> (StatsKey, u128) {
    (
        StatsKey(
            AddressPair::V4(
                Ipv4StatsKey {
                    source: be_value(header, 12, 4) as u32,
                    dest: be_value(header, 16, 4) as u32,
                },
            ),
        ),
        be_value(header, 2, 2) as u128,
    )
}

/// The key and declared length that an IPv6 header yields.
pub open spec fn ipv6_observation(header: Seq<u8>) -> (StatsKey, u128) {
    (
        StatsKey(
            AddressPair::V6(
                Ipv6StatsKey {
                    source: be_value(header, 8, 16) as u128,
                    dest: be_value(header, 24, 16) as u128,
                },
            ),
        ),
        be_value(header, 4, 2) as u128,
    )
}

/// What a frame is classified as.
///
/// The declared length is the one the network-layer header states: for IPv4
/// the total length (header and payload), for IPv6 the payload length
/// (payload only). It is never the size of the buffer.
pub open spec fn classify(frame: Seq<u8>) -> Result<(StatsKey, u128), ClassifyError> {
    if frame.len() < ETHERNET_HEADER_LEN {
        Err(ClassifyError::FrameTooSmall)
    } else {
        let payload = frame.subrange(ETHERNET_HEADER_LEN as int, frame.len() as int);
        let ethertype = be_value(frame, 12, 2);
        if ethertype == ETHERTYPE_IPV4 {
            if payload.len() < IPV4_HEADER_LEN {
                Err(ClassifyError::Ipv4HeaderTooSmall)
            } else {
                Ok(ipv4_observation(payload))
            }
        } else if ethertype == ETHERTYPE_IPV6 {
            if payload.len() < IPV6_HEADER_LEN {
                Err(ClassifyError::Ipv6HeaderTooSmall)
            } else {
                Ok(ipv6_observation(payload))
            }
        } else {
            Err(ClassifyError::UnsupportedProtocol)
        }
    }
}

/// Which frames are dropped, and why: a frame shorter than the Ethernet
/// header, the empty frame among them; a frame that announces IPv4 with
/// fewer than 20 bytes after the Ethernet header, or IPv6 with fewer than
/// 40; a frame that announces anything else. Every other frame yields an
/// observation.
pub proof fn lemma_dropped_frames(frame: Seq<u8>)
    ensures
        frame.len() < 14 ==> classify(frame) == Err::<(StatsKey, u128), ClassifyError>(
            ClassifyError::FrameTooSmall,
        ),
        frame.len() >= 14 && be_value(frame, 12, 2) == 0x0800 && frame.len() < 34 ==> classify(
            frame,
        ) == Err::<(StatsKey, u128), ClassifyError>(ClassifyError::Ipv4HeaderTooSmall),
        frame.len() >= 14 && be_value(frame, 12, 2) == 0x86DD && frame.len() < 54 ==> classify(
            frame,
        ) == Err::<(StatsKey, u128), ClassifyError>(ClassifyError::Ipv6HeaderTooSmall),
        frame.len() >= 14 && be_value(frame, 12, 2) != 0x0800 && be_value(frame, 12, 2) != 0x86DD
            ==> classify(frame) == Err::<(StatsKey, u128), ClassifyError>(
            ClassifyError::UnsupportedProtocol,
        ),
        classify(frame) is Ok <==> (be_value(frame, 12, 2) == 0x0800 && frame.len() >= 34) || (
        be_value(frame, 12, 2) == 0x86DD && frame.len() >= 54),
{
}

/// Classifies one captured frame: the address pair and the declared length
/// of an IPv4 or IPv6 packet, or the reason why the frame is dropped.
pub fn proc_packet(packet: &[u8]) -> (r: Result<(StatsKey, u128), ClassifyError>)
    ensures
        r == classify(packet@),
{
    match ethernet_view(packet) {
        Some(eth) => {
            if eth.ethertype == ETHERTYPE_IPV4 {
                match ipv4_view(eth.payload.as_slice()) {
                    Some(p) => Ok(
                        (
                            StatsKey(
                                AddressPair::V4(
                                    Ipv4StatsKey { source: p.source, dest: p.destination },
                                ),
                            ),
                            p.total_length as u128,
                        ),
                    ),
                    None => Err(ClassifyError::Ipv4HeaderTooSmall),
                }
            } else if eth.ethertype == ETHERTYPE_IPV6 {
                match ipv6_view(eth.payload.as_slice()) {
                    Some(p) => Ok(
                        (
                            StatsKey(
                                AddressPair::V6(
                                    Ipv6StatsKey { source: p.source, dest: p.destination },
                                ),
                            ),
                            p.payload_length as u128,
                        ),
                    ),
                    None => Err(ClassifyError::Ipv6HeaderTooSmall),
                }
            } else {
                Err(ClassifyError::UnsupportedProtocol)
            }
        },
        None => Err(ClassifyError::FrameTooSmall),
    }
}

} // verus!
