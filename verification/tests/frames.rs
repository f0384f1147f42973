use pnet::packet::ethernet::{EtherTypes, MutableEthernetPacket};
use pnet::packet::ipv4::MutableIpv4Packet;
use pnet::packet::ipv6::MutableIpv6Packet;
use whoisthere::data::{AddressPair, Ipv4StatsKey, Ipv6StatsKey, StatsKey};
use whoisthere::frame::{proc_packet, ClassifyError};

fn ethernet(ethertype: u16, payload: &[u8]) -> Vec<u8> {
    let mut frame = vec![0x02, 0, 0, 0, 0, 0x01, 0x02, 0, 0, 0, 0, 0x02];
    frame.extend_from_slice(&ethertype.to_be_bytes());
    frame.extend_from_slice(payload);
    frame
}

fn ipv4_header(source: u32, dest: u32, total_length: u16) -> Vec<u8> {
    let mut header = vec![0x45, 0x00];
    header.extend_from_slice(&total_length.to_be_bytes());
    header.extend_from_slice(&[0x12, 0x34, 0x40, 0x00, 64, 6, 0xAB, 0xCD]);
    header.extend_from_slice(&source.to_be_bytes());
    header.extend_from_slice(&dest.to_be_bytes());
    header
}

fn ipv6_header(source: u128, dest: u128, payload_length: u16) -> Vec<u8> {
    let mut header = vec![0x60, 0x0A, 0xBC, 0xDE];
    header.extend_from_slice(&payload_length.to_be_bytes());
    header.extend_from_slice(&[17, 64]);
    header.extend_from_slice(&source.to_be_bytes());
    header.extend_from_slice(&dest.to_be_bytes());
    header
}

fn v4_key(source: u32, dest: u32) -> StatsKey {
    StatsKey(AddressPair::V4(Ipv4StatsKey { source, dest }))
}

fn v6_key(source: u128, dest: u128) -> StatsKey {
    StatsKey(AddressPair::V6(Ipv6StatsKey { source, dest }))
}

#[test]
fn empty_frame_is_too_small() {
    assert_eq!(proc_packet(&[]), Err(ClassifyError::FrameTooSmall));
}

#[test]
fn frame_shorter_than_the_ethernet_header_is_too_small() {
    let frame = ethernet(0x0800, &[]);
    for len in 0..14 {
        assert_eq!(proc_packet(&frame[..len]), Err(ClassifyError::FrameTooSmall), "{}", len);
    }
}

#[test]
fn bare_ethernet_header_has_no_room_for_a_packet() {
    assert_eq!(proc_packet(&ethernet(0x0800, &[])), Err(ClassifyError::Ipv4HeaderTooSmall));
    assert_eq!(proc_packet(&ethernet(0x86DD, &[])), Err(ClassifyError::Ipv6HeaderTooSmall));
    assert_eq!(proc_packet(&ethernet(0x0806, &[])), Err(ClassifyError::UnsupportedProtocol));
}

#[test]
fn ipv4_needs_twenty_bytes_of_header() {
    let header = ipv4_header(0x0A00_0001, 0x0A00_0002, 40);
    for len in 0..20 {
        assert_eq!(
            proc_packet(&ethernet(0x0800, &header[..len])),
            Err(ClassifyError::Ipv4HeaderTooSmall),
            "{}",
            len
        );
    }
    assert_eq!(
        proc_packet(&ethernet(0x0800, &header)),
        Ok((v4_key(0x0A00_0001, 0x0A00_0002), 40))
    );
}

#[test]
fn ipv6_needs_forty_bytes_of_header() {
    let header = ipv6_header(1, 2, 8);
    for len in 0..40 {
        assert_eq!(
            proc_packet(&ethernet(0x86DD, &header[..len])),
            Err(ClassifyError::Ipv6HeaderTooSmall),
            "{}",
            len
        );
    }
    assert_eq!(proc_packet(&ethernet(0x86DD, &header)), Ok((v6_key(1, 2), 8)));
}

#[test]
fn other_protocols_are_unsupported() {
    let payload = [0u8; 64];
    for ethertype in [0x0000u16, 0x0806, 0x8100, 0x8847, 0x88CC, 0x0008, 0xDD86, 0x0801, 0x86DC, 0xFFFF]
    {
        assert_eq!(
            proc_packet(&ethernet(ethertype, &payload)),
            Err(ClassifyError::UnsupportedProtocol),
            "{:#06x}",
            ethertype
        );
    }
}

#[test]
fn ipv4_addresses_and_total_length_come_from_the_header() {
    let mut payload = ipv4_header(0xC0A8_0101, 0x0808_0404, 100);
    payload.extend_from_slice(&[0xEE; 7]);
    assert_eq!(
        proc_packet(&ethernet(0x0800, &payload)),
        Ok((v4_key(0xC0A8_0101, 0x0808_0404), 100))
    );
}

#[test]
fn ipv4_length_is_the_declared_one_not_the_size_of_the_buffer() {
    for declared in [0u16, 1, 19, 20, 1500, 0x0102, 0xFF00, u16::MAX] {
        let mut payload = ipv4_header(1, 2, declared);
        payload.extend_from_slice(&[0u8; 33]);
        assert_eq!(proc_packet(&ethernet(0x0800, &payload)), Ok((v4_key(1, 2), declared as u128)));
    }
}

#[test]
fn ipv6_addresses_and_payload_length_come_from_the_header() {
    let source = 0x2001_0db8_0000_0000_0000_0000_0000_0001u128;
    let dest = 0xfe80_0000_0000_0000_0123_4567_89ab_cdefu128;
    let mut payload = ipv6_header(source, dest, 60);
    payload.extend_from_slice(&[0xEE; 13]);
    assert_eq!(proc_packet(&ethernet(0x86DD, &payload)), Ok((v6_key(source, dest), 60)));
}

#[test]
fn ipv6_length_is_the_payload_length_without_the_header() {
    for declared in [0u16, 1, 40, 0x0102, 0xFF00, u16::MAX] {
        let payload = ipv6_header(7, 9, declared);
        assert_eq!(proc_packet(&ethernet(0x86DD, &payload)), Ok((v6_key(7, 9), declared as u128)));
    }
}

#[test]
fn version_nibble_is_not_what_decides_the_family() {
    // The EtherType decides; the header is read as the family it names.
    let as_v6 = ipv6_header(3, 4, 5);
    let frame = ethernet(0x0800, &as_v6);
    let source = u32::from_be_bytes([as_v6[12], as_v6[13], as_v6[14], as_v6[15]]);
    let dest = u32::from_be_bytes([as_v6[16], as_v6[17], as_v6[18], as_v6[19]]);
    let length = u16::from_be_bytes([as_v6[2], as_v6[3]]);
    assert_eq!(proc_packet(&frame), Ok((v4_key(source, dest), length as u128)));
}

#[test]
fn reads_what_pnet_writes_for_ipv4() {
    let mut frame = vec![0u8; 14 + 28];
    {
        let mut eth = MutableEthernetPacket::new(&mut frame).unwrap();
        eth.set_ethertype(EtherTypes::Ipv4);
    }
    {
        let mut ip = MutableIpv4Packet::new(&mut frame[14..]).unwrap();
        ip.set_version(4);
        ip.set_header_length(5);
        ip.set_total_length(28);
        ip.set_ttl(9);
        ip.set_source(0xAC10_FE01u32.into());
        ip.set_destination(0xE000_00FBu32.into());
    }
    assert_eq!(proc_packet(&frame), Ok((v4_key(0xAC10_FE01, 0xE000_00FB), 28)));
}

#[test]
fn reads_what_pnet_writes_for_ipv6() {
    let source = 0x2a00_1450_4001_0809_0000_0000_0000_200eu128;
    let dest = 0xff02_0000_0000_0000_0000_0000_0000_00fbu128;
    let mut frame = vec![0u8; 14 + 40 + 16];
    {
        let mut eth = MutableEthernetPacket::new(&mut frame).unwrap();
        eth.set_ethertype(EtherTypes::Ipv6);
    }
    {
        let mut ip = MutableIpv6Packet::new(&mut frame[14..]).unwrap();
        ip.set_version(6);
        ip.set_payload_length(16);
        ip.set_hop_limit(255);
        ip.set_source(source.into());
        ip.set_destination(dest.into());
    }
    assert_eq!(proc_packet(&frame), Ok((v6_key(source, dest), 16)));
}

#[test]
fn direction_of_a_frame_is_kept() {
    let forth = ethernet(0x0800, &ipv4_header(1, 2, 20));
    let back = ethernet(0x0800, &ipv4_header(2, 1, 20));
    let (forth_key, _) = proc_packet(&forth).unwrap();
    let (back_key, _) = proc_packet(&back).unwrap();
    assert_ne!(forth_key, back_key);
    assert_eq!(forth_key, v4_key(1, 2));
    assert_eq!(back_key, v4_key(2, 1));
}
