use pnet::packet::ipv4::Ipv4Packet;
use pnet::packet::ipv6::Ipv6Packet;
use whoisthere::ipv4::{ipv4_to_string, parse_ipv4};
use whoisthere::ipv6::{ipv6_to_string, parse_ipv6};

/// How the address prints that `pnet` reads as the source of an IPv4 header.
fn printed_by_pnet_v4(a: u32) -> String {
    let mut header = [0u8; 20];
    header[12..16].copy_from_slice(&a.to_be_bytes());
    Ipv4Packet::new(&header).unwrap().get_source().to_string()
}

/// How the address prints that `pnet` reads as the source of an IPv6 header.
fn printed_by_pnet_v6(a: u128) -> String {
    let mut header = [0u8; 40];
    header[8..24].copy_from_slice(&a.to_be_bytes());
    Ipv6Packet::new(&header).unwrap().get_source().to_string()
}

fn v6(segments: [u16; 8]) -> u128 {
    let mut a: u128 = 0;
    for s in segments {
        a = (a << 16) | s as u128;
    }
    a
}

#[test]
fn ipv4_text_is_dotted_decimal() {
    assert_eq!(ipv4_to_string(0), "0.0.0.0");
    assert_eq!(ipv4_to_string(u32::MAX), "255.255.255.255");
    assert_eq!(ipv4_to_string(0xC0A8_010A), "192.168.1.10");
    assert_eq!(ipv4_to_string(0x0A00_0001), "10.0.0.1");
    assert_eq!(ipv4_to_string(0x0102_6409), "1.2.100.9");
}

#[test]
fn ipv4_text_is_read_back() {
    assert_eq!(parse_ipv4("0.0.0.0"), Some(0));
    assert_eq!(parse_ipv4("255.255.255.255"), Some(u32::MAX));
    assert_eq!(parse_ipv4("192.168.1.10"), Some(0xC0A8_010A));
    assert_eq!(parse_ipv4("9.99.199.0"), Some(0x0963_C700));
}

#[test]
fn ipv4_text_that_is_not_canonical_is_refused() {
    for text in [
        "", ".", "1", "1.2.3", "1.2.3.4.5", "1.2.3.", ".1.2.3", "1..2.3", "256.1.1.1", "1.2.3.256",
        "01.2.3.4", "1.2.3.04", "1.2.3.004", "1.2.3.4 ", " 1.2.3.4", "1.2.3.a", "1,2,3,4",
        "1.2.3.1000", "+1.2.3.4", "1.2.3.-4", "::1", "1.2.3.4\u{661}",
    ] {
        assert_eq!(parse_ipv4(text), None, "{:?}", text);
    }
}

#[test]
fn ipv4_text_is_what_pnet_addresses_print() {
    let mut a: u32 = 0x9E37_79B9;
    for _ in 0..2000 {
        a = a.wrapping_mul(1_664_525).wrapping_add(1_013_904_223);
        let masked = match a % 5 {
            0 => a & 0xFF,
            1 => a & 0xFF00_FF00,
            2 => a & 0x0A0A_0A0A,
            _ => a,
        };
        let text = ipv4_to_string(masked);
        assert_eq!(text, printed_by_pnet_v4(masked));
        assert_eq!(parse_ipv4(&text), Some(masked));
    }
}

#[test]
fn ipv6_text_abbreviates_the_longest_run_of_zero_groups() {
    assert_eq!(ipv6_to_string(0), "::");
    assert_eq!(ipv6_to_string(1), "::1");
    assert_eq!(ipv6_to_string(v6([1, 0, 0, 0, 0, 0, 0, 0])), "1::");
    assert_eq!(ipv6_to_string(v6([0x2001, 0xdb8, 0, 0, 0, 0, 0, 1])), "2001:db8::1");
    assert_eq!(ipv6_to_string(v6([1, 0, 0, 4, 0, 0, 0, 8])), "1:0:0:4::8");
    assert_eq!(ipv6_to_string(v6([1, 0, 0, 4, 5, 0, 0, 8])), "1::4:5:0:0:8");
    assert_eq!(ipv6_to_string(v6([0, 0, 1, 0, 0, 0, 0, 0])), "0:0:1::");
    assert_eq!(ipv6_to_string(v6([0, 0, 0, 1, 0, 0, 0, 2])), "::1:0:0:0:2");
}

#[test]
fn ipv6_text_keeps_a_single_zero_group() {
    assert_eq!(ipv6_to_string(v6([1, 2, 3, 4, 5, 6, 0, 8])), "1:2:3:4:5:6:0:8");
    assert_eq!(ipv6_to_string(v6([0, 2, 3, 4, 5, 6, 7, 8])), "0:2:3:4:5:6:7:8");
    assert_eq!(ipv6_to_string(v6([1, 2, 3, 4, 5, 6, 7, 0])), "1:2:3:4:5:6:7:0");
    assert_eq!(ipv6_to_string(v6([1, 0, 3, 0, 5, 0, 7, 0])), "1:0:3:0:5:0:7:0");
}

#[test]
fn ipv6_text_is_lower_case_without_leading_zeros() {
    assert_eq!(ipv6_to_string(v6([8, 9, 10, 11, 12, 13, 14, 15])), "8:9:a:b:c:d:e:f");
    assert_eq!(
        ipv6_to_string(v6([0x1111, 0x2222, 0x3333, 0x4444, 0x5555, 0x6666, 0x7777, 0x8888])),
        "1111:2222:3333:4444:5555:6666:7777:8888"
    );
    assert_eq!(
        ipv6_to_string(v6([0xABCD, 0x0EF0, 0x00A0, 0x000F, 0xFFFF, 0x1000, 0x0100, 0x0010])),
        "abcd:ef0:a0:f:ffff:1000:100:10"
    );
    assert_eq!(ipv6_to_string(u128::MAX), "ffff:ffff:ffff:ffff:ffff:ffff:ffff:ffff");
}

#[test]
fn ipv6_text_of_a_mapped_address_ends_dotted() {
    assert_eq!(ipv6_to_string(0xFFFF_C000_0280), "::ffff:192.0.2.128");
    assert_eq!(ipv6_to_string(0xFFFF_0000_0000), "::ffff:0.0.0.0");
    assert_eq!(ipv6_to_string(0xFFFF_FFFF_FFFF), "::ffff:255.255.255.255");
    // Neither of these is a mapped address.
    assert_eq!(ipv6_to_string(0xC000_0280), "::c000:280");
    assert_eq!(ipv6_to_string(v6([0xae, 0, 0, 0, 0, 0xffff, 0x0102, 0x0304])), "ae::ffff:102:304");
    assert_eq!(ipv6_to_string(v6([0, 0, 0, 0, 0, 0, 0xffff, 1])), "::ffff:1");
    assert_eq!(ipv6_to_string(v6([0, 0, 0, 0, 1, 0xffff, 1, 2])), "::1:ffff:1:2");
}

#[test]
fn ipv6_text_is_read_back() {
    assert_eq!(parse_ipv6("::"), Some(0));
    assert_eq!(parse_ipv6("::1"), Some(1));
    assert_eq!(parse_ipv6("1::"), Some(v6([1, 0, 0, 0, 0, 0, 0, 0])));
    assert_eq!(parse_ipv6("2001:db8::1"), Some(v6([0x2001, 0xdb8, 0, 0, 0, 0, 0, 1])));
    assert_eq!(parse_ipv6("1:2:3:4:5:6:0:8"), Some(v6([1, 2, 3, 4, 5, 6, 0, 8])));
    assert_eq!(parse_ipv6("::ffff:192.0.2.128"), Some(0xFFFF_C000_0280));
    assert_eq!(parse_ipv6("::ffff:1"), Some(v6([0, 0, 0, 0, 0, 0, 0xffff, 1])));
    assert_eq!(parse_ipv6("ffff:ffff:ffff:ffff:ffff:ffff:ffff:ffff"), Some(u128::MAX));
}

#[test]
fn ipv6_addresses_are_read_however_they_are_written() {
    let one = Some(1);
    for text in ["::1", "0:0:0:0:0:0:0:1", "0::1", "::0:1", "0:0::1", "0000:0000::0001", "::0.0.0.1"]
    {
        assert_eq!(parse_ipv6(text), one, "{:?}", text);
    }
    assert_eq!(parse_ipv6("0:0:0:0:0:0:0:0"), Some(0));
    assert_eq!(parse_ipv6("::0"), Some(0));
    assert_eq!(parse_ipv6("0::"), Some(0));
    assert_eq!(parse_ipv6("1:2:3:4:5:6:7::"), Some(v6([1, 2, 3, 4, 5, 6, 7, 0])));
    assert_eq!(parse_ipv6("::2:3:4:5:6:7:8"), Some(v6([0, 2, 3, 4, 5, 6, 7, 8])));
    assert_eq!(parse_ipv6("1::0:0:8"), Some(v6([1, 0, 0, 0, 0, 0, 0, 8])));
    assert_eq!(parse_ipv6("1:0:0:4:0:0:0:8"), Some(v6([1, 0, 0, 4, 0, 0, 0, 8])));
    assert_eq!(parse_ipv6("1:0:0:4:5::8"), Some(v6([1, 0, 0, 4, 5, 0, 0, 8])));
    assert_eq!(parse_ipv6("2001:DB8::1"), Some(v6([0x2001, 0xdb8, 0, 0, 0, 0, 0, 1])));
    assert_eq!(parse_ipv6("2001:0db8::AbCd"), Some(v6([0x2001, 0xdb8, 0, 0, 0, 0, 0, 0xabcd])));
}

#[test]
fn dotted_address_may_stand_for_the_last_two_groups() {
    assert_eq!(parse_ipv6("::ffff:c000:280"), Some(0xFFFF_C000_0280));
    assert_eq!(parse_ipv6("::ffff:192.0.2.128"), Some(0xFFFF_C000_0280));
    assert_eq!(parse_ipv6("::192.0.2.128"), Some(0xC000_0280));
    assert_eq!(parse_ipv6("1::ffff:1.2.3.4"), Some(v6([1, 0, 0, 0, 0, 0xffff, 0x0102, 0x0304])));
    assert_eq!(parse_ipv6("0:0:0:0:0:ffff:1.2.3.4"), Some(0xFFFF_0102_0304));
    assert_eq!(parse_ipv6("1:2:3:4:5:6:255.254.253.252"), Some(v6([1, 2, 3, 4, 5, 6, 0xfffe, 0xfdfc])));
    assert_eq!(parse_ipv6("1:2:3:4:5::9.8.7.6"), Some(v6([1, 2, 3, 4, 5, 0, 0x0908, 0x0706])));
    for text in [
        "1.2.3.4",
        "1.2.3.4::",
        "1.2.3.4::1",
        "::1.2.3.4:5",
        "1:2:3:4:5:6:7:1.2.3.4",
        "1:2:3:4:5:1.2.3.4",
        "1:2:3:4:5:6::1.2.3.4",
        "::ffff:192.0.2.128.1",
        "::ffff:192.0.2",
        "::ffff:192.0.2.256",
        "::ffff:192.0.02.1",
        "::ffff:192.0.2.1280",
        "::ffff:1.2.3.",
        "::1.2.3.4.",
    ] {
        assert_eq!(parse_ipv6(text), None, "{:?}", text);
    }
}

#[test]
fn text_that_is_no_ipv6_address_is_refused() {
    for text in [
        "",
        ":",
        ":::",
        "1",
        "1:",
        ":1",
        "1:2:3:4:5:6:7",
        "1:2:3:4:5:6:7:8:9",
        "1:2:3:4:5:6:7:",
        ":1:2:3:4:5:6:7",
        "1:2:3:4:5:6:7:8::",
        "::1:2:3:4:5:6:7:8",
        "1::2:3:4:5:6:7:8",
        "1::4::8",
        "1:::8",
        "2001:db8::00001",
        "12345::",
        "::g",
        "::1 ",
        " ::1",
        "::-1",
        "fe80::1%eth0",
        "[::1]",
        "::१",
    ] {
        assert_eq!(parse_ipv6(text), None, "{:?}", text);
    }
}

/// What the address type of `pnet` reads `text` as: the type of `sample`.
fn read_like<T: std::str::FromStr>(_sample: &T, text: &str) -> Option<T> {
    text.parse().ok()
}

fn read_by_pnet_address_v6(text: &str) -> Option<u128> {
    let header = [0u8; 40];
    let sample = Ipv6Packet::new(&header).unwrap().get_source();
    read_like(&sample, text).map(u128::from)
}

fn read_by_pnet_address_v4(text: &str) -> Option<u32> {
    let header = [0u8; 20];
    let sample = Ipv4Packet::new(&header).unwrap().get_source();
    read_like(&sample, text).map(u32::from)
}

/// Texts near the texts of addresses: each is a canonical text with a few
/// characters put in, taken out or replaced.
fn texts_near(canonical: &str, seed: &mut u64, count: usize) -> Vec<String> {
    let alphabet: Vec<char> = "0123456789abcdefABCF:.:.:: g".chars().collect();
    let mut texts = vec![canonical.to_string()];
    for _ in 0..count {
        let mut chars: Vec<char> = canonical.chars().collect();
        let edits = 1 + (next(seed) % 3) as usize;
        for _ in 0..edits {
            let c = alphabet[(next(seed) % alphabet.len() as u64) as usize];
            let at = (next(seed) % (chars.len() as u64 + 1)) as usize;
            match next(seed) % 3 {
                0 => chars.insert(at, c),
                1 if at < chars.len() => {
                    chars.remove(at);
                },
                _ if at < chars.len() => chars[at] = c,
                _ => chars.push(c),
            }
        }
        texts.push(chars.into_iter().collect());
    }
    texts
}

fn next(seed: &mut u64) -> u64 {
    *seed = seed.wrapping_mul(6_364_136_223_846_793_005).wrapping_add(1_442_695_040_888_963_407);
    *seed >> 33
}

#[test]
fn ipv6_texts_are_read_as_pnet_addresses_read_them() {
    let mut seed = 0x1234_5678_9ABC_DEF0u64;
    let mut accepted = 0;
    for round in 0..600u32 {
        let mut a = (next(&mut seed) as u128) << 96
            | (next(&mut seed) as u128) << 64
            | (next(&mut seed) as u128) << 32
            | next(&mut seed) as u128;
        let pattern = next(&mut seed);
        for group in 0..8 {
            if pattern >> group & 1 == 1 {
                a &= !(0xFFFFu128 << (16 * group));
            }
        }
        if round % 5 == 0 {
            a = 0xFFFF_0000_0000 | (a & 0xFFFF_FFFF);
        }
        if round % 7 == 0 {
            a &= 0x000F_00FF_0FFF_FFFF_000F_00FF_0FFF_FFFF;
        }
        for text in texts_near(&ipv6_to_string(a), &mut seed, 40) {
            let read = parse_ipv6(&text);
            assert_eq!(read, read_by_pnet_address_v6(&text), "{:?}", text);
            accepted += read.is_some() as u32;
        }
    }
    assert!(accepted > 2000);
}

#[test]
fn ipv4_texts_are_read_as_pnet_addresses_read_them() {
    let mut seed = 0x0F1E_2D3C_4B5A_6978u64;
    let mut accepted = 0;
    for round in 0..600u32 {
        let mut a = next(&mut seed) as u32;
        if round % 3 == 0 {
            a &= 0x0A01_FF09;
        }
        for text in texts_near(&ipv4_to_string(a), &mut seed, 40) {
            let read = parse_ipv4(&text);
            assert_eq!(read, read_by_pnet_address_v4(&text), "{:?}", text);
            accepted += read.is_some() as u32;
        }
    }
    assert!(accepted > 1000);
}

#[test]
fn other_ways_of_writing_are_read_as_pnet_addresses_read_them() {
    for text in [
        "::", "::1", "1::", "a:b::c", "1:2:3:4:5:6:7:8", "::ffff:1.2.3.4", "::ffff:102:304",
        "0::1", "a:0:0:b::", "A::", "::1.2.3.4", "1:0:0:2:0:0:0:3", "01::", "0001:002:03:4::",
        "1:2:3:4:5:6:7::", "::1:2:3:4:5:6:7", "1:2:3:4:5:6:1.2.3.4", "1:2:3:4:5:6:1.2.3.4:",
        "::1.2.3.4:5", "1.2.3.4::", "::01.2.3.4", "::1.2.3.04", "::1.2.3.256", "::1.2.3",
        "1:2:3:4:5:6:7:1.2.3.4", "1::2:3:4:5:6:7", "1::2:3:4:5:6:7:8", "::1:2:3:4:5:6:1.2.3.4",
        "::2:3:4:5:6:1.2.3.4", "FFFF::ffff", "fFfF::", "::10000", "::0ffff", "::00000",
        "1:2:3:4::5:6:7", "1:2:3:4::5:6:7:8", ":", "::", ":::", "::::", "1:::2",
    ] {
        assert_eq!(parse_ipv6(text), read_by_pnet_address_v6(text), "{:?}", text);
    }
}

#[test]
fn ipv6_text_is_what_pnet_addresses_print() {
    let mut x: u128 = 0x243F_6A88_85A3_08D3_1319_8A2E_0370_7344;
    for round in 0..4000u32 {
        x = x.wrapping_mul(0x5851_F42D_4C95_7F2D_1405_7B7E_F767_814F).wrapping_add(
            0x14057B7EF767814F,
        );
        // Clear whole groups by a pattern taken from the round, so that runs of
        // zero groups of every length and place come up.
        let mut a = x;
        let pattern = round.wrapping_mul(2_654_435_761) >> 11;
        for group in 0..8 {
            if pattern >> group & 1 == 1 {
                a &= !(0xFFFFu128 << (16 * group));
            }
        }
        if round % 7 == 0 {
            a = 0xFFFF_0000_0000 | (a & 0xFFFF_FFFF);
        }
        if round % 11 == 0 {
            a &= 0x000F_00FF_0FFF_FFFF_000F_00FF_0FFF_FFFF;
        }
        let text = ipv6_to_string(a);
        assert_eq!(text, printed_by_pnet_v6(a));
        assert_eq!(parse_ipv6(&text), Some(a));
    }
}
