use mirror_stats::addr::{parse_addr, parse_ipv4, parse_ipv6, IpKey};
use mirror_stats::bytes::{find_sub, parse_size, split_bytes};
use mirror_stats::classify::{classify_line, month_lookup, AssetKind, OsFamily};

#[test]
fn substring_search_finds_first() {
    assert_eq!(find_sub(b"abcabc", b"abc"), Some(0));
    assert_eq!(find_sub(b"xxabc", b"abc"), Some(2));
    assert_eq!(find_sub(b"xyz", b"abc"), None);
    assert_eq!(find_sub(b"abc", b""), Some(0));
    assert_eq!(find_sub(b"ab", b"abc"), None);
}

#[test]
fn split_keeps_empty_pieces() {
    let parts = split_bytes(b"a  b", b' ');
    assert_eq!(parts.len(), 3);
    assert_eq!(parts[0], b"a".to_vec());
    assert_eq!(parts[1], b"".to_vec());
    assert_eq!(parts[2], b"b".to_vec());
    let one = split_bytes(b"", b' ');
    assert_eq!(one.len(), 1);
    assert_eq!(one[0], b"".to_vec());
}

#[test]
fn size_parses_or_defaults() {
    assert_eq!(parse_size(b"1234"), 1234);
    assert_eq!(parse_size(b"0"), 0);
    assert_eq!(parse_size(b"-"), 0);
    assert_eq!(parse_size(b""), 0);
    assert_eq!(parse_size(b"12x"), 0);
    assert_eq!(parse_size(b"18446744073709551615"), u64::MAX);
    assert_eq!(parse_size(b"18446744073709551616"), 0);
}

#[test]
fn month_table() {
    assert_eq!(month_lookup(b"Jan"), 1);
    assert_eq!(month_lookup(b"Feb"), 2);
    assert_eq!(month_lookup(b"Mar"), 3);
    assert_eq!(month_lookup(b"Apr"), 4);
    assert_eq!(month_lookup(b"May"), 5);
    assert_eq!(month_lookup(b"Jun"), 6);
    assert_eq!(month_lookup(b"Jul"), 7);
    assert_eq!(month_lookup(b"Aug"), 8);
    assert_eq!(month_lookup(b"Sep"), 9);
    assert_eq!(month_lookup(b"Oct"), 10);
    assert_eq!(month_lookup(b"Nov"), 11);
    assert_eq!(month_lookup(b"Dec"), 12);
    assert_eq!(month_lookup(b"Mai"), 0);
    assert_eq!(month_lookup(b"jan"), 0);
}

#[test]
fn ipv4_textual_forms() {
    assert_eq!(parse_ipv4(b"10.0.0.1"), Some(0x0A000001));
    assert_eq!(parse_ipv4(b"255.255.255.255"), Some(u32::MAX));
    assert_eq!(parse_ipv4(b"0.0.0.0"), Some(0));
    assert_eq!(parse_ipv4(b"256.0.0.1"), None);
    assert_eq!(parse_ipv4(b"10.0.0"), None);
    assert_eq!(parse_ipv4(b"10.0.0.1.2"), None);
    assert_eq!(parse_ipv4(b"10.0..1"), None);
}

#[test]
fn ipv6_textual_forms() {
    assert_eq!(
        parse_ipv6(b"2001:db8::1"),
        Some(0x2001_0db8_0000_0000_0000_0000_0000_0001)
    );
    assert_eq!(parse_ipv6(b"::"), Some(0));
    assert_eq!(parse_ipv6(b"::1"), Some(1));
    assert_eq!(parse_ipv6(b"1::"), Some(0x0001_0000_0000_0000_0000_0000_0000_0000));
    assert_eq!(
        parse_ipv6(b"1:2:3:4:5:6:7:8"),
        Some(0x0001_0002_0003_0004_0005_0006_0007_0008)
    );
    assert_eq!(parse_ipv6(b"1:2:3:4:5:6:7"), None);
    assert_eq!(parse_ipv6(b"1:2:3:4:5:6:7:8:9"), None);
    assert_eq!(parse_ipv6(b"1::2::3"), None);
    assert_eq!(parse_ipv6(b"12345::"), None);
    assert_eq!(parse_ipv6(b"g::1"), None);
    assert_eq!(
        parse_ipv6(b"ABCD:ef01::1"),
        Some(0xABCD_EF01_0000_0000_0000_0000_0000_0001)
    );
}

#[test]
fn unparseable_address_falls_to_sentinel() {
    assert_eq!(parse_addr(b"not-an-address"), IpKey::V4(0));
    assert_eq!(parse_addr(b""), IpKey::V4(0));
    assert_eq!(parse_addr(b"10.0.0.1"), IpKey::V4(0x0A000001));
    assert_eq!(parse_addr(b"::1"), IpKey::V6(1));
}

#[test]
fn classify_full_record() {
    let line = b"10.0.0.1 - - [12/Mar/2023:10:00:00 +0000] \"GET /ohpc-1.3/base/CentOS_7/x86_64/pkg.rpm HTTP/1.1\" 200 1234";
    let f = classify_line(line).expect("facts");
    assert_eq!(f.year, 2023);
    assert_eq!(f.month, 3);
    assert!(f.t1);
    assert!(!f.t2);
    assert!(!f.t3);
    assert_eq!(f.d1, Some(OsFamily::Rhel));
    assert_eq!(f.asset, Some(AssetKind::Rpm));
    assert_eq!(f.size, 1234);
    assert_eq!(f.addr, IpKey::V4(0x0A000001));
    assert_eq!(f.tool, None);
}

#[test]
fn classify_rejects_images_anywhere() {
    let line = b"10.0.0.1 - - [12/Mar/2023:10:00:00 +0000] \"GET /a/png/b.rpm HTTP/1.1\" 200 1";
    assert!(classify_line(line).is_none());
    let line2 = b"10.0.0.1 - - [12/Mar/2023:10:00:00 +0000] \"GET /a/b.gif HTTP/1.1\" 200 1";
    assert!(classify_line(line2).is_none());
}

#[test]
fn classify_needs_enough_fields() {
    assert!(classify_line(b"").is_none());
    assert!(classify_line(b"10.0.0.1 - -").is_none());
    assert!(classify_line(b"10.0.0.1 - - [12/Mar/20").is_none());
}

#[test]
fn track_old_sles_fallback() {
    let line = b"10.0.0.1 - - [12/Mar/2023:10:00:00 +0000] \"GET /ohpc-1.3/base/SLE_12/x/p.rpm HTTP/1.1\" 200 1";
    let f = classify_line(line).expect("facts");
    assert!(f.t1);
    assert_eq!(f.d1, Some(OsFamily::Sles));
    let plain = b"10.0.0.1 - - [12/Mar/2023:10:00:00 +0000] \"GET /ohpc-1.3/base/other/p.rpm HTTP/1.1\" 200 1";
    let g = classify_line(plain).expect("facts");
    assert!(g.t1);
    assert_eq!(g.d1, None);
}

#[test]
fn distro_marker_only_counts_after_track_marker() {
    // The distribution marker sits before the track marker, so no family is
    // attributed.
    let line = b"10.0.0.1 - - [12/Mar/2023:10:00:00 +0000] \"GET /CentOS_7/ohpc/ohpc-1.3/base/p.rpm HTTP/1.1\" 200 1";
    let f = classify_line(line).expect("facts");
    assert!(f.t1);
    assert_eq!(f.d1, None);
}

#[test]
fn client_tool_edge_cases() {
    // No space in the first segment: no client identified.
    let no_space = b"10.0.0.1 - - [12/Mar/2023:10:00:00 +0000] \"GET /x HTTP/1.1\" 200 1 \"-\" \"libdnf nospace;rest";
    let f = classify_line(no_space).expect("facts");
    assert_eq!(f.tool, None);
    // Nothing left after the leading byte is stripped: no client.
    let too_short = b"10.0.0.1 - - [12/Mar/2023:10:00:00 +0000] \"GET /x HTTP/1.1\" 200 1 \"-\" \"libdnf ( x;rest";
    let g = classify_line(too_short).expect("facts");
    assert_eq!(g.tool, None);
    // A different marker field is not the client-tool marker.
    let other = b"10.0.0.1 - - [12/Mar/2023:10:00:00 +0000] \"GET /x HTTP/1.1\" 200 1 \"-\" \"curl (x y; z)";
    let h = classify_line(other).expect("facts");
    assert_eq!(h.tool, None);
}

#[test]
fn client_tool_known_aliases() {
    let base = "10.0.0.1 - - [12/Mar/2023:10:00:00 +0000] \"GET /x HTTP/1.1\" 200 1 \"-\" \"libdnf";
    let rhel = format!("{} (Red Hat Enterprise Linux Server x; y)", base);
    let f = classify_line(rhel.as_bytes()).expect("facts");
    assert_eq!(f.tool, Some(b"Red Hat Enterprise Linux".to_vec()));
    let autosd = format!("{} (CentOS AutoSD x; y)", base);
    let g = classify_line(autosd.as_bytes()).expect("facts");
    assert_eq!(g.tool, Some(b"CentOS Linux".to_vec()));
    let rocky = format!("{} (RockyLinux x; y)", base);
    let h = classify_line(rocky.as_bytes()).expect("facts");
    assert_eq!(h.tool, Some(b"Rocky Linux".to_vec()));
}
