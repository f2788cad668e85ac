use mirror_stats::reader::{IngestError, WindowSplitter};
use mirror_stats::store::Stats;

fn line_a(addr: &str) -> String {
    format!(
        "{} - - [12/Mar/2023:10:00:00 +0000] \"GET /ohpc-1.3/base/CentOS_7/x86_64/pkg.rpm HTTP/1.1\" 200 1234",
        addr
    )
}

#[test]
fn scenario_track_old_rhel() {
    let mut s = Stats::new();
    s.ingest(line_a("10.0.0.1").as_bytes());
    let y = s.year_row(2023).expect("year row");
    assert_eq!(y.t1, 1);
    assert_eq!(y.u1, 1);
    assert_eq!(y.overall, 1);
    let d = s.distro_row_old(2023).expect("distro row");
    assert_eq!(d.rhel, 1);
    assert_eq!(d.sles, 0);
}

#[test]
fn scenario_two_addresses() {
    let mut s = Stats::new();
    s.ingest(line_a("10.0.0.1").as_bytes());
    s.ingest(line_a("10.0.0.1").as_bytes());
    s.ingest(line_a("10.0.0.2").as_bytes());
    let y = s.year_row(2023).expect("year row");
    assert_eq!(y.t1, 3);
    assert_eq!(y.u1, 2);
    assert_eq!(y.uo, 2);
    let d = s.distro_row_old(2023).expect("distro row");
    assert_eq!(d.rhel, 3);
}

#[test]
fn scenario_image_excluded() {
    let mut s = Stats::new();
    let line = "10.0.0.1 - - [12/Mar/2023:10:00:00 +0000] \"GET /logo.png HTTP/1.1\" 200 10";
    s.ingest(line.as_bytes());
    assert!(s.year_row(2023).is_none());
    assert_eq!(s.total, 0);
}

#[test]
fn scenario_client_tool_alias() {
    let mut s = Stats::new();
    let line = "10.0.0.1 - - [12/Mar/2023:10:00:00 +0000] \"GET /x HTTP/1.1\" 200 10 \"-\" \"libdnf (CentOS release 8 x; Linux)\"";
    s.ingest(line.as_bytes());
    assert_eq!(s.tool_count(2023, &b"CentOS Linux".to_vec()), 1);
    assert_eq!(s.tool_count(2023, &b"CentOS release 8".to_vec()), 0);
}

#[test]
fn client_tool_unknown_alias_passes_through() {
    let mut s = Stats::new();
    let line = "10.0.0.1 - - [12/Mar/2023:10:00:00 +0000] \"GET /x HTTP/1.1\" 200 10 \"-\" \"libdnf (Fedora Linux 39 x; y)\"";
    s.ingest(line.as_bytes());
    assert_eq!(s.tool_count(2023, &b"Fedora Linux 39".to_vec()), 1);
}

#[test]
fn corrupt_double_get_excluded() {
    let mut s = Stats::new();
    let line = "10.0.0.1 - - [12/Mar/2023:10:00:00 +0000] \"GET /a HTTP/1.1\" 200 10 GET /b";
    s.ingest(line.as_bytes());
    assert_eq!(s.total, 0);
}

#[test]
fn unparseable_timestamp_excluded_entirely() {
    let mut s = Stats::new();
    let line = "10.0.0.1 - - [12/Mai/2023:10:00:00 +0000] \"GET /a HTTP/1.1\" 200 10";
    s.ingest(line.as_bytes());
    assert_eq!(s.total, 0);
    assert!(s.year_row(2023).is_none());
    let bad_year = "10.0.0.1 - - [12/Mar/20x3:10:00:00 +0000] \"GET /a HTTP/1.1\" 200 10";
    s.ingest(bad_year.as_bytes());
    assert_eq!(s.total, 0);
}

#[test]
fn unparseable_size_defaults_to_zero() {
    let mut s = Stats::new();
    let line = "10.0.0.1 - - [12/Mar/2023:10:00:00 +0000] \"GET /a HTTP/1.1\" 200 -";
    s.ingest(line.as_bytes());
    let y = s.year_row(2023).expect("year row");
    assert_eq!(y.overall, 1);
    assert_eq!(y.bytes, 0);
}

#[test]
fn bytes_accumulate() {
    let mut s = Stats::new();
    s.ingest(line_a("10.0.0.1").as_bytes());
    s.ingest(line_a("10.0.0.9").as_bytes());
    let y = s.year_row(2023).expect("year row");
    assert_eq!(y.bytes, 2468);
    let m = s.month_row(2023, 3).expect("month row");
    assert_eq!(m.bytes, 2468);
    assert_eq!(m.overall, 2);
    assert_eq!(m.uo, 2);
}

#[test]
fn tracks_two_and_three() {
    let mut s = Stats::new();
    let two = "10.0.0.1 - - [05/Jan/2024:00:00:01 +0000] \"GET /OpenHPC/2/Leap_15/x/y.rpm HTTP/1.1\" 200 5";
    let three = "10.0.0.2 - - [05/Jan/2024:00:00:02 +0000] \"GET /OpenHPC/3/openEuler_22.03/z.rpm HTTP/1.1\" 200 7";
    s.ingest(two.as_bytes());
    s.ingest(three.as_bytes());
    let y = s.year_row(2024).expect("year row");
    assert_eq!(y.t1, 0);
    assert_eq!(y.t2, 1);
    assert_eq!(y.t3, 1);
    assert_eq!(y.overall, 2);
    let d2 = s.distro_row_two(2024).expect("second track row");
    assert_eq!(d2.sles, 1);
    assert_eq!(d2.rhel, 0);
    let d3 = s.distro_row_three(2024).expect("third track row");
    assert_eq!(d3.openeuler, 1);
    assert_eq!(d3.sles, 0);
    assert_eq!(d3.rhel, 0);
}

#[test]
fn track_three_rhel_marker() {
    let mut s = Stats::new();
    let line = "10.0.0.1 - - [05/Jan/2024:00:00:01 +0000] \"GET /OpenHPC/3/EL_9/x.rpm HTTP/1.1\" 200 5";
    s.ingest(line.as_bytes());
    let d3 = s.distro_row_three(2024).expect("third track row");
    assert_eq!(d3.rhel, 1);
}

#[test]
fn asset_kinds_counted() {
    let mut s = Stats::new();
    let rpm = "10.0.0.1 - - [05/Jan/2024:00:00:01 +0000] \"GET /a/b.rpm HTTP/1.1\" 200 5";
    let tar = "10.0.0.1 - - [05/Jan/2024:00:00:02 +0000] \"GET /a/b.tar HTTP/1.1\" 200 5";
    let md = "10.0.0.1 - - [05/Jan/2024:00:00:03 +0000] \"GET /a/repodata/repomd.xml HTTP/1.1\" 200 5";
    let other = "10.0.0.1 - - [05/Jan/2024:00:00:04 +0000] \"GET /a/b.html HTTP/1.1\" 200 5";
    s.ingest(rpm.as_bytes());
    s.ingest(tar.as_bytes());
    s.ingest(md.as_bytes());
    s.ingest(other.as_bytes());
    let a = s.asset_row(2024).expect("asset row");
    assert_eq!(a.rpm, 1);
    assert_eq!(a.tar, 1);
    assert_eq!(a.repomd, 1);
    let y = s.year_row(2024).expect("year row");
    assert_eq!(y.overall, 4);
}

#[test]
fn reingest_doubles_scalars_only() {
    let mut data = String::new();
    data.push_str(&line_a("10.0.0.1"));
    data.push('\n');
    data.push_str(&line_a("10.0.0.2"));
    data.push('\n');
    data.push_str("10.0.0.1 - - [05/Jan/2023:00:00:01 +0000] \"GET /OpenHPC/2/CentOS_8/p.rpm HTTP/1.1\" 200 50\n");
    let mut s = Stats::new();
    s.ingest(data.as_bytes());
    let first_total = s.total;
    let y1 = {
        let y = s.year_row(2023).expect("year row");
        (y.overall, y.t1, y.t2, y.bytes, y.uo, y.u1, y.u2)
    };
    s.ingest(data.as_bytes());
    assert_eq!(s.total, 2 * first_total);
    let y = s.year_row(2023).expect("year row");
    assert_eq!(y.overall, 2 * y1.0);
    assert_eq!(y.t1, 2 * y1.1);
    assert_eq!(y.t2, 2 * y1.2);
    assert_eq!(y.bytes, 2 * y1.3);
    assert_eq!(y.uo, y1.4);
    assert_eq!(y.u1, y1.5);
    assert_eq!(y.u2, y1.6);
    let d = s.distro_row_old(2023).expect("distro row");
    assert_eq!(d.rhel, 4);
}

#[test]
fn chunked_ingest_matches_single_pass() {
    let mut data = String::new();
    data.push_str(&line_a("10.0.0.1"));
    data.push('\n');
    data.push_str(&line_a("10.0.0.2"));
    data.push('\n');
    data.push_str("10.0.0.3 - - [05/Jan/2024:00:00:01 +0000] \"GET /OpenHPC/3/Leap_15/p.tar HTTP/1.1\" 200 7");
    let bytes = data.as_bytes();

    let mut single = Stats::new();
    single.ingest(bytes);

    // Split at an offset that falls inside the second record.
    for cut in [1usize, 40, bytes.len() / 2, bytes.len() - 3] {
        let mut chunked = Stats::new();
        let mut splitter = WindowSplitter::new(1 << 20);
        splitter.feed(&bytes[..cut], &mut chunked).expect("feed");
        splitter.feed(&bytes[cut..], &mut chunked).expect("feed");
        splitter.finish(&mut chunked);
        assert_eq!(chunked.total, single.total);
        for year in [2023i64, 2024] {
            let a = single.year_row(year).expect("year row");
            let b = chunked.year_row(year).expect("year row");
            assert_eq!(a.overall, b.overall);
            assert_eq!(a.t1, b.t1);
            assert_eq!(a.t2, b.t2);
            assert_eq!(a.t3, b.t3);
            assert_eq!(a.uo, b.uo);
            assert_eq!(a.bytes, b.bytes);
        }
    }
}

#[test]
fn oversized_record_is_fatal() {
    let mut s = Stats::new();
    let mut splitter = WindowSplitter::new(8);
    let r = splitter.feed(b"0123456789abcdef", &mut s);
    assert_eq!(r, Err(IngestError::OversizedRecord));
    assert_eq!(s.total, 0);
}

#[test]
fn final_unterminated_record_still_counts() {
    let mut s = Stats::new();
    let mut splitter = WindowSplitter::new(1 << 20);
    splitter
        .feed(line_a("10.0.0.1").as_bytes(), &mut s)
        .expect("feed");
    assert_eq!(s.total, 0);
    splitter.finish(&mut s);
    assert_eq!(s.total, 1);
    assert_eq!(s.year_row(2023).expect("year row").overall, 1);
}

#[test]
fn country_attribution_accumulates() {
    let mut s = Stats::new();
    s.add_country(2023, 3, &b"DE".to_vec(), 4);
    s.add_country(2023, 3, &b"DE".to_vec(), 2);
    s.add_country(2023, 3, &b"FR".to_vec(), 1);
    assert_eq!(s.country_count(2023, 3, &b"DE".to_vec()), 6);
    assert_eq!(s.country_count(2023, 3, &b"FR".to_vec()), 1);
    assert_eq!(s.country_count(2023, 4, &b"DE".to_vec()), 0);
}

#[test]
fn valid_record_counts_exactly_once() {
    let mut s = Stats::new();
    let line = "10.0.0.1 - - [09/Dec/2022:01:02:03 +0000] \"GET /OpenHPC/2/EL_8/p.rpm HTTP/1.1\" 200 9";
    s.ingest(line.as_bytes());
    let y = s.year_row(2022).expect("year row");
    assert_eq!(y.overall, 1);
    assert_eq!(y.t1, 0);
    assert_eq!(y.t2, 1);
    assert_eq!(y.t3, 0);
    let m = s.month_row(2022, 12).expect("month row");
    assert_eq!(m.overall, 1);
    assert_eq!(m.t2, 1);
    let d2 = s.distro_row_two(2022).expect("second track row");
    assert_eq!(d2.rhel, 1);
}

#[test]
fn largest_size_accumulates_without_wrapping() {
    let mut s = Stats::new();
    let line = format!(
        "10.0.0.1 - - [12/Mar/2023:10:00:00 +0000] \"GET /a HTTP/1.1\" 200 {}",
        u64::MAX
    );
    s.ingest(line.as_bytes());
    s.ingest(line.as_bytes());
    let y = s.year_row(2023).expect("year row");
    assert_eq!(y.bytes, 2 * (u64::MAX as u128));
    assert_eq!(y.overall, 2);
}

#[test]
fn empty_input_is_no_records() {
    let mut s = Stats::new();
    s.ingest(b"");
    assert_eq!(s.total, 0);
    s.ingest(b"\n\n");
    assert_eq!(s.total, 0);
}

#[test]
fn unique_bounds_hold() {
    let mut s = Stats::new();
    for addr in ["10.0.0.1", "10.0.0.1", "10.0.0.2", "10.9.9.9"] {
        s.ingest(line_a(addr).as_bytes());
    }
    let y = s.year_row(2023).expect("year row");
    assert!(y.uo <= y.overall);
    assert!(y.u1 <= y.t1);
    assert_eq!(y.uo, (y.ipv4.len() + y.ipv6.len()) as u64);
}
