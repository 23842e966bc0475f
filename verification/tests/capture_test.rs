use hearth::capture::{
    demo_snapshots, demo_snapshots_from, format_mac, mix_nanos, parse_frame, rand_u64, top_destinations, CaptureWindow,
};
use hearth::net::IpAddr;

fn ipv4_frame(dst: [u8; 6], src: [u8; 6], src_ip: [u8; 4], dst_ip: [u8; 4], extra: usize) -> Vec<u8> {
    let mut f = Vec::new();
    f.extend_from_slice(&dst);
    f.extend_from_slice(&src);
    f.extend_from_slice(&[0x08, 0x00]);
    let mut ip = vec![0u8; 20];
    ip[0] = 0x45;
    ip[12..16].copy_from_slice(&src_ip);
    ip[16..20].copy_from_slice(&dst_ip);
    f.extend_from_slice(&ip);
    f.extend(std::iter::repeat(0u8).take(extra));
    f
}

#[test]
fn mac_text_is_upper_hex_with_colons() {
    assert_eq!(format_mac(&[0xaa, 0xbb, 0x0c, 0x00, 0xee, 0xff]), "AA:BB:0C:00:EE:FF");
    assert_eq!(format_mac(&[]), "");
    assert_eq!(format_mac(&[7]), "07");
}

#[test]
fn frames_are_parsed() {
    let f = ipv4_frame([1, 2, 3, 4, 5, 6], [0xaa, 0, 0, 0, 0, 1], [192, 168, 1, 5], [8, 8, 8, 8], 6);
    let p = parse_frame(&f).unwrap();
    assert_eq!(p.src_mac, "AA:00:00:00:00:01");
    assert_eq!(p.dst_mac, "01:02:03:04:05:06");
    assert_eq!(p.src_ip, IpAddr::V4(192, 168, 1, 5));
    assert_eq!(p.dst_ip, IpAddr::V4(8, 8, 8, 8));
    assert_eq!(p.len, 40);
}

#[test]
fn ipv6_frames_are_parsed() {
    let mut f = vec![0u8; 14 + 40];
    f[12] = 0x86;
    f[13] = 0xdd;
    f[14 + 8] = 0x20;
    f[14 + 9] = 0x01;
    f[14 + 23] = 1;
    f[14 + 39] = 2;
    let p = parse_frame(&f).unwrap();
    assert_eq!(p.src_ip, IpAddr::V6(0x2001, 0, 0, 0, 0, 0, 0, 1));
    assert_eq!(p.dst_ip, IpAddr::V6(0, 0, 0, 0, 0, 0, 0, 2));
}

#[test]
fn non_ip_and_short_frames_are_skipped() {
    let mut arp = ipv4_frame([1; 6], [2; 6], [1, 1, 1, 1], [2, 2, 2, 2], 0);
    arp[12] = 0x08;
    arp[13] = 0x06;
    assert!(parse_frame(&arp).is_none());
    assert!(parse_frame(&[0u8; 13]).is_none());
    let short = ipv4_frame([1; 6], [2; 6], [1, 1, 1, 1], [2, 2, 2, 2], 0);
    assert!(parse_frame(&short[..33]).is_none());
    let mut short6 = vec![0u8; 14 + 39];
    short6[12] = 0x86;
    short6[13] = 0xdd;
    assert!(parse_frame(&short6).is_none());
}

#[test]
fn a_window_counts_frames_per_device() {
    let mut w = CaptureWindow::new();
    let a = [0xaa, 0, 0, 0, 0, 1];
    let b = [0xbb, 0, 0, 0, 0, 2];
    assert!(w.count_frame(&ipv4_frame(b, a, [10, 0, 0, 1], [8, 8, 8, 8], 60)));
    assert!(w.count_frame(&ipv4_frame(b, a, [10, 0, 0, 9], [1, 1, 1, 1], 0)));
    assert!(w.count_frame(&ipv4_frame(b, a, [10, 0, 0, 9], [8, 8, 8, 8], 0)));
    let snaps = w.drain();
    assert_eq!(snaps.len(), 2);
    assert_eq!(snaps[0].mac, "AA:00:00:00:00:01");
    assert_eq!(snaps[0].ip, IpAddr::V4(10, 0, 0, 9));
    assert_eq!(snaps[0].bytes_sent, 94 + 34 + 34);
    assert_eq!(snaps[0].bytes_recv, 0);
    assert_eq!(snaps[0].destinations, vec![(IpAddr::V4(8, 8, 8, 8), 128), (IpAddr::V4(1, 1, 1, 1), 34)]);
    assert_eq!(snaps[1].mac, "BB:00:00:00:00:02");
    assert_eq!(snaps[1].ip, IpAddr::V4(8, 8, 8, 8));
    assert_eq!(snaps[1].bytes_recv, 162);
    assert!(snaps[1].destinations.is_empty());
    assert!(w.drain().is_empty());
}

#[test]
fn a_frame_that_would_overflow_is_not_counted() {
    let mut w = CaptureWindow::new();
    let a = "AA:00:00:00:00:01";
    let b = "BB:00:00:00:00:02";
    let x = IpAddr::V4(10, 0, 0, 1);
    let y = IpAddr::V4(8, 8, 8, 8);
    assert!(w.can_record(a, b, x, y, u64::MAX));
    w.record_frame(a, b, x, y, u64::MAX);
    assert!(!w.can_record(a, b, x, y, 1));
    assert!(w.can_record(b, "CC:00:00:00:00:03", y, x, 1));
}

#[test]
fn only_the_five_busiest_destinations_are_kept() {
    let all: Vec<(IpAddr, u64)> = (1..=7u8).map(|k| (IpAddr::V4(1, 1, 1, k), k as u64 * 10)).collect();
    let top = top_destinations(&all, 5);
    assert_eq!(top.iter().map(|d| d.1).collect::<Vec<_>>(), vec![70, 60, 50, 40, 30]);
    let few = top_destinations(&all[..2].to_vec(), 5);
    assert_eq!(few.len(), 2);
    assert_eq!(few[0].1, 20);
}

#[test]
fn xorshift_mixing() {
    assert_eq!(mix_nanos(0), 0);
    let x: u64 = 1;
    let a = x ^ (x << 13);
    let b = a ^ (a >> 7);
    assert_eq!(mix_nanos(1), b ^ (b << 17));
    let _ = rand_u64();
}

#[test]
fn demo_batches_have_the_five_demo_devices() {
    let snaps = demo_snapshots();
    assert_eq!(snaps.len(), 5);
    assert_eq!(snaps[0].mac, "AA:BB:CC:DD:EE:01");
    assert_eq!(snaps[4].ip, IpAddr::V4(192, 168, 1, 104));
    for s in &snaps {
        assert!((1000..51000).contains(&s.bytes_sent));
        assert!((5000..205000).contains(&s.bytes_recv));
        assert!((1..=3).contains(&s.destinations.len()));
        assert_eq!(s.destinations[0].0, IpAddr::V4(142, 250, 80, 46));
    }
}

#[test]
fn demo_batch_follows_the_draws() {
    let mut draws: Vec<u64> = (0..30u64).map(|k| k * 1_000_003).collect();
    // device 0: sent 123456 % 50000 + 1000, received 7 + 5000, two destinations
    draws[0] = 123_456;
    draws[1] = 7;
    draws[2] = 4;
    draws[3] = 20_000;
    draws[4] = 9_999;
    // device 1: three destinations
    draws[8] = 5;
    let snaps = demo_snapshots_from(&draws);
    assert_eq!(snaps.len(), 5);
    assert_eq!(snaps[0].mac, "AA:BB:CC:DD:EE:01");
    assert_eq!(snaps[0].ip, IpAddr::V4(192, 168, 1, 100));
    assert_eq!(snaps[0].bytes_sent, 24_456);
    assert_eq!(snaps[0].bytes_recv, 5_007);
    assert_eq!(
        snaps[0].destinations,
        vec![(IpAddr::V4(142, 250, 80, 46), 100), (IpAddr::V4(31, 13, 71, 36), 10_099)]
    );
    assert_eq!(snaps[1].destinations.len(), 3);
    assert_eq!(snaps[1].destinations[2].0, IpAddr::V4(54, 239, 26, 128));
    assert_eq!(snaps[1].destinations[2].1, draws[11] % 10000 + 100);
    assert_eq!(snaps[3].bytes_sent, draws[18] % 50000 + 1000);
    assert_eq!(snaps[4].mac, "AA:BB:CC:DD:EE:05");
    assert_eq!(snaps[4].bytes_recv, draws[25] % 200000 + 5000);
}
