use hearth::net::{ip_to_string, is_private_ip, IpAddr};
use hearth::text::{decimal_string, replace_all, trim_chars};
use hearth::types::{AnomalyKind, UnknownAnomalyKind};

#[test]
fn private_ranges() {
    assert!(is_private_ip(&IpAddr::V4(10, 1, 2, 3)));
    assert!(is_private_ip(&IpAddr::V4(172, 16, 0, 1)));
    assert!(is_private_ip(&IpAddr::V4(172, 31, 255, 255)));
    assert!(!is_private_ip(&IpAddr::V4(172, 32, 0, 1)));
    assert!(is_private_ip(&IpAddr::V4(192, 168, 1, 1)));
    assert!(is_private_ip(&IpAddr::V4(127, 0, 0, 1)));
    assert!(is_private_ip(&IpAddr::V4(169, 254, 3, 4)));
    assert!(!is_private_ip(&IpAddr::V4(8, 8, 8, 8)));
    assert!(is_private_ip(&IpAddr::V6(0, 0, 0, 0, 0, 0, 0, 1)));
    assert!(!is_private_ip(&IpAddr::V6(0xfe80, 0, 0, 0, 0, 0, 0, 1)));
}

#[test]
fn address_text() {
    let cases: Vec<(IpAddr, &str)> = vec![
        (IpAddr::V4(185, 199, 108, 153), "185.199.108.153"),
        (IpAddr::V4(0, 0, 0, 0), "0.0.0.0"),
        (IpAddr::V6(0, 0, 0, 0, 0, 0, 0, 0), "::"),
        (IpAddr::V6(0, 0, 0, 0, 0, 0, 0, 1), "::1"),
        (IpAddr::V6(0x2001, 0xdb8, 0, 0, 1, 0, 0, 1), "2001:db8::1:0:0:1"),
        (IpAddr::V6(0x2001, 0xdb8, 0, 1, 1, 1, 1, 1), "2001:db8:0:1:1:1:1:1"),
        (IpAddr::V6(0, 0, 0, 0, 0, 0xffff, 0xc000, 0x0280), "::ffff:192.0.2.128"),
        (IpAddr::V6(0xfe80, 0, 0, 0, 0xabcd, 0, 0, 0), "fe80::abcd:0:0:0"),
        (IpAddr::V6(1, 0, 0, 2, 0, 0, 0, 3), "1:0:0:2::3"),
    ];
    for (ours, text) in cases {
        assert_eq!(ip_to_string(&ours), text);
    }
}

#[test]
fn decimal_and_trim_helpers() {
    assert_eq!(decimal_string(0), "0");
    assert_eq!(decimal_string(18446744073709551615), "18446744073709551615");
    let t: Vec<char> = "  a b \t\n".chars().collect();
    assert_eq!(trim_chars(&t).into_iter().collect::<String>(), "a b");
    let s: Vec<char> = "%3A%3A:x%3a".chars().collect();
    let pat: Vec<char> = "%3A".chars().collect();
    let to: Vec<char> = ":".chars().collect();
    assert_eq!(replace_all(&s, &pat, &to).into_iter().collect::<String>(), ":::x%3a");
}

#[test]
fn anomaly_kind_names_round_trip() {
    for k in [
        AnomalyKind::ExcessiveUpload,
        AnomalyKind::NewDestination,
        AnomalyKind::UnusualHour,
        AnomalyKind::VoiceLeakSuspected,
    ] {
        assert_eq!(AnomalyKind::from_str(&k.to_string()).unwrap(), k);
    }
    assert_eq!(AnomalyKind::UnusualHour.to_string(), "UnusualHour");
    let e: UnknownAnomalyKind = AnomalyKind::from_str("Bogus").err().unwrap();
    assert_eq!(e.message(), "Unknown AnomalyKind: Bogus");
}
