use hearth::dashboard::{
    decode_mac, default_hours, device_anomalies, device_history, device_profile, devices, summary,
    HistoryQuery,
};
use hearth::net::IpAddr;
use hearth::store::Store;
use hearth::types::{Anomaly, AnomalyKind, Destination, Device, DeviceProfile, TrafficSample};

/// 2025-01-01T00:00:00Z
const NOW: i64 = 1_735_689_600;

fn store() -> Store {
    let mut s = Store::new();
    s.upsert_device(&Device {
        mac: "AA:00:00:00:00:01".into(),
        ip: IpAddr::V4(10, 0, 0, 1),
        vendor: None,
        label: Some("TV".into()),
        first_seen: NOW,
        last_seen: NOW + 100,
    });
    s.upsert_device(&Device {
        mac: "AA:00:00:00:00:02".into(),
        ip: IpAddr::V4(10, 0, 0, 2),
        vendor: None,
        label: None,
        first_seen: NOW,
        last_seen: NOW + 50,
    });
    let dest = |c: Option<&str>| Destination { ip: IpAddr::V4(1, 1, 1, 1), domain: None, country: c.map(|x| x.into()), bytes: 1 };
    s.insert_sample(&TrafficSample {
        id: None,
        mac: "AA:00:00:00:00:01".into(),
        timestamp: NOW + 60,
        bytes_sent: 700,
        bytes_recv: 30,
        top_destinations: vec![dest(None), dest(Some("SE")), dest(Some("US"))],
    })
    .unwrap();
    s.insert_sample(&TrafficSample {
        id: None,
        mac: "AA:00:00:00:00:02".into(),
        timestamp: NOW + 70,
        bytes_sent: 100,
        bytes_recv: 900,
        top_destinations: vec![],
    })
    .unwrap();
    s.insert_anomaly(&Anomaly {
        id: None,
        mac: "AA:00:00:00:00:01".into(),
        detected_at: NOW + 80,
        kind: AnomalyKind::UnusualHour,
        detail: String::new(),
        resolved: false,
    })
    .unwrap();
    s.upsert_profile(&DeviceProfile {
        mac: "AA:00:00:00:00:01".into(),
        baseline_mean_bits: 0,
        baseline_stddev_bits: 0,
        known_destinations: vec![],
        active_hours: vec![],
        profile_built_at: NOW,
        observation_hours: 72,
    });
    s
}

#[test]
fn summary_of_the_day() {
    let s = summary(&store(), NOW + 3600);
    assert_eq!(s.total_devices, 2);
    assert_eq!(s.total_bytes_sent_today, 800);
    assert_eq!(s.active_anomalies, 1);
    assert_eq!(s.most_active_device, Some("AA:00:00:00:00:02".to_string()));
}

#[test]
fn device_table_rows() {
    let rows = devices(&store(), NOW + 600);
    assert_eq!(rows.len(), 2);
    assert_eq!(rows[0].device.mac, "AA:00:00:00:00:01");
    assert_eq!(rows[0].bytes_sent_last_hour, 700);
    assert_eq!(rows[0].bytes_recv_last_hour, 30);
    assert_eq!(rows[0].top_country, Some("SE".to_string()));
    assert_eq!(rows[0].anomaly_count, 1);
    assert!(rows[0].profile_mature);
    assert_eq!(rows[1].top_country, None);
    assert_eq!(rows[1].anomaly_count, 0);
    assert!(!rows[1].profile_mature);
    // an hour later the samples are too old
    let later = devices(&store(), NOW + 60 + 3600);
    assert_eq!(later[0].bytes_sent_last_hour, 0);
    assert_eq!(later[0].top_country, None);
}

#[test]
fn macs_in_paths_are_decoded() {
    assert_eq!(decode_mac("AA%3A00%3a00:00%3A00%3A01"), "AA:00:00:00:00:01");
    assert_eq!(decode_mac("%%3A3A"), "%:3A");
    assert_eq!(default_hours(), 24);
}

#[test]
fn per_device_views() {
    let s = store();
    let q = HistoryQuery { hours: default_hours() };
    assert_eq!(device_history(&s, "AA%3A00%3A00%3A00%3A00%3A01", &q, NOW + 600).len(), 1);
    assert!(device_profile(&s, "AA%3a00%3a00%3a00%3a00%3a01").is_some());
    assert!(device_profile(&s, "AA%3a00%3a00%3a00%3a00%3a02").is_none());
    assert_eq!(device_anomalies(&s, "AA%3A00%3A00%3A00%3A00%3A01").len(), 1);
}

#[test]
fn a_mac_survives_the_trip_through_a_path() {
    for mac in ["AA:BB:CC:DD:EE:FF", "a:b", "no-colons", ""] {
        assert_eq!(decode_mac(&hearth::client::encode_mac(mac)), mac);
    }
}
