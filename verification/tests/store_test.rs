use hearth::net::IpAddr;
use hearth::store::{Store, StoreError};
use hearth::types::{Anomaly, AnomalyKind, Destination, Device, DeviceProfile, TrafficSample};

/// 2025-01-01T00:00:00Z
const NOW: i64 = 1_735_689_600;

fn device(mac: &str, ip: IpAddr, seen: i64) -> Device {
    Device {
        mac: mac.to_string(),
        ip,
        vendor: None,
        label: None,
        first_seen: seen,
        last_seen: seen,
    }
}

fn sample(mac: &str, ts: i64, sent: u64, recv: u64) -> TrafficSample {
    TrafficSample {
        id: None,
        mac: mac.to_string(),
        timestamp: ts,
        bytes_sent: sent,
        bytes_recv: recv,
        top_destinations: vec![],
    }
}

#[test]
fn test_device_crud() {
    let mut store = Store::new();

    let device = Device {
        mac: "AA:BB:CC:DD:EE:FF".to_string(),
        ip: IpAddr::V4(192, 168, 1, 100),
        vendor: Some("TestVendor".to_string()),
        label: Some("Test Device".to_string()),
        first_seen: NOW,
        last_seen: NOW,
    };

    store.upsert_device(&device);
    let devices = store.get_all_devices();
    assert_eq!(devices.len(), 1);
    assert_eq!(devices[0].mac, "AA:BB:CC:DD:EE:FF");
    assert_eq!(devices[0].vendor, Some("TestVendor".to_string()));
    assert_eq!(devices[0].label, Some("Test Device".to_string()));
}

#[test]
fn test_device_upsert_updates() {
    let mut store = Store::new();

    let device1 = Device {
        mac: "AA:BB:CC:DD:EE:FF".to_string(),
        ip: IpAddr::V4(192, 168, 1, 100),
        vendor: Some("OldVendor".to_string()),
        label: None,
        first_seen: NOW,
        last_seen: NOW,
    };
    store.upsert_device(&device1);

    let device2 = Device {
        mac: "AA:BB:CC:DD:EE:FF".to_string(),
        ip: IpAddr::V4(192, 168, 1, 101),
        vendor: Some("NewVendor".to_string()),
        label: Some("Updated".to_string()),
        first_seen: NOW,
        last_seen: NOW,
    };
    store.upsert_device(&device2);

    let devices = store.get_all_devices();
    assert_eq!(devices.len(), 1);
    assert_eq!(devices[0].vendor, Some("NewVendor".to_string()));
}

#[test]
fn test_device_upsert_preserves_first_seen_and_existing_label() {
    let mut store = Store::new();
    let first_seen = NOW - 2 * 86400;
    let first_last_seen = NOW - 86400;
    let new_last_seen = NOW;

    store.upsert_device(&Device {
        mac: "AA:BB:CC:DD:EE:FF".to_string(),
        ip: IpAddr::V4(192, 168, 1, 100),
        vendor: Some("OldVendor".to_string()),
        label: Some("Kitchen Speaker".to_string()),
        first_seen,
        last_seen: first_last_seen,
    });

    store.upsert_device(&Device {
        mac: "AA:BB:CC:DD:EE:FF".to_string(),
        ip: IpAddr::V4(192, 168, 1, 101),
        vendor: Some("NewVendor".to_string()),
        label: None,
        first_seen: new_last_seen,
        last_seen: new_last_seen,
    });

    let devices = store.get_all_devices();
    assert_eq!(devices.len(), 1);
    assert_eq!(devices[0].ip, IpAddr::V4(192, 168, 1, 101));
    assert_eq!(devices[0].vendor, Some("NewVendor".to_string()));
    assert_eq!(devices[0].label, Some("Kitchen Speaker".to_string()));
    assert_eq!(devices[0].first_seen, first_seen);
    assert_eq!(devices[0].last_seen, new_last_seen);
}

#[test]
fn test_traffic_sample_insert_and_query() {
    let mut store = Store::new();

    store.upsert_device(&device("AA:BB:CC:DD:EE:01", IpAddr::V4(192, 168, 1, 50), NOW));

    let sample = TrafficSample {
        id: None,
        mac: "AA:BB:CC:DD:EE:01".to_string(),
        timestamp: NOW,
        bytes_sent: 1024,
        bytes_recv: 2048,
        top_destinations: vec![Destination {
            ip: IpAddr::V4(8, 8, 8, 8),
            domain: Some("dns.google".to_string()),
            country: Some("US".to_string()),
            bytes: 512,
        }],
    };

    store.insert_sample(&sample).unwrap();
    let samples = store.get_samples_for_device("AA:BB:CC:DD:EE:01", 1, NOW);
    assert_eq!(samples.len(), 1);
    assert_eq!(samples[0].bytes_sent, 1024);
    assert_eq!(samples[0].top_destinations.len(), 1);
    assert_eq!(samples[0].top_destinations[0].domain, Some("dns.google".to_string()));
}

#[test]
fn test_anomaly_crud() {
    let mut store = Store::new();

    let anomaly = Anomaly {
        id: None,
        mac: "AA:BB:CC:DD:EE:FF".to_string(),
        detected_at: NOW,
        kind: AnomalyKind::ExcessiveUpload,
        detail: "Test anomaly".to_string(),
        resolved: false,
    };

    let id = store.insert_anomaly(&anomaly).unwrap();
    assert!(id > 0);

    let unresolved = store.get_unresolved_anomalies();
    assert_eq!(unresolved.len(), 1);
    assert_eq!(unresolved[0].kind, AnomalyKind::ExcessiveUpload);

    store.resolve_anomaly(id);
    let unresolved = store.get_unresolved_anomalies();
    assert_eq!(unresolved.len(), 0);
}

#[test]
fn test_profile_crud() {
    let mut store = Store::new();

    let profile = DeviceProfile {
        mac: "AA:BB:CC:DD:EE:FF".to_string(),
        baseline_mean_bits: 5000.0f64.to_bits(),
        baseline_stddev_bits: 1200.0f64.to_bits(),
        known_destinations: vec!["8.8.8.8".to_string(), "1.1.1.1".to_string()],
        active_hours: vec![8, 9, 10, 11, 12, 13, 14, 15, 16, 17],
        profile_built_at: NOW,
        observation_hours: 96,
    };

    store.upsert_profile(&profile);

    let retrieved = store.get_profile("AA:BB:CC:DD:EE:FF").unwrap();
    assert_eq!(retrieved.observation_hours, 96);
    assert!((f64::from_bits(retrieved.baseline_mean_bits) - 5000.0).abs() < 0.01);
    assert_eq!(retrieved.known_destinations.len(), 2);
    assert_eq!(retrieved.active_hours.len(), 10);
}

#[test]
fn test_device_bytes_aggregation() {
    let mut store = Store::new();

    store.upsert_device(&device("AA:BB:CC:DD:EE:01", IpAddr::V4(192, 168, 1, 50), NOW));

    for i in 0..5u64 {
        store
            .insert_sample(&sample("AA:BB:CC:DD:EE:01", NOW, 1000 + i * 100, 2000 + i * 200))
            .unwrap();
    }

    let (sent, recv) = store.get_device_bytes_last_hours("AA:BB:CC:DD:EE:01", 1, NOW).unwrap();
    assert_eq!(sent, 6000); // 1000+1100+1200+1300+1400
    assert_eq!(recv, 12000); // 2000+2200+2400+2600+2800
}

#[test]
fn test_prune_old_samples() {
    let mut store = Store::new();

    store.upsert_device(&device("AA:BB:CC:DD:EE:01", IpAddr::V4(192, 168, 1, 50), NOW));

    // A sample taken now
    store.insert_sample(&sample("AA:BB:CC:DD:EE:01", NOW, 1000, 2000)).unwrap();

    // Nothing is pruned since it is recent
    store.prune_old_samples(7, NOW);
    let samples = store.get_recent_samples(24, NOW);
    assert_eq!(samples.len(), 1);
}

#[test]
fn test_get_profile_nonexistent() {
    let store = Store::new();
    let result = store.get_profile("NONEXISTENT");
    assert!(result.is_none());
}

// ---------------------------------------------------------------------------
// Further behaviour of the store
// ---------------------------------------------------------------------------

#[test]
fn prune_drops_samples_older_than_the_cutoff() {
    let mut store = Store::new();
    store.insert_sample(&sample("AA:BB:CC:DD:EE:01", NOW - 8 * 86400, 1, 1)).unwrap();
    store.insert_sample(&sample("AA:BB:CC:DD:EE:01", NOW - 86400, 2, 2)).unwrap();
    store.prune_old_samples(7, NOW);
    let left = store.get_recent_samples(24 * 30, NOW);
    assert_eq!(left.len(), 1);
    assert_eq!(left[0].bytes_sent, 2);
}

#[test]
fn samples_come_back_oldest_first_with_row_ids() {
    let mut store = Store::new();
    store.insert_sample(&sample("AA:BB:CC:DD:EE:01", NOW - 60, 2, 0)).unwrap();
    store.insert_sample(&sample("AA:BB:CC:DD:EE:01", NOW - 120, 1, 0)).unwrap();
    store.insert_sample(&sample("AA:BB:CC:DD:EE:02", NOW - 90, 9, 0)).unwrap();
    let v = store.get_samples_for_device("AA:BB:CC:DD:EE:01", 1, NOW);
    assert_eq!(v.len(), 2);
    assert_eq!(v[0].bytes_sent, 1);
    assert_eq!(v[1].bytes_sent, 2);
    assert_eq!(v[0].id, Some(2));
    assert_eq!(v[1].id, Some(1));
}

#[test]
fn devices_come_back_most_recently_seen_first() {
    let mut store = Store::new();
    store.upsert_device(&device("AA:00:00:00:00:01", IpAddr::V4(10, 0, 0, 1), NOW - 100));
    store.upsert_device(&device("AA:00:00:00:00:02", IpAddr::V4(10, 0, 0, 2), NOW));
    store.upsert_device(&device("AA:00:00:00:00:03", IpAddr::V4(10, 0, 0, 3), NOW - 50));
    let d = store.get_all_devices();
    assert_eq!(d[0].mac, "AA:00:00:00:00:02");
    assert_eq!(d[1].mac, "AA:00:00:00:00:03");
    assert_eq!(d[2].mac, "AA:00:00:00:00:01");
    assert_eq!(store.get_device("AA:00:00:00:00:03").unwrap().last_seen, NOW - 50);
    assert!(store.get_device("AA:00:00:00:00:09").is_none());
}

#[test]
fn anomalies_per_device_and_counts() {
    let mut store = Store::new();
    let mk = |mac: &str, at: i64, kind: AnomalyKind| Anomaly {
        id: None,
        mac: mac.to_string(),
        detected_at: at,
        kind,
        detail: String::new(),
        resolved: false,
    };
    let a = store.insert_anomaly(&mk("M1", NOW - 10, AnomalyKind::UnusualHour)).unwrap();
    store.insert_anomaly(&mk("M1", NOW, AnomalyKind::NewDestination)).unwrap();
    store.insert_anomaly(&mk("M2", NOW, AnomalyKind::ExcessiveUpload)).unwrap();
    assert_eq!(store.count_anomalies_for_device("M1"), 2);
    let m1 = store.get_anomalies_for_device("M1");
    assert_eq!(m1.len(), 2);
    assert_eq!(m1[0].kind, AnomalyKind::NewDestination);
    store.resolve_anomaly(a);
    assert_eq!(store.count_anomalies_for_device("M1"), 1);
    assert_eq!(store.get_anomalies_for_device("M1").len(), 2);
    assert_eq!(store.get_unresolved_anomalies().len(), 2);
}

#[test]
fn totals_and_most_active_today() {
    let mut store = Store::new();
    store.upsert_device(&Device {
        mac: "AA:00:00:00:00:02".to_string(),
        ip: IpAddr::V4(10, 0, 0, 2),
        vendor: None,
        label: Some("Laptop".to_string()),
        first_seen: NOW,
        last_seen: NOW,
    });
    // yesterday: not counted
    store.insert_sample(&sample("AA:00:00:00:00:01", NOW - 10, 1_000_000, 0)).unwrap();
    store.insert_sample(&sample("AA:00:00:00:00:01", NOW + 60, 100, 50)).unwrap();
    store.insert_sample(&sample("AA:00:00:00:00:02", NOW + 120, 300, 10)).unwrap();
    assert_eq!(store.get_total_bytes_sent_today(NOW + 3600), Ok(400));
    assert_eq!(store.get_most_active_device_today(NOW + 3600), Ok(Some("Laptop".to_string())));
    let empty = Store::new();
    assert_eq!(empty.get_most_active_device_today(NOW), Ok(None));
}

#[test]
fn byte_sums_that_overflow_are_an_error() {
    let mut store = Store::new();
    store.insert_sample(&sample("AA:00:00:00:00:01", NOW + 10, i64::MAX as u64, 0)).unwrap();
    store.insert_sample(&sample("AA:00:00:00:00:01", NOW + 10, 1, 0)).unwrap();
    assert_eq!(
        store.get_device_bytes_last_hours("AA:00:00:00:00:01", 1, NOW + 20),
        Err(StoreError::IntegerOverflow)
    );
    assert_eq!(store.get_total_bytes_sent_today(NOW + 20), Err(StoreError::IntegerOverflow));
    assert_eq!(store.get_most_active_device_today(NOW + 20), Err(StoreError::IntegerOverflow));
}

#[test]
fn anomaly_count_is_the_unresolved_part_of_the_list() {
    let mut store = Store::new();
    let mut ids = Vec::new();
    for (k, mac) in ["M1", "M2", "M1", "M1", "M2"].iter().enumerate() {
        let a = Anomaly {
            id: None,
            mac: mac.to_string(),
            detected_at: NOW - k as i64,
            kind: AnomalyKind::UnusualHour,
            detail: String::new(),
            resolved: false,
        };
        ids.push(store.insert_anomaly(&a).unwrap());
    }
    store.resolve_anomaly(ids[2]);
    store.resolve_anomaly(ids[1]);
    for mac in ["M1", "M2", "M3"] {
        let open = store.get_anomalies_for_device(mac).iter().filter(|a| !a.resolved).count();
        assert_eq!(store.count_anomalies_for_device(mac) as usize, open);
    }
    assert_eq!(store.count_anomalies_for_device("M1"), 2);
    assert_eq!(store.count_anomalies_for_device("M2"), 1);
    assert_eq!(store.get_anomalies_for_device("M1").len(), 3);
}

#[test]
fn device_samples_are_that_device_newer_than_the_cutoff_oldest_first() {
    let mut store = Store::new();
    store.insert_sample(&sample("M1", NOW - 100, 1, 0)).unwrap();
    store.insert_sample(&sample("M2", NOW - 50, 2, 0)).unwrap();
    store.insert_sample(&sample("M1", NOW - 7200, 3, 0)).unwrap();
    store.insert_sample(&sample("M1", NOW - 10, 4, 0)).unwrap();
    store.insert_sample(&sample("M1", NOW - 3600, 5, 0)).unwrap();
    let got: Vec<u64> = store.get_samples_for_device("M1", 1, NOW).iter().map(|s| s.bytes_sent).collect();
    assert_eq!(got, vec![1, 4]);
    let got: Vec<u64> = store.get_samples_for_device("M1", 2, NOW).iter().map(|s| s.bytes_sent).collect();
    assert_eq!(got, vec![5, 1, 4]);
    store.prune_old_samples(0, NOW - 60);
    let left: Vec<u64> = store.get_recent_samples(24, NOW).iter().map(|s| s.bytes_sent).collect();
    assert_eq!(left, vec![2, 4]);
}
