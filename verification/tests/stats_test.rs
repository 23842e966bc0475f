use hearth::capture::DeviceSnapshot;
use hearth::net::IpAddr;
use hearth::stats::{
    detect_anomalies, generate_weekly_digest, highlight_text, hour_bucket_exec, hour_of_day_exec,
    new_destination_detail, observe_profile, profile_observation, record_findings, store_profile,
    unusual_hour_detail, Finding, HourBytes,
};
use hearth::store::{Store, StoreError};
use hearth::types::{Anomaly, AnomalyKind, Destination, Device, DeviceProfile, TrafficSample};

/// 2025-01-01T00:00:00Z, a Wednesday
const NOW: i64 = 1_735_689_600;

/// The baseline of a profile: the mean and sample standard deviation of the
/// hourly averages, as the daemon computes them.
fn baseline(hourly: &[HourBytes]) -> (f64, f64) {
    let avgs: Vec<f64> =
        hourly.iter().map(|h| h.total_sent as f64 / (h.samples.max(1)) as f64).collect();
    let mean = if avgs.is_empty() { 0.0 } else { avgs.iter().sum::<f64>() / avgs.len() as f64 };
    let stddev = if avgs.len() < 2 {
        0.0
    } else {
        (avgs.iter().map(|v| (v - mean).powi(2)).sum::<f64>() / (avgs.len() - 1) as f64).sqrt()
    };
    (mean, stddev)
}

/// One round of the stats engine over a snapshot at `now`: rebuild the
/// device's profile, then record the anomalies the snapshot raises.
fn process_snapshot(store: &mut Store, snap: &DeviceSnapshot, now: i64) {
    if let Some(obs) = profile_observation(store, &snap.mac, now) {
        let (mean, stddev) = baseline(&obs.hourly);
        store_profile(store, &snap.mac, obs, now, mean.to_bits(), stddev.to_bits());
    }
    let profile = store.get_profile(&snap.mac);
    let exceeds = match &profile {
        Some(p) => {
            let mean = f64::from_bits(p.baseline_mean_bits);
            let thresh = mean + 3.0 * f64::from_bits(p.baseline_stddev_bits);
            thresh > 0.0 && snap.bytes_sent as f64 > thresh
        }
        None => false,
    };
    let findings = detect_anomalies(&profile, snap, now, exceeds);
    let detail = match &profile {
        Some(p) => format!(
            "Uploaded {} bytes — {:.1}x above baseline",
            snap.bytes_sent,
            snap.bytes_sent as f64 / f64::from_bits(p.baseline_mean_bits).max(1.0)
        ),
        None => String::new(),
    };
    record_findings(store, &snap.mac, now, &findings, &detail).unwrap();
}

/// A store with a mature profile for testing anomaly detection.
fn setup_with_mature_profile() -> Store {
    let mut store = Store::new();

    store.upsert_device(&Device {
        mac: "AA:BB:CC:DD:EE:01".into(),
        ip: IpAddr::V4(192, 168, 1, 100),
        vendor: None,
        label: Some("Test Device".into()),
        first_seen: NOW,
        last_seen: NOW,
    });

    // Enough samples for a mature profile (72+ hours)
    let base_time = NOW - 5 * 86400;
    for h in 0..120 {
        let ts = base_time + h * 3600;
        store
            .insert_sample(&TrafficSample {
                id: None,
                mac: "AA:BB:CC:DD:EE:01".into(),
                timestamp: ts,
                bytes_sent: 5000, // baseline ~5000/hr
                bytes_recv: 10000,
                top_destinations: vec![Destination {
                    ip: IpAddr::V4(8, 8, 8, 8),
                    domain: None,
                    country: Some("US".into()),
                    bytes: 5000,
                }],
            })
            .unwrap();
    }

    store.upsert_profile(&DeviceProfile {
        mac: "AA:BB:CC:DD:EE:01".into(),
        baseline_mean_bits: 5000.0f64.to_bits(),
        baseline_stddev_bits: 500.0f64.to_bits(),
        known_destinations: vec!["8.8.8.8".into()],
        active_hours: vec![8, 9, 10, 11, 12, 13, 14, 15, 16, 17, 18, 19, 20],
        profile_built_at: NOW,
        observation_hours: 120,
    });

    store
}

fn kinds(store: &Store, kind: AnomalyKind) -> usize {
    store.get_unresolved_anomalies().iter().filter(|a| a.kind == kind).count()
}

#[test]
fn test_excessive_upload_anomaly() {
    let mut store = setup_with_mature_profile();

    // An upload way above the threshold (mean + 3 * stddev)
    let snapshot = DeviceSnapshot {
        mac: "AA:BB:CC:DD:EE:01".into(),
        ip: IpAddr::V4(192, 168, 1, 100),
        bytes_sent: 50000,
        bytes_recv: 10000,
        destinations: vec![(IpAddr::V4(8, 8, 8, 8), 50000)],
    };

    process_snapshot(&mut store, &snapshot, NOW);

    assert!(kinds(&store, AnomalyKind::ExcessiveUpload) > 0, "Should detect ExcessiveUpload anomaly");
}

#[test]
fn test_new_destination_anomaly() {
    let mut store = setup_with_mature_profile();

    // A new public IP not among the known destinations
    let snapshot = DeviceSnapshot {
        mac: "AA:BB:CC:DD:EE:01".into(),
        ip: IpAddr::V4(192, 168, 1, 100),
        bytes_sent: 1000,
        bytes_recv: 2000,
        destinations: vec![(IpAddr::V4(185, 199, 108, 153), 1000)],
    };

    process_snapshot(&mut store, &snapshot, NOW);

    assert!(kinds(&store, AnomalyKind::NewDestination) > 0, "Should detect NewDestination anomaly");
}

#[test]
fn test_no_anomaly_for_known_destination() {
    let mut store = setup_with_mature_profile();

    let snapshot = DeviceSnapshot {
        mac: "AA:BB:CC:DD:EE:01".into(),
        ip: IpAddr::V4(192, 168, 1, 100),
        bytes_sent: 3000,
        bytes_recv: 5000,
        destinations: vec![(IpAddr::V4(8, 8, 8, 8), 3000)],
    };

    process_snapshot(&mut store, &snapshot, NOW);

    assert_eq!(
        kinds(&store, AnomalyKind::NewDestination),
        0,
        "Should NOT detect anomaly for known destination"
    );
}

#[test]
fn test_no_anomaly_for_private_ip() {
    let mut store = setup_with_mature_profile();

    let snapshot = DeviceSnapshot {
        mac: "AA:BB:CC:DD:EE:01".into(),
        ip: IpAddr::V4(192, 168, 1, 100),
        bytes_sent: 1000,
        bytes_recv: 2000,
        destinations: vec![(IpAddr::V4(192, 168, 1, 1), 1000)],
    };

    process_snapshot(&mut store, &snapshot, NOW);

    assert_eq!(
        kinds(&store, AnomalyKind::NewDestination),
        0,
        "Should NOT flag private IPs as new destinations"
    );
}

#[test]
fn test_no_anomaly_for_immature_profile() {
    let mut store = Store::new();

    store.upsert_device(&Device {
        mac: "BB:CC:DD:EE:FF:00".into(),
        ip: IpAddr::V4(192, 168, 1, 200),
        vendor: None,
        label: None,
        first_seen: NOW,
        last_seen: NOW,
    });

    store.upsert_profile(&DeviceProfile {
        mac: "BB:CC:DD:EE:FF:00".into(),
        baseline_mean_bits: 1000.0f64.to_bits(),
        baseline_stddev_bits: 100.0f64.to_bits(),
        known_destinations: vec![],
        active_hours: vec![10, 11, 12],
        profile_built_at: NOW,
        observation_hours: 48, // below the 72 hours threshold
    });

    let snapshot = DeviceSnapshot {
        mac: "BB:CC:DD:EE:FF:00".into(),
        ip: IpAddr::V4(192, 168, 1, 200),
        bytes_sent: 999999, // a massive upload, but the profile is immature
        bytes_recv: 0,
        destinations: vec![],
    };

    process_snapshot(&mut store, &snapshot, NOW);

    assert!(store.get_unresolved_anomalies().is_empty(), "Immature profiles should not trigger anomalies");
}

// ---------------------------------------------------------------------------
// Clock arithmetic and the profile observation
// ---------------------------------------------------------------------------

#[test]
fn hour_buckets_round_toward_zero() {
    assert_eq!(hour_bucket_exec(7199), 1);
    assert_eq!(hour_bucket_exec(-1), 0);
    assert_eq!(hour_bucket_exec(-3600), -1);
    assert_eq!(hour_bucket_exec(-3601), -1);
}

#[test]
fn hours_of_day_are_utc() {
    assert_eq!(hour_of_day_exec(NOW), 0);
    assert_eq!(hour_of_day_exec(NOW + 13 * 3600 + 59), 13);
    assert_eq!(hour_of_day_exec(-1), 23);
}

fn sample_at(ts: i64, sent: u64, dests: Vec<(IpAddr, Option<&str>)>) -> TrafficSample {
    TrafficSample {
        id: None,
        mac: "M".into(),
        timestamp: ts,
        bytes_sent: sent,
        bytes_recv: 0,
        top_destinations: dests
            .into_iter()
            .map(|(ip, c)| Destination { ip, domain: None, country: c.map(|s| s.to_string()), bytes: 10 })
            .collect(),
    }
}

#[test]
fn observation_counts_hours_and_public_destinations() {
    let v = vec![
        sample_at(NOW + 8 * 3600, 100, vec![(IpAddr::V4(8, 8, 8, 8), None), (IpAddr::V4(10, 0, 0, 1), None)]),
        sample_at(NOW + 8 * 3600 + 60, 300, vec![(IpAddr::V4(8, 8, 8, 8), None)]),
        sample_at(NOW + 86400 + 9 * 3600, 0, vec![(IpAddr::V4(1, 1, 1, 1), None)]),
    ];
    let obs = observe_profile(&v);
    assert_eq!(obs.observation_hours, 2);
    assert_eq!(obs.hourly.len(), 2);
    assert_eq!(obs.hourly[0].hour, 8);
    assert_eq!(obs.hourly[0].total_sent, 400);
    assert_eq!(obs.hourly[0].samples, 2);
    assert_eq!(obs.hourly[1].hour, 9);
    assert_eq!(obs.hourly[1].samples, 1);
    assert_eq!(obs.active_hours, vec![8]);
    let mut known = obs.known_destinations.clone();
    known.sort();
    assert_eq!(known, vec!["1.1.1.1".to_string(), "8.8.8.8".to_string()]);
}

#[test]
fn a_store_without_samples_gives_no_observation() {
    let store = Store::new();
    assert!(profile_observation(&store, "M", NOW).is_none());
}

// ---------------------------------------------------------------------------
// Detection
// ---------------------------------------------------------------------------

fn mature_profile() -> Option<DeviceProfile> {
    Some(DeviceProfile {
        mac: "M".into(),
        baseline_mean_bits: 0,
        baseline_stddev_bits: 0,
        known_destinations: vec!["8.8.8.8".into()],
        active_hours: vec![9],
        profile_built_at: NOW,
        observation_hours: 72,
    })
}

#[test]
fn findings_come_in_order() {
    let snap = DeviceSnapshot {
        mac: "M".into(),
        ip: IpAddr::V4(192, 168, 1, 2),
        bytes_sent: 800,
        bytes_recv: 201,
        destinations: vec![
            (IpAddr::V4(9, 9, 9, 9), 1),
            (IpAddr::V4(8, 8, 8, 8), 1),
            (IpAddr::V4(172, 16, 0, 1), 1),
            (IpAddr::V6(0x2001, 0xdb8, 0, 0, 0, 0, 0, 1), 1),
        ],
    };
    let f = detect_anomalies(&mature_profile(), &snap, NOW + 3 * 3600, true);
    assert_eq!(
        f,
        vec![
            Finding::ExcessiveUpload,
            Finding::NewDestination(IpAddr::V4(9, 9, 9, 9)),
            Finding::NewDestination(IpAddr::V6(0x2001, 0xdb8, 0, 0, 0, 0, 0, 1)),
            Finding::UnusualHour(3),
        ]
    );
    // exactly 1000 bytes is not unusual activity
    let quiet = DeviceSnapshot { bytes_sent: 800, bytes_recv: 200, destinations: vec![], ..snap.clone() };
    assert!(detect_anomalies(&mature_profile(), &quiet, NOW + 3 * 3600, false).is_empty());
    // inside the active hours nothing is unusual
    let f = detect_anomalies(&mature_profile(), &snap, NOW + 9 * 3600, false);
    assert_eq!(f.len(), 2);
}

#[test]
fn no_profile_no_findings() {
    let snap = DeviceSnapshot {
        mac: "M".into(),
        ip: IpAddr::V4(192, 168, 1, 2),
        bytes_sent: 1 << 40,
        bytes_recv: 0,
        destinations: vec![(IpAddr::V4(9, 9, 9, 9), 1)],
    };
    assert!(detect_anomalies(&None, &snap, NOW, true).is_empty());
}

#[test]
fn anomaly_details() {
    assert_eq!(new_destination_detail(&IpAddr::V4(185, 199, 108, 153)), "New destination: 185.199.108.153");
    assert_eq!(unusual_hour_detail(3), "Active at 3:00 — outside normal hours");
    assert_eq!(unusual_hour_detail(23), "Active at 23:00 — outside normal hours");
}

#[test]
fn recorded_findings_get_row_ids_in_order() {
    let mut store = Store::new();
    let findings = vec![Finding::ExcessiveUpload, Finding::UnusualHour(4)];
    let stored = record_findings(&mut store, "M", NOW, &findings, "big upload").unwrap();
    assert_eq!(stored.len(), 2);
    assert_eq!(stored[0].id, Some(1));
    assert_eq!(stored[0].detail, "big upload");
    assert_eq!(stored[1].id, Some(2));
    assert_eq!(stored[1].kind, AnomalyKind::UnusualHour);
    assert_eq!(stored[1].detail, "Active at 4:00 — outside normal hours");
    assert_eq!(store.get_unresolved_anomalies().len(), 2);
}

// ---------------------------------------------------------------------------
// Weekly digest
// ---------------------------------------------------------------------------

#[test]
fn highlight_lines() {
    // 2025-01-01 15:00 UTC was a Wednesday
    assert_eq!(
        highlight_text(&AnomalyKind::ExcessiveUpload, "TV", NOW + 15 * 3600),
        "TV had excessive uploads on Wednesday at 3pm"
    );
    assert_eq!(
        highlight_text(&AnomalyKind::ExcessiveUpload, "TV", NOW + 86400 * 4 + 30 * 60),
        "TV had excessive uploads on Sunday at 12am"
    );
    assert_eq!(
        highlight_text(&AnomalyKind::ExcessiveUpload, "TV", NOW - 1),
        "TV had excessive uploads on Tuesday at 11pm"
    );
    assert_eq!(highlight_text(&AnomalyKind::NewDestination, "TV", NOW), "TV connected to a new server");
    assert_eq!(highlight_text(&AnomalyKind::UnusualHour, "TV", NOW), "TV was active at unusual hours");
    assert_eq!(highlight_text(&AnomalyKind::VoiceLeakSuspected, "TV", NOW), "TV may have leaked audio");
}

fn digest_store() -> Store {
    let mut store = Store::new();
    store.upsert_device(&Device {
        mac: "AA:00:00:00:00:01".into(),
        ip: IpAddr::V4(10, 0, 0, 1),
        vendor: None,
        label: Some("TV".into()),
        first_seen: NOW - 30 * 86400,
        last_seen: NOW,
    });
    store.upsert_device(&Device {
        mac: "AA:00:00:00:00:02".into(),
        ip: IpAddr::V4(10, 0, 0, 2),
        vendor: None,
        label: None,
        first_seen: NOW - 86400,
        last_seen: NOW - 10,
    });
    let mk = |mac: &str, ts: i64, sent: u64, dests: Vec<(&str, u64)>| TrafficSample {
        id: None,
        mac: mac.into(),
        timestamp: ts,
        bytes_sent: sent,
        bytes_recv: 0,
        top_destinations: dests
            .into_iter()
            .map(|(c, b)| Destination { ip: IpAddr::V4(1, 2, 3, 4), domain: None, country: Some(c.into()), bytes: b })
            .collect(),
    };
    store.insert_sample(&mk("AA:00:00:00:00:01", NOW - 3600, 500, vec![("US", 300), ("DE", 100)])).unwrap();
    store.insert_sample(&mk("AA:00:00:00:00:02", NOW - 7200, 900, vec![("DE", 250), ("FR", 10)])).unwrap();
    // older than a week: not read
    store.insert_sample(&mk("AA:00:00:00:00:01", NOW - 8 * 86400, 1 << 30, vec![("CN", 1 << 30)])).unwrap();
    for (k, kind) in [AnomalyKind::ExcessiveUpload, AnomalyKind::NewDestination].into_iter().enumerate() {
        store
            .insert_anomaly(&Anomaly {
                id: None,
                mac: "AA:00:00:00:00:01".into(),
                detected_at: NOW - 9 * 3600 - k as i64,
                kind,
                detail: String::new(),
                resolved: false,
            })
            .unwrap();
    }
    // older than a week: counted, but no highlight
    store
        .insert_anomaly(&Anomaly {
            id: None,
            mac: "AA:00:00:00:00:01".into(),
            detected_at: NOW - 30 * 86400,
            kind: AnomalyKind::UnusualHour,
            detail: String::new(),
            resolved: false,
        })
        .unwrap();
    store
}

#[test]
fn weekly_digest_summarises_the_week() {
    let store = digest_store();
    let d = generate_weekly_digest(&store, NOW).unwrap();
    assert_eq!(d.period_start, NOW - 7 * 86400);
    assert_eq!(d.period_end, NOW);
    assert_eq!(d.total_anomalies, 3);
    assert_eq!(d.most_active_device, Some("AA:00:00:00:00:02".to_string()));
    assert_eq!(
        d.top_destinations_by_country,
        vec![("DE".to_string(), 350), ("US".to_string(), 300), ("FR".to_string(), 10)]
    );
    assert_eq!(d.new_devices_seen.len(), 1);
    assert_eq!(d.new_devices_seen[0].mac, "AA:00:00:00:00:02");
    assert_eq!(
        d.highlights,
        vec![
            "TV had excessive uploads on Tuesday at 3pm".to_string(),
            "TV connected to a new server".to_string(),
        ]
    );
}

#[test]
fn weekly_digest_of_an_empty_store() {
    let store = Store::new();
    let d = generate_weekly_digest(&store, NOW).unwrap();
    assert_eq!(d.total_anomalies, 0);
    assert!(d.most_active_device.is_none());
    assert!(d.top_destinations_by_country.is_empty());
    assert!(d.highlights.is_empty());
}

#[test]
fn weekly_digest_country_overflow_is_an_error() {
    let mut store = Store::new();
    for _ in 0..2 {
        store
            .insert_sample(&TrafficSample {
                id: None,
                mac: "M".into(),
                timestamp: NOW - 60,
                bytes_sent: 1,
                bytes_recv: 0,
                top_destinations: vec![Destination {
                    ip: IpAddr::V4(1, 1, 1, 1),
                    domain: None,
                    country: Some("US".into()),
                    bytes: u64::MAX,
                }],
            })
            .unwrap();
    }
    assert_eq!(generate_weekly_digest(&store, NOW).err(), Some(StoreError::IntegerOverflow));
}

#[test]
fn digest_highlights_resolved_anomalies_of_the_week_too() {
    let mut store = Store::new();
    let id = store
        .insert_anomaly(&Anomaly {
            id: None,
            mac: "M".into(),
            detected_at: NOW - 3600,
            kind: AnomalyKind::VoiceLeakSuspected,
            detail: String::new(),
            resolved: false,
        })
        .unwrap();
    store.resolve_anomaly(id);
    let d = generate_weekly_digest(&store, NOW).unwrap();
    assert_eq!(d.total_anomalies, 0);
    assert_eq!(d.highlights, vec!["M may have leaked audio".to_string()]);
}
