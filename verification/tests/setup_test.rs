use hearth::capture::DeviceSnapshot;
use hearth::config::{default_config, detect_default_interface, InterfaceInfo};
use hearth::monitor::{apply_config_labels, enrich_destinations, host_name_of, ingest_snapshot};
use hearth::net::IpAddr;
use hearth::oui::OuiDb;
use hearth::store::Store;
use hearth::types::{
    default_dashboard_port, default_db_path, default_geoip_db_path, default_oui_db_path,
    DeviceConfig,
};

/// 2025-01-01T00:00:00Z
const NOW: i64 = 1_735_689_600;

fn iface(name: &str, up: bool, lo: bool, ips: bool) -> InterfaceInfo {
    InterfaceInfo { name: name.into(), is_up: up, is_loopback: lo, has_ips: ips }
}

#[test]
fn the_first_usable_interface_is_chosen() {
    let v = vec![iface("lo", true, true, true), iface("eth1", false, false, true), iface("wlan0", true, false, true), iface("eth2", true, false, true)];
    assert_eq!(detect_default_interface(&v, false), "wlan0");
    assert_eq!(detect_default_interface(&vec![iface("lo", true, true, true)], false), "eth0");
    assert_eq!(detect_default_interface(&vec![iface("lo", true, true, true)], true), "Ethernet");
    assert_eq!(detect_default_interface(&vec![], false), "eth0");
}

#[test]
fn default_configuration() {
    let c = default_config("wlan0".to_string(), false);
    assert_eq!(c.interface, "wlan0");
    assert_eq!(c.dashboard_port, 7777);
    assert_eq!(c.db_path, "/var/lib/hearth/hearth.db");
    assert_eq!(c.oui_db_path, "/var/lib/hearth/oui.csv");
    assert_eq!(c.geoip_db_path, "/var/lib/hearth/GeoLite2-Country.mmdb");
    assert!(c.devices.is_empty());
    assert_eq!(default_dashboard_port(), 7777);
    assert_eq!(default_db_path(false), "/var/lib/hearth/hearth.db");
    assert_eq!(default_oui_db_path(false), "/var/lib/hearth/oui.csv");
    assert_eq!(default_geoip_db_path(false), "/var/lib/hearth/GeoLite2-Country.mmdb");
    let w = default_config("Ethernet".to_string(), true);
    assert_eq!(w.db_path, "./hearth.db");
    assert_eq!(w.oui_db_path, "./oui.csv");
    assert_eq!(w.geoip_db_path, "./GeoLite2-Country.mmdb");
    assert_eq!(default_db_path(true), "./hearth.db");
}

#[test]
fn oui_table_from_csv() {
    let csv = "Assignment,Organization Name\naa-bb-cc,  Acme Corp \n001122,Foo\nAABBCC,Later Acme\nxy,Short\n3344,\n";
    let db = OuiDb::load(csv).unwrap();
    assert_eq!(db.lookup("aa:bb:cc:00:11:22"), Some("Later Acme".to_string()));
    assert_eq!(db.lookup("00-11-22-33-44-55"), Some("Foo".to_string()));
    assert_eq!(db.lookup("33:44:00:00:00:00"), None);
    assert_eq!(OuiDb::empty().lookup("AA:BB:CC:00:00:00"), None);
}

#[test]
fn oui_prefix_cut_inside_a_character_is_refused() {
    assert!(OuiDb::load("h,v\nAAAAAé,Vendor\n").is_none());
    assert!(OuiDb::load("h,v\nAAAAAAé,Vendor\n").is_some());
}

#[test]
fn host_names_from_reverse_lookups() {
    let ip = IpAddr::V4(8, 8, 8, 8);
    assert_eq!(host_name_of(&ip, Some("dns.google".into())), Some("dns.google".to_string()));
    assert_eq!(host_name_of(&ip, Some("8.8.8.8".into())), None);
    assert_eq!(host_name_of(&ip, None), None);
}

fn snapshot() -> DeviceSnapshot {
    DeviceSnapshot {
        mac: "AA:BB:CC:00:00:01".into(),
        ip: IpAddr::V4(192, 168, 1, 7),
        bytes_sent: 10,
        bytes_recv: 20,
        destinations: vec![(IpAddr::V4(8, 8, 8, 8), 5), (IpAddr::V4(1, 1, 1, 1), 3)],
    }
}

#[test]
fn snapshots_are_recorded() {
    let mut store = Store::new();
    let oui = OuiDb::load("h,v\nAABBCC,Acme\n").unwrap();
    let countries = vec![Some("US".to_string()), Some("AU".to_string())];
    let reverse = vec![Some("dns.google".to_string())];
    let d = enrich_destinations(&snapshot(), &countries, &reverse);
    assert_eq!(d.len(), 2);
    assert_eq!(d[0].domain, Some("dns.google".to_string()));
    assert_eq!(d[0].country, Some("US".to_string()));
    assert_eq!(d[1].domain, None);
    assert_eq!(d[1].country, Some("AU".to_string()));
    assert_eq!(d[1].bytes, 3);
    ingest_snapshot(&mut store, &snapshot(), &oui, &countries, &reverse, NOW).unwrap();
    let devs = store.get_all_devices();
    assert_eq!(devs.len(), 1);
    assert_eq!(devs[0].vendor, Some("Acme".to_string()));
    assert_eq!(devs[0].label, None);
    let samples = store.get_recent_samples(1, NOW + 1);
    assert_eq!(samples.len(), 1);
    assert_eq!(samples[0].bytes_recv, 20);
    assert_eq!(samples[0].top_destinations.len(), 2);
    assert_eq!(samples[0].top_destinations[1].country, Some("AU".to_string()));
}

#[test]
fn destinations_without_lookups_have_no_country_or_host() {
    let d = enrich_destinations(&snapshot(), &vec![], &vec![]);
    assert_eq!(d.len(), 2);
    assert_eq!(d[0].country, None);
    assert_eq!(d[0].domain, None);
    assert_eq!(d[0].bytes, 5);
}

#[test]
fn configured_labels_are_applied_to_known_devices() {
    let mut store = Store::new();
    ingest_snapshot(&mut store, &snapshot(), &OuiDb::empty(), &vec![], &vec![], NOW).unwrap();
    let cfg = vec![
        DeviceConfig {
            mac: "AA:BB:CC:00:00:01".into(),
            label: "Kitchen".into(),
            max_upload_per_hour_mb_bits: None,
            block_hours: None,
            allow_domains: None,
        },
        DeviceConfig {
            mac: "FF:FF:FF:00:00:09".into(),
            label: "Absent".into(),
            max_upload_per_hour_mb_bits: None,
            block_hours: None,
            allow_domains: None,
        },
    ];
    let before = store.get_device("AA:BB:CC:00:00:01").unwrap();
    apply_config_labels(&mut store, &cfg);
    let devs = store.get_all_devices();
    assert_eq!(devs.len(), 1);
    assert_eq!(devs[0].label, Some("Kitchen".to_string()));
    assert_eq!(devs[0].first_seen, NOW);
    assert_eq!(devs[0].last_seen, before.last_seen);
    assert_eq!(devs[0].ip, before.ip);
    assert_eq!(devs[0].vendor, before.vendor);
    assert!(store.get_device("FF:FF:FF:00:00:09").is_none());
}

#[test]
fn the_last_configured_label_of_a_mac_wins() {
    let mut store = Store::new();
    ingest_snapshot(&mut store, &snapshot(), &OuiDb::empty(), &vec![], &vec![], NOW).unwrap();
    let entry = |label: &str| DeviceConfig {
        mac: "AA:BB:CC:00:00:01".into(),
        label: label.into(),
        max_upload_per_hour_mb_bits: None,
        block_hours: None,
        allow_domains: None,
    };
    apply_config_labels(&mut store, &vec![entry("First"), entry("Second")]);
    assert_eq!(store.get_device("AA:BB:CC:00:00:01").unwrap().label, Some("Second".to_string()));
}

#[test]
fn oui_lookup_ignores_case_and_separators() {
    let db = OuiDb::load("h,v\naabbcc,Acme\n0A-1B-2C,Beta\n").unwrap();
    assert_eq!(db.lookup("AA:BB:CC:01:02:03"), Some("Acme".to_string()));
    assert_eq!(db.lookup("aa:bb:cc:01:02:03"), Some("Acme".to_string()));
    assert_eq!(db.lookup("aa-bb-cc-01-02-03"), Some("Acme".to_string()));
    assert_eq!(db.lookup("0a:1b:2c:00:00:00"), Some("Beta".to_string()));
    assert_eq!(db.lookup("0A-1B-2C-00-00-00"), Some("Beta".to_string()));
    assert_eq!(db.lookup("0a:1b:2d:00:00:00"), None);
}

#[test]
fn oui_file_rows_header_short_empty_and_later_rows() {
    let csv = "Mac Prefix,Vendor Name\nAA:BB:CC,Acme Corp\n00-11-22, Foo Inc \nAABB,Short\nDDEEFF,\nAA:BB:CC,Acme Two\n";
    let db = OuiDb::load(csv).unwrap();
    assert_eq!(db.lookup("aa:bb:cc:01:02:03"), Some("Acme Two".to_string()));
    assert_eq!(db.lookup("00:11:22:33:44:55"), Some("Foo Inc".to_string()));
    assert_eq!(db.lookup("AA:BB"), None);
    assert_eq!(db.lookup("DD:EE:FF:00:00:00"), None);
    assert_eq!(db.lookup("Mac Prefix"), None);
}
