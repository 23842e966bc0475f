use hearth::net::IpAddr;
use hearth::rules::{
    device_blocked, is_note, is_within_block_hours, within_window, ActionKind, RuleAction, RulesEngine,
    UploadVerdict,
};
use hearth::types::{Config, DeviceConfig};

/// 2025-01-01T00:00:00Z
const MIDNIGHT: i64 = 1_735_689_600;

fn empty_config() -> Config {
    Config {
        interface: "eth0".into(),
        dashboard_port: 7777,
        db_path: ":memory:".into(),
        oui_db_path: "".into(),
        geoip_db_path: "".into(),
        devices: vec![],
    }
}

#[test]
fn test_block_hours_overnight() {
    // 23:00 — 06:00 blocks at half past midnight
    let midnight_utc = MIDNIGHT + 30 * 60;
    assert!(is_within_block_hours("23:00", "06:00", midnight_utc));
}

#[test]
fn test_block_hours_daytime() {
    let noon_utc = MIDNIGHT + 12 * 3600;
    assert!(!is_within_block_hours("23:00", "06:00", noon_utc));
}

#[test]
fn test_generate_block_command() {
    let engine = RulesEngine::new(empty_config());

    let actions = vec![RuleAction {
        mac: "AA:BB:CC:DD:EE:FF".into(),
        action: ActionKind::BlockOutbound { destination: None },
        reason: "Test".into(),
        expires_at: None,
    }];

    let cmds = engine.generate_commands(&actions);
    assert_eq!(cmds.len(), 2);
    assert!(cmds[0].contains("flush"));
    assert!(cmds[1].contains("AA:BB:CC:DD:EE:FF"));
    assert!(cmds[1].contains("drop"));
}

// ---------------------------------------------------------------------------
// Block hours
// ---------------------------------------------------------------------------

#[test]
fn same_day_block_hours() {
    assert!(is_within_block_hours("09:00", "17:00", MIDNIGHT + 9 * 3600));
    assert!(is_within_block_hours("09:00", "17:00", MIDNIGHT + 17 * 3600 - 1));
    assert!(!is_within_block_hours("09:00", "17:00", MIDNIGHT + 17 * 3600));
    assert!(!is_within_block_hours("09:00", "17:00", MIDNIGHT + 9 * 3600 - 1));
    // an empty range blocks nothing
    assert!(!is_within_block_hours("09:00", "09:00", MIDNIGHT + 9 * 3600));
}

#[test]
fn overnight_block_hours_edges() {
    assert!(is_within_block_hours("23:00", "06:00", MIDNIGHT + 23 * 3600));
    assert!(is_within_block_hours("23:00", "06:00", MIDNIGHT + 6 * 3600 - 1));
    assert!(!is_within_block_hours("23:00", "06:00", MIDNIGHT + 6 * 3600));
    assert!(!is_within_block_hours("23:00", "06:00", MIDNIGHT + 23 * 3600 - 1));
    // before the epoch too
    assert!(is_within_block_hours("23:00", "06:00", -1));
}

#[test]
fn unparsable_block_hours_block_nothing() {
    assert!(!is_within_block_hours("25:00", "06:00", MIDNIGHT));
    assert!(!is_within_block_hours("23:00", "six", MIDNIGHT));
    assert!(!is_within_block_hours("", "06:00", MIDNIGHT));
}

#[test]
fn window_on_parsed_times() {
    assert!(within_window(Some((23, 0)), Some((6, 0)), MIDNIGHT + 60));
    assert!(!within_window(None, Some((6, 0)), MIDNIGHT + 60));
    assert!(within_window(Some((0, 1)), Some((0, 2)), MIDNIGHT + 90));
    assert!(!within_window(Some((0, 1)), Some((0, 2)), MIDNIGHT + 120));
}

#[test]
fn swapped_block_hours_complement() {
    for t in [0i64, 3600, 6 * 3600, 12 * 3600, 23 * 3600, 86399] {
        let a = is_within_block_hours("23:00", "06:00", MIDNIGHT + t);
        let b = is_within_block_hours("06:00", "23:00", MIDNIGHT + t);
        assert_ne!(a, b);
    }
}

// ---------------------------------------------------------------------------
// Commands
// ---------------------------------------------------------------------------

fn action(mac: &str, action: ActionKind) -> RuleAction {
    RuleAction { mac: mac.into(), action, reason: String::new(), expires_at: None }
}

#[test]
fn every_kind_of_command() {
    let engine = RulesEngine::new(empty_config());
    let actions = vec![
        action("M1", ActionKind::BlockOutbound { destination: None }),
        action("M2", ActionKind::BlockOutbound { destination: Some(IpAddr::V4(1, 2, 3, 4)) }),
        action("M3", ActionKind::RateLimit { max_bytes_per_second: 5000 }),
        action("M4", ActionKind::RateLimit { max_bytes_per_second: 100 }),
        action("M5", ActionKind::AllowOnly { domains: vec!["a.com".into()] }),
    ];
    let shown = engine.generate_commands(&actions);
    assert_eq!(
        shown,
        vec![
            "nft flush chain inet hearth forward".to_string(),
            "nft add rule inet hearth forward ether saddr M1 drop".to_string(),
            "nft add rule inet hearth forward ether saddr M2 ip daddr 1.2.3.4 drop".to_string(),
            "nft add rule inet hearth forward ether saddr M3 limit rate 4 kbytes/second accept".to_string(),
            "nft add rule inet hearth forward ether saddr M4 limit rate 0 kbytes/second accept".to_string(),
            "# allow-only for M5".to_string(),
        ]
    );
    let run = engine.apply_commands(&actions);
    assert_eq!(run.len(), 6);
    assert_eq!(run[0], "nft flush chain inet hearth forward");
    assert_eq!(run[4], "nft add rule inet hearth forward ether saddr M4 limit rate 1 kbytes/second accept");
    assert_eq!(run[5], "# Allow-only rule for M5 — requires DNS resolution");
    assert_eq!(engine.apply_commands(&[]), vec!["nft flush chain inet hearth forward".to_string()]);
    assert_eq!(engine.generate_commands(&[]), vec!["nft flush chain inet hearth forward".to_string()]);
}

#[test]
fn commands_run_are_the_flush_then_the_enforced_rules() {
    let engine = RulesEngine::new(empty_config());
    let actions = vec![
        action("M5", ActionKind::AllowOnly { domains: vec!["a.com".into()] }),
        action("M1", ActionKind::BlockOutbound { destination: None }),
        action("M3", ActionKind::RateLimit { max_bytes_per_second: 5000 }),
    ];
    assert_eq!(
        engine.commands_to_run(&actions),
        vec![
            "nft flush chain inet hearth forward".to_string(),
            "nft add rule inet hearth forward ether saddr M1 drop".to_string(),
            "nft add rule inet hearth forward ether saddr M3 limit rate 4 kbytes/second accept".to_string(),
        ]
    );
    assert_eq!(engine.commands_to_run(&[]), vec!["nft flush chain inet hearth forward".to_string()]);
    let only_notes = vec![action("M5", ActionKind::AllowOnly { domains: vec![] })];
    assert_eq!(engine.commands_to_run(&only_notes), vec!["nft flush chain inet hearth forward".to_string()]);
}

// ---------------------------------------------------------------------------
// Evaluation
// ---------------------------------------------------------------------------

fn dev(mac: &str, limit: Option<f64>, hours: Option<[&str; 2]>, domains: Option<Vec<&str>>) -> DeviceConfig {
    DeviceConfig {
        mac: mac.into(),
        label: mac.into(),
        max_upload_per_hour_mb_bits: limit.map(|x| x.to_bits()),
        block_hours: hours.map(|[a, b]| [a.to_string(), b.to_string()]),
        allow_domains: domains.map(|d| d.into_iter().map(|s| s.to_string()).collect()),
    }
}

#[test]
fn evaluate_device_by_device() {
    let mut cfg = empty_config();
    cfg.devices = vec![
        dev("M1", Some(1.0), Some(["23:00", "06:00"]), Some(vec!["a.com"])),
        dev("M2", Some(1.0), None, Some(vec!["a.com", "b.org"])),
        dev("M3", None, Some(["09:00", "17:00"]), Some(vec![])),
    ];
    let engine = RulesEngine::new(cfg);
    let now = MIDNIGHT + 3600;
    assert!(!engine.needs_upload_check(0, now));
    assert!(engine.needs_upload_check(1, now));
    assert!(!engine.needs_upload_check(2, now));
    assert!(!engine.needs_upload_check(7, now));
    let verdicts = vec![
        None,
        Some(UploadVerdict { max_bytes_per_second: 291, reason: "Upload limit exceeded".into() }),
        Some(UploadVerdict { max_bytes_per_second: 1, reason: "ignored: no limit configured".into() }),
    ];
    let actions = engine.evaluate(now, &verdicts);
    assert_eq!(actions.len(), 3);
    assert_eq!(actions[0].mac, "M1");
    assert!(matches!(actions[0].action, ActionKind::BlockOutbound { destination: None }));
    assert_eq!(actions[0].reason, "Blocked during hours 23:00 — 06:00");
    assert_eq!(actions[1].mac, "M2");
    assert!(matches!(actions[1].action, ActionKind::RateLimit { max_bytes_per_second: 291 }));
    assert_eq!(actions[1].reason, "Upload limit exceeded");
    assert_eq!(actions[2].mac, "M2");
    match &actions[2].action {
        ActionKind::AllowOnly { domains } => assert_eq!(domains, &vec!["a.com".to_string(), "b.org".to_string()]),
        _ => panic!("expected an allow-only rule"),
    }
    assert_eq!(actions[2].reason, "Only allowed: a.com, b.org");
    assert!(device_blocked(&engine.config().devices[0], now));
    assert!(!device_blocked(&engine.config().devices[2], now));
}

#[test]
fn evaluate_without_rules_gives_nothing() {
    let mut cfg = empty_config();
    cfg.devices = vec![dev("M1", None, None, None)];
    let engine = RulesEngine::new(cfg);
    assert!(engine.evaluate(MIDNIGHT, &[]).is_empty());
}

#[test]
fn notes_are_not_commands() {
    assert!(is_note("# allow-only for M5"));
    assert!(!is_note("nft flush chain inet hearth forward"));
    assert!(!is_note(""));
}
