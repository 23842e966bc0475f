//! The data that flows between capture, store, stats, rules and dashboard.
//!
//! Times are Unix timestamps in seconds (UTC). Where a value is a
//! floating-point number in the wider program (a profile's baseline, an
//! upload limit in MB), the library carries its IEEE-754 bit pattern and
//! never computes with it.
use vstd::prelude::*;
use crate::net::IpAddr;
use crate::text::{chars_of, chars_eq, clone_opt_string, opt_text};

verus! {

// ---------------------------------------------------------------------------
// Anomaly kinds
// ---------------------------------------------------------------------------

/// Types of anomalies the stats engine can detect.
#[derive(Clone, Copy, Debug, PartialEq, Eq, Structural, Hash)]
pub enum AnomalyKind {
    /// bytes_sent more than three standard deviations above the baseline
    ExcessiveUpload,
    /// a public IP never seen before for this device
    NewDestination,
    /// traffic outside the device's normal active hours
    UnusualHour,
    /// the voice gate saw an upload without a wake word
    VoiceLeakSuspected,
}

/// The name under which a kind is written and read back.
pub open spec fn kind_name(k: AnomalyKind) -> Seq<char> {
    match k {
        AnomalyKind::ExcessiveUpload => "ExcessiveUpload"@,
        AnomalyKind::NewDestination => "NewDestination"@,
        AnomalyKind::UnusualHour => "UnusualHour"@,
        AnomalyKind::VoiceLeakSuspected => "VoiceLeakSuspected"@,
    }
}

/// The kind whose name is `t`, if any.
pub open spec fn parse_kind(t: Seq<char>) -> Option<AnomalyKind> {
    if t == kind_name(AnomalyKind::ExcessiveUpload) {
        Some(AnomalyKind::ExcessiveUpload)
    } else if t == kind_name(AnomalyKind::NewDestination) {
        Some(AnomalyKind::NewDestination)
    } else if t == kind_name(AnomalyKind::UnusualHour) {
        Some(AnomalyKind::UnusualHour)
    } else if t == kind_name(AnomalyKind::VoiceLeakSuspected) {
        Some(AnomalyKind::VoiceLeakSuspected)
    } else {
        None
    }
}

/// A text that names no anomaly kind.
#[derive(Clone, Debug)]
pub struct UnknownAnomalyKind {
    /// The text that was read.
    pub text: String,
}

impl UnknownAnomalyKind {
    /// The error message: `Unknown AnomalyKind: <text>`.
    pub fn message(&self) -> (m: String)
        ensures
            m@ == "Unknown AnomalyKind: "@ + self.text@,
    {
        let mut m = String::from_str("Unknown AnomalyKind: ");
        m.append(self.text.as_str());
        m
    }
}

impl AnomalyKind {
    /// The kind's name, e.g. `"NewDestination"`.
    pub fn to_string(&self) -> (s: String)
        ensures
            s@ == kind_name(*self),
    {
        match self {
            AnomalyKind::ExcessiveUpload => String::from_str("ExcessiveUpload"),
            AnomalyKind::NewDestination => String::from_str("NewDestination"),
            AnomalyKind::UnusualHour => String::from_str("UnusualHour"),
            AnomalyKind::VoiceLeakSuspected => String::from_str("VoiceLeakSuspected"),
        }
    }

    /// Reads a kind from its name; any other text is refused.
    pub fn from_str(s: &str) -> (r: Result<AnomalyKind, UnknownAnomalyKind>)
        ensures
            match r {
                Ok(k) => parse_kind(s@) == Some(k),
                Err(e) => parse_kind(s@) is None && e.text@ == s@,
            },
    {
        let t = chars_of(s);
        let a = chars_of("ExcessiveUpload");
        let b = chars_of("NewDestination");
        let c = chars_of("UnusualHour");
        let d = chars_of("VoiceLeakSuspected");
        if chars_eq(&t, &a) {
            Ok(AnomalyKind::ExcessiveUpload)
        } else if chars_eq(&t, &b) {
            Ok(AnomalyKind::NewDestination)
        } else if chars_eq(&t, &c) {
            Ok(AnomalyKind::UnusualHour)
        } else if chars_eq(&t, &d) {
            Ok(AnomalyKind::VoiceLeakSuspected)
        } else {
            Err(UnknownAnomalyKind { text: String::from_str(s) })
        }
    }
}

/// Reading back the name of a kind gives that kind, and a name read as a
/// kind is that kind's name: `from_str(k.to_string()) == Ok(k)`.
pub proof fn kind_name_round_trip(k: AnomalyKind, t: Seq<char>)
    ensures
        parse_kind(kind_name(k)) == Some(k),
        parse_kind(t) == Some(k) ==> t == kind_name(k),
{
    reveal_strlit("ExcessiveUpload");
    reveal_strlit("NewDestination");
    reveal_strlit("UnusualHour");
    reveal_strlit("VoiceLeakSuspected");
    assert(kind_name(AnomalyKind::ExcessiveUpload)[0] == 'E');
    assert(kind_name(AnomalyKind::NewDestination)[0] == 'N');
    assert(kind_name(AnomalyKind::UnusualHour)[0] == 'U');
    assert(kind_name(AnomalyKind::VoiceLeakSuspected)[0] == 'V');
}

// ---------------------------------------------------------------------------
// Devices, destinations, samples
// ---------------------------------------------------------------------------

/// A discovered device on the local network.
#[derive(Clone, Debug)]
pub struct Device {
    /// MAC address in "AA:BB:CC:DD:EE:FF" format
    pub mac: String,
    /// IP address observed for this device
    pub ip: IpAddr,
    /// Vendor name from OUI lookup
    pub vendor: Option<String>,
    /// User-assigned friendly name
    pub label: Option<String>,
    /// When this device was first observed
    pub first_seen: i64,
    /// When this device was last observed
    pub last_seen: i64,
}

/// The value of a [`Device`].
pub struct DeviceView {
    pub mac: Seq<char>,
    pub ip: IpAddr,
    pub vendor: Option<Seq<char>>,
    pub label: Option<Seq<char>>,
    pub first_seen: i64,
    pub last_seen: i64,
}

impl View for Device {
    type V = DeviceView;

    open spec fn view(&self) -> DeviceView {
        DeviceView {
            mac: self.mac@,
            ip: self.ip,
            vendor: opt_text(self.vendor),
            label: opt_text(self.label),
            first_seen: self.first_seen,
            last_seen: self.last_seen,
        }
    }
}

impl Device {
    /// A copy of this device.
    pub fn duplicate(&self) -> (r: Device)
        ensures
            r@ == self@,
    {
        Device {
            mac: self.mac.clone(),
            ip: self.ip,
            vendor: clone_opt_string(&self.vendor),
            label: clone_opt_string(&self.label),
            first_seen: self.first_seen,
            last_seen: self.last_seen,
        }
    }
}

/// A destination observed in traffic.
#[derive(Clone, Debug)]
pub struct Destination {
    /// Destination IP address
    pub ip: IpAddr,
    /// Domain name from reverse DNS
    pub domain: Option<String>,
    /// Country code from GeoIP lookup (e.g. "US")
    pub country: Option<String>,
    /// Bytes sent to this destination
    pub bytes: u64,
}

/// The value of a [`Destination`].
pub struct DestinationView {
    pub ip: IpAddr,
    pub domain: Option<Seq<char>>,
    pub country: Option<Seq<char>>,
    pub bytes: u64,
}

impl View for Destination {
    type V = DestinationView;

    open spec fn view(&self) -> DestinationView {
        DestinationView {
            ip: self.ip,
            domain: opt_text(self.domain),
            country: opt_text(self.country),
            bytes: self.bytes,
        }
    }
}

impl Destination {
    /// A copy of this destination.
    pub fn duplicate(&self) -> (r: Destination)
        ensures
            r@ == self@,
    {
        Destination {
            ip: self.ip,
            domain: clone_opt_string(&self.domain),
            country: clone_opt_string(&self.country),
            bytes: self.bytes,
        }
    }
}

/// The values of a list of destinations.
pub open spec fn destinations_view(v: Seq<Destination>) -> Seq<DestinationView> {
    v.map_values(|d: Destination| d@)
}

/// A copy of a list of destinations.
pub fn duplicate_destinations(v: &Vec<Destination>) -> (r: Vec<Destination>)
    ensures
        destinations_view(r@) == destinations_view(v@),
{
    let mut r: Vec<Destination> = Vec::new();
    let mut i: usize = 0;
    while i < v.len()
        invariant
            i <= v.len(),
            r@.len() == i,
            forall|j: int| 0 <= j < i ==> #[trigger] r@[j]@ == v@[j]@,
        decreases v.len() - i,
    {
        r.push(v[i].duplicate());
        i = i + 1;
    }
    assert(destinations_view(r@) =~= destinations_view(v@));
    r
}

/// One traffic observation of one device.
#[derive(Clone, Debug)]
pub struct TrafficSample {
    /// Row id in the store (None for new records)
    pub id: Option<i64>,
    /// MAC address of the device
    pub mac: String,
    /// Time of the sample
    pub timestamp: i64,
    /// Bytes sent by the device in the window
    pub bytes_sent: u64,
    /// Bytes received by the device in the window
    pub bytes_recv: u64,
    /// Top destinations by bytes
    pub top_destinations: Vec<Destination>,
}

/// The value of a [`TrafficSample`].
pub struct SampleView {
    pub id: Option<i64>,
    pub mac: Seq<char>,
    pub timestamp: i64,
    pub bytes_sent: u64,
    pub bytes_recv: u64,
    pub top_destinations: Seq<DestinationView>,
}

impl View for TrafficSample {
    type V = SampleView;

    open spec fn view(&self) -> SampleView {
        SampleView {
            id: self.id,
            mac: self.mac@,
            timestamp: self.timestamp,
            bytes_sent: self.bytes_sent,
            bytes_recv: self.bytes_recv,
            top_destinations: destinations_view(self.top_destinations@),
        }
    }
}

impl TrafficSample {
    /// A copy of this sample.
    pub fn duplicate(&self) -> (r: TrafficSample)
        ensures
            r@ == self@,
    {
        TrafficSample {
            id: self.id,
            mac: self.mac.clone(),
            timestamp: self.timestamp,
            bytes_sent: self.bytes_sent,
            bytes_recv: self.bytes_recv,
            top_destinations: duplicate_destinations(&self.top_destinations),
        }
    }
}

/// An anomaly flag produced by the stats engine.
#[derive(Clone, Debug)]
pub struct Anomaly {
    /// Row id in the store (None for new records)
    pub id: Option<i64>,
    /// MAC address of the device
    pub mac: String,
    /// When the anomaly was detected
    pub detected_at: i64,
    /// Type of anomaly
    pub kind: AnomalyKind,
    /// Human-readable explanation
    pub detail: String,
    /// Whether the anomaly has been acknowledged
    pub resolved: bool,
}

/// The value of an [`Anomaly`].
pub struct AnomalyView {
    pub id: Option<i64>,
    pub mac: Seq<char>,
    pub detected_at: i64,
    pub kind: AnomalyKind,
    pub detail: Seq<char>,
    pub resolved: bool,
}

impl View for Anomaly {
    type V = AnomalyView;

    open spec fn view(&self) -> AnomalyView {
        AnomalyView {
            id: self.id,
            mac: self.mac@,
            detected_at: self.detected_at,
            kind: self.kind,
            detail: self.detail@,
            resolved: self.resolved,
        }
    }
}

impl Anomaly {
    /// A copy of this anomaly.
    pub fn duplicate(&self) -> (r: Anomaly)
        ensures
            r@ == self@,
    {
        Anomaly {
            id: self.id,
            mac: self.mac.clone(),
            detected_at: self.detected_at,
            kind: self.kind,
            detail: self.detail.clone(),
            resolved: self.resolved,
        }
    }
}

/// A device profile, built from the device's recent samples.
#[derive(Clone, Debug)]
pub struct DeviceProfile {
    /// MAC address
    pub mac: String,
    /// Bit pattern of the f64 mean of bytes sent per hour
    pub baseline_mean_bits: u64,
    /// Bit pattern of the f64 standard deviation of bytes sent per hour
    pub baseline_stddev_bits: u64,
    /// Known destination IPs, as text
    pub known_destinations: Vec<String>,
    /// Hours (0-23) when the device is normally active
    pub active_hours: Vec<u8>,
    /// When this profile was built
    pub profile_built_at: i64,
    /// Hours of observation; 72 or more makes the profile mature
    pub observation_hours: u32,
}

/// The value of a [`DeviceProfile`].
pub struct ProfileView {
    pub mac: Seq<char>,
    pub baseline_mean_bits: u64,
    pub baseline_stddev_bits: u64,
    pub known_destinations: Seq<Seq<char>>,
    pub active_hours: Seq<u8>,
    pub profile_built_at: i64,
    pub observation_hours: u32,
}

/// The texts of a list of strings.
pub open spec fn texts(v: Seq<String>) -> Seq<Seq<char>> {
    v.map_values(|s: String| s@)
}

/// A copy of a list of strings.
pub fn duplicate_strings(v: &Vec<String>) -> (r: Vec<String>)
    ensures
        texts(r@) == texts(v@),
{
    let mut r: Vec<String> = Vec::new();
    let mut i: usize = 0;
    while i < v.len()
        invariant
            i <= v.len(),
            r@.len() == i,
            forall|j: int| 0 <= j < i ==> #[trigger] r@[j]@ == v@[j]@,
        decreases v.len() - i,
    {
        r.push(v[i].clone());
        i = i + 1;
    }
    assert(texts(r@) =~= texts(v@));
    r
}

/// A copy of a list of bytes.
pub fn duplicate_bytes(v: &Vec<u8>) -> (r: Vec<u8>)
    ensures
        r@ == v@,
{
    let mut r: Vec<u8> = Vec::new();
    let mut i: usize = 0;
    while i < v.len()
        invariant
            i <= v.len(),
            r@ == v@.subrange(0, i as int),
        decreases v.len() - i,
    {
        r.push(v[i]);
        i = i + 1;
    }
    assert(r@ =~= v@);
    r
}

impl View for DeviceProfile {
    type V = ProfileView;

    open spec fn view(&self) -> ProfileView {
        ProfileView {
            mac: self.mac@,
            baseline_mean_bits: self.baseline_mean_bits,
            baseline_stddev_bits: self.baseline_stddev_bits,
            known_destinations: texts(self.known_destinations@),
            active_hours: self.active_hours@,
            profile_built_at: self.profile_built_at,
            observation_hours: self.observation_hours,
        }
    }
}

impl DeviceProfile {
    /// A copy of this profile.
    pub fn duplicate(&self) -> (r: DeviceProfile)
        ensures
            r@ == self@,
    {
        DeviceProfile {
            mac: self.mac.clone(),
            baseline_mean_bits: self.baseline_mean_bits,
            baseline_stddev_bits: self.baseline_stddev_bits,
            known_destinations: duplicate_strings(&self.known_destinations),
            active_hours: duplicate_bytes(&self.active_hours),
            profile_built_at: self.profile_built_at,
            observation_hours: self.observation_hours,
        }
    }
}

// ---------------------------------------------------------------------------
// Configuration
// ---------------------------------------------------------------------------

/// Per-device configuration.
#[derive(Clone, Debug)]
pub struct DeviceConfig {
    /// MAC address of the device
    pub mac: String,
    /// Friendly label for the device
    pub label: String,
    /// Bit pattern of the optional f64 upload limit in MB per hour
    pub max_upload_per_hour_mb_bits: Option<u64>,
    /// Optional block hours range, e.g. ["23:00", "06:00"]
    pub block_hours: Option<[String; 2]>,
    /// Optional list of allowed domains
    pub allow_domains: Option<Vec<String>>,
}

/// Runtime configuration.
#[derive(Clone, Debug)]
pub struct Config {
    /// Network interface to capture on
    pub interface: String,
    /// Port of the web dashboard
    pub dashboard_port: u16,
    /// Path of the database file
    pub db_path: String,
    /// Path of the OUI CSV database
    pub oui_db_path: String,
    /// Path of the GeoLite2 country database
    pub geoip_db_path: String,
    /// Per-device configuration
    pub devices: Vec<DeviceConfig>,
}

/// The dashboard port when the configuration names none.
pub fn default_dashboard_port() -> (r: u16)
    ensures
        r == 7777,
{
    7777
}

/// The database path when the configuration names none: beside the
/// program on Windows, under /var/lib/hearth elsewhere.
pub fn default_db_path(windows: bool) -> (r: String)
    ensures
        r@ == if windows {
            "./hearth.db"@
        } else {
            "/var/lib/hearth/hearth.db"@
        },
{
    if windows {
        String::from_str("./hearth.db")
    } else {
        String::from_str("/var/lib/hearth/hearth.db")
    }
}

/// The OUI database path when the configuration names none: beside the
/// program on Windows, under /var/lib/hearth elsewhere.
pub fn default_oui_db_path(windows: bool) -> (r: String)
    ensures
        r@ == if windows {
            "./oui.csv"@
        } else {
            "/var/lib/hearth/oui.csv"@
        },
{
    if windows {
        String::from_str("./oui.csv")
    } else {
        String::from_str("/var/lib/hearth/oui.csv")
    }
}

/// The GeoIP database path when the configuration names none: beside the
/// program on Windows, under /var/lib/hearth elsewhere.
pub fn default_geoip_db_path(windows: bool) -> (r: String)
    ensures
        r@ == if windows {
            "./GeoLite2-Country.mmdb"@
        } else {
            "/var/lib/hearth/GeoLite2-Country.mmdb"@
        },
{
    if windows {
        String::from_str("./GeoLite2-Country.mmdb")
    } else {
        String::from_str("/var/lib/hearth/GeoLite2-Country.mmdb")
    }
}

} // verus!
