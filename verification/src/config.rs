//! The configuration used when no file gives one.
use vstd::prelude::*;
use crate::types::{
    default_dashboard_port, default_db_path, default_geoip_db_path, default_oui_db_path, Config,
    DeviceConfig,
};

verus! {

/// What the capture layer reports of a network interface.
pub struct InterfaceInfo {
    pub name: String,
    pub is_up: bool,
    pub is_loopback: bool,
    /// Whether the interface has at least one IP address
    pub has_ips: bool,
}

/// Whether an interface can carry the monitored traffic: it is up, not the
/// loopback, and has an address.
pub open spec fn is_candidate(i: InterfaceInfo) -> bool {
    i.is_up && !i.is_loopback && i.has_ips
}

/// The interface to capture on: the first candidate among the system's
/// interfaces, else "Ethernet" on Windows and "eth0" elsewhere.
pub fn detect_default_interface(ifaces: &Vec<InterfaceInfo>, windows: bool) -> (r: String)
    ensures
        (exists|k: int| 0 <= k < ifaces@.len() && is_candidate(#[trigger] ifaces@[k])) ==> exists|
            k: int,
        |
            0 <= k < ifaces@.len() && is_candidate(ifaces@[k]) && r@ == ifaces@[k].name@ && forall|
                j: int,
            | 0 <= j < k ==> !is_candidate(#[trigger] ifaces@[j]),
        !(exists|k: int| 0 <= k < ifaces@.len() && is_candidate(#[trigger] ifaces@[k])) ==> r@
            == if windows {
            "Ethernet"@
        } else {
            "eth0"@
        },
{
    let mut i: usize = 0;
    while i < ifaces.len()
        invariant
            i <= ifaces.len(),
            forall|j: int| 0 <= j < i ==> !is_candidate(#[trigger] ifaces@[j]),
        decreases ifaces.len() - i,
    {
        let f = &ifaces[i];
        if f.is_up && !f.is_loopback && f.has_ips {
            assert(is_candidate(ifaces@[i as int]));
            return f.name.clone();
        }
        i = i + 1;
    }
    if windows {
        String::from_str("Ethernet")
    } else {
        String::from_str("eth0")
    }
}

/// The default configuration on the given interface: the dashboard on port
/// 7777, the data files beside the program on Windows and under
/// /var/lib/hearth elsewhere, and no device rules.
pub fn default_config(interface: String, windows: bool) -> (r: Config)
    ensures
        r.interface@ == interface@,
        r.dashboard_port == 7777,
        r.db_path@ == if windows {
            "./hearth.db"@
        } else {
            "/var/lib/hearth/hearth.db"@
        },
        r.oui_db_path@ == if windows {
            "./oui.csv"@
        } else {
            "/var/lib/hearth/oui.csv"@
        },
        r.geoip_db_path@ == if windows {
            "./GeoLite2-Country.mmdb"@
        } else {
            "/var/lib/hearth/GeoLite2-Country.mmdb"@
        },
        r.devices@.len() == 0,
{
    Config {
        interface,
        dashboard_port: default_dashboard_port(),
        db_path: default_db_path(windows),
        oui_db_path: default_oui_db_path(windows),
        geoip_db_path: default_geoip_db_path(windows),
        devices: Vec::<DeviceConfig>::new(),
    }
}

} // verus!
