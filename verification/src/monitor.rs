//! What the daemon does with each window of traffic: record the devices and
//! their samples, enriched with vendors, countries and host names; and the
//! labels the configuration gives to devices.
use vstd::prelude::*;
use crate::capture::{DeviceSnapshot, SnapshotView};
use crate::net::{ip_text, ip_to_string, IpAddr};
use crate::oui::{mac_key, OuiDb};
use crate::store::{
    device_with_mac, inserted_by_last_seen, inserted_by_time, merge_device, time_ok, wf,
    with_sample_id, without_device, Store, StoreError,
};
use crate::text::{opt_text, str_eq};
use crate::types::{
    destinations_view, Destination, DestinationView, Device, DeviceConfig, DeviceView, SampleView,
    TrafficSample,
};

verus! {

/// The host name a reverse lookup gives for an address, kept only when it
/// is not just the address's own text.
pub open spec fn host_name(ip: IpAddr, reverse: Option<Seq<char>>) -> Option<Seq<char>> {
    match reverse {
        Some(h) => if h != ip_text(ip) {
            Some(h)
        } else {
            None
        },
        None => None,
    }
}

/// The host name of an address from the result of a reverse lookup
/// (`None` when the lookup failed).
pub fn host_name_of(ip: &IpAddr, reverse: Option<String>) -> (r: Option<String>)
    ensures
        opt_text(r) == host_name(*ip, opt_text(reverse)),
{
    match reverse {
        Some(h) => {
            let t = ip_to_string(ip);
            if str_eq(h.as_str(), t.as_str()) {
                None
            } else {
                Some(h)
            }
        },
        None => None,
    }
}

/// The destinations of a snapshot with their countries (from the GeoIP
/// lookups `countries`) and host names (from the reverse lookups `reverse`),
/// each one per destination in order, `None` where it failed or is missing.
pub open spec fn enriched(
    d: Seq<(IpAddr, u64)>,
    countries: Seq<Option<Seq<char>>>,
    reverse: Seq<Option<Seq<char>>>,
) -> Seq<DestinationView> {
    Seq::new(
        d.len(),
        |k: int|
            DestinationView {
                ip: d[k].0,
                domain: host_name(
                    d[k].0,
                    if k < reverse.len() {
                        reverse[k]
                    } else {
                        None
                    },
                ),
                country: if k < countries.len() {
                    countries[k]
                } else {
                    None
                },
                bytes: d[k].1,
            },
    )
}

/// The texts of optional strings.
pub open spec fn opt_texts(v: Seq<Option<String>>) -> Seq<Option<Seq<char>>> {
    v.map_values(|o: Option<String>| opt_text(o))
}

/// The destinations of a snapshot, enriched with the countries and the
/// reverse lookups of their addresses.
pub fn enrich_destinations(
    snap: &DeviceSnapshot,
    countries: &Vec<Option<String>>,
    reverse: &Vec<Option<String>>,
) -> (r: Vec<Destination>)
    ensures
        destinations_view(r@) == enriched(snap.destinations@, opt_texts(countries@), opt_texts(reverse@)),
{
    let ghost want = enriched(snap.destinations@, opt_texts(countries@), opt_texts(reverse@));
    let mut r: Vec<Destination> = Vec::new();
    let mut k: usize = 0;
    while k < snap.destinations.len()
        invariant
            k <= snap.destinations.len(),
            want == enriched(snap.destinations@, opt_texts(countries@), opt_texts(reverse@)),
            r@.len() == k,
            forall|m: int| 0 <= m < k ==> #[trigger] r@[m]@ == want[m],
        decreases snap.destinations.len() - k,
    {
        let (ip, bytes) = snap.destinations[k];
        let rev: Option<String> = if k < reverse.len() {
            match &reverse[k] {
                Some(h) => Some(h.clone()),
                None => None,
            }
        } else {
            None
        };
        let country: Option<String> = if k < countries.len() {
            match &countries[k] {
                Some(c) => Some(c.clone()),
                None => None,
            }
        } else {
            None
        };
        proof {
            if k < reverse.len() {
                assert(opt_texts(reverse@)[k as int] == opt_text(reverse@[k as int]));
            }
            if k < countries.len() {
                assert(opt_texts(countries@)[k as int] == opt_text(countries@[k as int]));
            }
        }
        let domain = host_name_of(&ip, rev);
        r.push(Destination { ip, domain, country, bytes });
        k = k + 1;
    }
    assert(destinations_view(r@) =~= want);
    r
}

/// The device record of a snapshot seen at `now`: its MAC and IP, the vendor
/// found for its MAC, no label, first and last seen now.
pub open spec fn snapshot_device(snap: SnapshotView, vendor: Option<Seq<char>>, now: i64) -> DeviceView {
    DeviceView {
        mac: snap.mac,
        ip: snap.ip,
        vendor,
        label: None,
        first_seen: now,
        last_seen: now,
    }
}

/// The sample of a snapshot taken at `now`, not yet stored.
pub open spec fn snapshot_sample(snap: SnapshotView, dests: Seq<DestinationView>, now: i64) -> SampleView {
    SampleView {
        id: None,
        mac: snap.mac,
        timestamp: now,
        bytes_sent: snap.bytes_sent,
        bytes_recv: snap.bytes_recv,
        top_destinations: dests,
    }
}

/// Records a snapshot taken at `now`: the device, with the vendor the OUI
/// database gives for its MAC, is added or refreshed; then the sample, with
/// its destinations enriched by `countries` and `reverse`, is stored. Fails with `Full` when no sample
/// row id is left (the device is recorded all the same).
pub fn ingest_snapshot(
    store: &mut Store,
    snap: &DeviceSnapshot,
    oui: &OuiDb,
    countries: &Vec<Option<String>>,
    reverse: &Vec<Option<String>>,
    now: i64,
) -> (r: Result<(), StoreError>)
    requires
        wf(old(store)@),
    ensures
        wf(final(store)@),
        ({
            let vendor = if oui@.contains_key(mac_key(snap.mac@)) {
                Some(oui@[mac_key(snap.mac@)])
            } else {
                None
            };
            let d = snapshot_device(snap@, vendor, now);
            let dests = enriched(snap.destinations@, opt_texts(countries@), opt_texts(reverse@));
            &&& inserted_by_last_seen(
                without_device(old(store)@.devices, snap.mac@),
                merge_device(device_with_mac(old(store)@.devices, snap.mac@), d),
                final(store)@.devices,
            )
            &&& (r is Err <==> old(store)@.next_sample_id == i64::MAX)
            &&& (r matches Err(e) ==> e == StoreError::Full && final(store)@.samples == old(
                store,
            )@.samples)
            &&& (r is Ok ==> inserted_by_time(
                old(store)@.samples,
                with_sample_id(snapshot_sample(snap@, dests, now), old(store)@.next_sample_id),
                final(store)@.samples,
            ))
            &&& final(store)@.profiles == old(store)@.profiles
            &&& final(store)@.anomalies == old(store)@.anomalies
        }),
{
    let vendor = oui.lookup(snap.mac.as_str());
    let device = Device {
        mac: snap.mac.clone(),
        ip: snap.ip,
        vendor,
        label: None,
        first_seen: now,
        last_seen: now,
    };
    store.upsert_device(&device);
    let destinations = enrich_destinations(snap, countries, reverse);
    let sample = TrafficSample {
        id: None,
        mac: snap.mac.clone(),
        timestamp: now,
        bytes_sent: snap.bytes_sent,
        bytes_recv: snap.bytes_recv,
        top_destinations: destinations,
    };
    store.insert_sample(&sample)
}

/// The label the configuration gives a MAC: that of its last entry, if it
/// has one.
pub open spec fn configured_label(devices: Seq<DeviceConfig>, mac: Seq<char>) -> Option<Seq<char>>
    decreases devices.len(),
{
    if devices.len() == 0 {
        None
    } else if devices.last().mac@ == mac {
        Some(devices.last().label@)
    } else {
        configured_label(devices.drop_last(), mac)
    }
}

/// A stored device after a label is applied to it: the same device with
/// only its label replaced; no device stays no device, and no label leaves
/// the device as it is.
pub open spec fn relabelled(d: Option<DeviceView>, label: Option<Seq<char>>) -> Option<DeviceView> {
    match (d, label) {
        (Some(dev), Some(l)) => Some(DeviceView { label: Some(l), ..dev }),
        _ => d,
    }
}

/// Gives each configured device that the store knows its configured label
/// (the last one configured for its MAC); nothing else changes, and a
/// configured MAC the store does not know still has no device.
pub fn apply_config_labels(store: &mut Store, devices: &Vec<DeviceConfig>)
    requires
        wf(old(store)@),
    ensures
        wf(final(store)@),
        forall|mac: Seq<char>|
            #[trigger] device_with_mac(final(store)@.devices, mac) == relabelled(
                device_with_mac(old(store)@.devices, mac),
                configured_label(devices@, mac),
            ),
        final(store)@.samples == old(store)@.samples,
        final(store)@.profiles == old(store)@.profiles,
        final(store)@.anomalies == old(store)@.anomalies,
{
    let mut i: usize = 0;
    while i < devices.len()
        invariant
            i <= devices.len(),
            wf(store@),
            forall|mac: Seq<char>|
                #[trigger] device_with_mac(store@.devices, mac) == relabelled(
                    device_with_mac(old(store)@.devices, mac),
                    configured_label(devices@.take(i as int), mac),
                ),
            store@.samples == old(store)@.samples,
            store@.profiles == old(store)@.profiles,
            store@.anomalies == old(store)@.anomalies,
        decreases devices.len() - i,
    {
        let cfg = &devices[i];
        let ghost start = store@;
        let ghost done = devices@.take(i as int);
        proof {
            assert(devices@.take(i + 1).drop_last() =~= done);
            assert(devices@.take(i + 1).last() == *cfg);
        }
        let found = store.get_device(cfg.mac.as_str());
        match found {
            Some(existing) => {
                let mut d = existing;
                d.label = Some(cfg.label.clone());
                let ghost before = store@;
                store.upsert_device(&d);
                proof {
                    crate::store::law_upsert_device_then_lookup(before, store@, d@, cfg.mac@);
                    assert forall|mac: Seq<char>| mac != cfg.mac@ implies device_with_mac(
                        store@.devices,
                        mac,
                    ) == device_with_mac(before.devices, mac) by {
                        crate::store::law_upsert_device_then_lookup(before, store@, d@, mac);
                    }
                }
            },
            None => {},
        }
        proof {
            assert forall|mac: Seq<char>|
                #[trigger] device_with_mac(store@.devices, mac) == relabelled(
                    device_with_mac(old(store)@.devices, mac),
                    configured_label(devices@.take(i + 1), mac),
                ) by {
                if mac == cfg.mac@ {
                    assert(configured_label(devices@.take(i + 1), mac) == Some(cfg.label@));
                    assert(device_with_mac(start.devices, mac) == relabelled(
                        device_with_mac(old(store)@.devices, mac),
                        configured_label(done, mac),
                    ));
                } else {
                    assert(configured_label(devices@.take(i + 1), mac) == configured_label(done, mac));
                    assert(device_with_mac(store@.devices, mac) == device_with_mac(start.devices, mac));
                }
            }
        }
        i = i + 1;
    }
    assert(devices@.take(devices.len() as int) =~= devices@);
}

} // verus!
