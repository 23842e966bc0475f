//! What the dashboard's API answers: the summary, the device table and the
//! per-device views, computed from the store.
use vstd::prelude::*;
use crate::store::{
    anomalies_view, anomaly_selected, day_start, resolved_in, display_name, names_most_active, profile_of,
    sample_selected, samples_view, sent_total, sums_result, time_ok, traffic_overflows,
    wf, Store, StoreError, StoreView,
};
use crate::text::{chars_of, replace_all, replaced, string_of};
use crate::types::{
    Anomaly, AnomalyView, Device, DeviceProfile, DeviceView, SampleView, TrafficSample,
};

verus! {

/// Hours of observation after which a device's profile is mature.
pub const MATURE_OBSERVATION_HOURS: u32 = 72;

/// Dashboard summary response.
pub struct DashboardSummary {
    pub total_devices: u32,
    pub total_bytes_sent_today: u64,
    pub active_anomalies: u32,
    pub most_active_device: Option<String>,
}

/// The summary of the store at `now`: the number of devices, the bytes sent
/// since midnight (UTC), the number of unresolved anomalies and the device
/// with the most traffic today. A figure the store cannot give (its sum
/// overflows) is shown as 0 or no device.
pub fn summary(store: &Store, now: i64) -> (r: DashboardSummary)
    requires
        wf(store@),
        time_ok(now),
    ensures
        ({
            let today = store@.samples.filter(sample_selected(None, day_start(now as int)));
            &&& r.total_devices == store@.devices.len() as u32
            &&& r.active_anomalies == store@.anomalies.filter(anomaly_selected(None, true)).len() as u32
            &&& r.total_bytes_sent_today == if sent_total(today) <= i64::MAX {
                sent_total(today)
            } else {
                0
            }
            &&& (r.most_active_device is None <==> today.len() == 0 || traffic_overflows(
                today,
                i64::MAX as int,
            ))
            &&& (r.most_active_device matches Some(name) ==> names_most_active(
                today,
                store@.devices,
                name@,
            ))
        }),
{
    let devices = store.get_all_devices();
    let anomalies = store.get_unresolved_anomalies();
    let total_sent = match store.get_total_bytes_sent_today(now) {
        Ok(t) => t,
        Err(_) => 0,
    };
    let most_active = match store.get_most_active_device_today(now) {
        Ok(m) => m,
        Err(_) => None,
    };
    proof {
        assert(crate::store::devices_view(devices@).len() == devices@.len());
        assert(anomalies_view(anomalies@).len() == anomalies@.len());
    }
    DashboardSummary {
        total_devices: devices.len() as u32,
        total_bytes_sent_today: total_sent,
        active_anomalies: anomalies.len() as u32,
        most_active_device: most_active,
    }
}

/// A device with the figures of its row in the device table.
pub struct DeviceWithStats {
    pub device: Device,
    pub bytes_sent_last_hour: u64,
    pub bytes_recv_last_hour: u64,
    pub top_country: Option<String>,
    pub anomaly_count: u32,
    pub profile_mature: bool,
}

/// The first country named among the destinations of the samples, in
/// order.
pub open spec fn first_country(s: Seq<SampleView>) -> Option<Seq<char>>
    decreases s.len(),
{
    if s.len() == 0 {
        None
    } else {
        match first_dest_country(s[0].top_destinations) {
            Some(c) => Some(c),
            None => first_country(s.drop_first()),
        }
    }
}

/// The first country named among destinations, in order.
pub open spec fn first_dest_country(d: Seq<crate::types::DestinationView>) -> Option<Seq<char>>
    decreases d.len(),
{
    if d.len() == 0 {
        None
    } else {
        match d[0].country {
            Some(c) => Some(c),
            None => first_dest_country(d.drop_first()),
        }
    }
}

fn first_country_of(v: &Vec<TrafficSample>) -> (r: Option<String>)
    ensures
        crate::text::opt_text(r) == first_country(samples_view(v@)),
{
    let ghost s = samples_view(v@);
    let mut i: usize = 0;
    assert(s.skip(0) =~= s);
    while i < v.len()
        invariant
            i <= v.len(),
            s == samples_view(v@),
            first_country(s) == first_country(s.skip(i as int)),
        decreases v.len() - i,
    {
        let ds = &v[i].top_destinations;
        let ghost d = s[i as int].top_destinations;
        assert(d == crate::types::destinations_view(ds@));
        let mut j: usize = 0;
        assert(d.skip(0) =~= d);
        while j < ds.len()
            invariant
                j <= ds.len(),
                d == crate::types::destinations_view(ds@),
                first_dest_country(d) == first_dest_country(d.skip(j as int)),
            decreases ds.len() - j,
        {
            assert(d.skip(j as int).drop_first() =~= d.skip(j + 1));
            match &ds[j].country {
                Some(c) => {
                    assert(s.skip(i as int)[0] == s[i as int]);
                    return Some(c.clone());
                },
                None => {},
            }
            j = j + 1;
        }
        assert(d.skip(ds.len() as int).len() == 0);
        assert(s.skip(i as int)[0] == s[i as int]);
        assert(s.skip(i as int).drop_first() =~= s.skip(i + 1));
        i = i + 1;
    }
    None
}

/// `row` holds the figures of the device of `mac` at `now`: its bytes in
/// the last hour (0 and 0 when the sums overflow), the first country among
/// its samples of the last hour, its number of unresolved anomalies, and
/// whether its profile has been observed for at least 72 hours.
pub open spec fn is_device_row(st: StoreView, mac: Seq<char>, now: i64, row: DeviceWithStats) -> bool {
    let hour = st.samples.filter(sample_selected(Some(mac), now - 3600));
    &&& (row.bytes_sent_last_hour, row.bytes_recv_last_hour) == match sums_result(hour) {
        Ok(p) => p,
        Err(_) => (0u64, 0u64),
    }
    &&& crate::text::opt_text(row.top_country) == first_country(hour)
    &&& row.anomaly_count == st.anomalies.filter(anomaly_selected(Some(mac), true)).len() as u32
    &&& row.profile_mature == match profile_of(st.profiles, mac) {
        Some(p) => p.observation_hours >= MATURE_OBSERVATION_HOURS,
        None => false,
    }
}

/// The row of the device table for a device at `now`.
pub fn device_stats(store: &Store, dev: &Device, now: i64) -> (r: DeviceWithStats)
    requires
        wf(store@),
        time_ok(now),
    ensures
        r.device@ == dev@,
        is_device_row(store@, dev.mac@, now, r),
{
    let mac = dev.mac.as_str();
    let (sent, recv) = match store.get_device_bytes_last_hours(mac, 1, now) {
        Ok(p) => p,
        Err(_) => (0, 0),
    };
    let anomaly_count = store.count_anomalies_for_device(mac);
    let profile_mature = match store.get_profile(mac) {
        Some(p) => p.observation_hours >= MATURE_OBSERVATION_HOURS,
        None => false,
    };
    let recent = store.get_samples_for_device(mac, 1, now);
    let top_country = first_country_of(&recent);
    DeviceWithStats {
        device: dev.duplicate(),
        bytes_sent_last_hour: sent,
        bytes_recv_last_hour: recv,
        top_country,
        anomaly_count,
        profile_mature,
    }
}

proof fn lemma_filter_none_len(s: Seq<AnomalyView>, p: spec_fn(AnomalyView) -> bool)
    requires
        forall|k: int| 0 <= k < s.len() ==> !p(#[trigger] s[k]),
    ensures
        s.filter(p).len() == 0,
    decreases s.len(),
{
    if s.len() == 0 {
        assert(s.filter(p) =~= s) by {
            reveal(Seq::filter);
        }
    } else {
        let t = s.drop_last();
        assert(s =~= t.push(s.last()));
        assert(!p(s[s.len() - 1]));
        lemma_filter_none_len(t, p);
        t.lemma_filter_push(s.last(), p);
    }
}

/// Resolving the one anomaly with id `id`, an unresolved one of `mac`,
/// takes one from the count of `mac`'s unresolved anomalies.
proof fn lemma_resolve_one(s: Seq<AnomalyView>, id: i64, mac: Seq<char>, k: int)
    requires
        0 <= k < s.len(),
        s[k].id == Some(id),
        s[k].mac == mac,
        !s[k].resolved,
        forall|j: int| 0 <= j < s.len() && j != k ==> (#[trigger] s[j]).id != Some(id),
    ensures
        resolved_in(s, id).filter(anomaly_selected(Some(mac), true)).len() + 1 == s.filter(
            anomaly_selected(Some(mac), true),
        ).len(),
    decreases s.len(),
{
    let p = anomaly_selected(Some(mac), true);
    let t = s.drop_last();
    let x = s.last();
    let r = resolved_in(s, id);
    let rx = r[s.len() - 1];
    assert(s =~= t.push(x));
    assert(r =~= resolved_in(t, id).push(rx));
    s.drop_last().lemma_filter_push(x, p);
    resolved_in(t, id).lemma_filter_push(rx, p);
    if k == s.len() - 1 {
        assert forall|j: int| 0 <= j < t.len() implies (#[trigger] t[j]).id != Some(id) by {
            assert(t[j] == s[j]);
        }
        assert(resolved_in(t, id) =~= t);
        assert(rx.resolved);
        assert(p(x));
    } else {
        assert forall|j: int| 0 <= j < t.len() && j != k implies (#[trigger] t[j]).id != Some(id) by {
            assert(t[j] == s[j]);
        }
        assert(x.id != Some(id)) by {
            assert(s[s.len() - 1] == x);
        }
        assert(rx == x);
        lemma_resolve_one(t, id, mac, k);
    }
}

/// A row's anomaly count is the device's number of unresolved anomalies
/// only: it is 0 when every anomaly of the device is resolved, at least 1
/// when one is not, and never more than the device's anomalies.
pub proof fn law_row_counts_unresolved(st: StoreView, mac: Seq<char>, now: i64, row: DeviceWithStats)
    requires
        is_device_row(st, mac, now, row),
        st.anomalies.len() <= u32::MAX,
    ensures
        (forall|k: int|
            0 <= k < st.anomalies.len() && (#[trigger] st.anomalies[k]).mac == mac
                ==> st.anomalies[k].resolved) ==> row.anomaly_count == 0,
        (exists|k: int|
            0 <= k < st.anomalies.len() && (#[trigger] st.anomalies[k]).mac == mac
                && !st.anomalies[k].resolved) ==> row.anomaly_count >= 1,
        row.anomaly_count <= st.anomalies.len(),
{
    let p = anomaly_selected(Some(mac), true);
    let s = st.anomalies;
    s.lemma_filter_len(p);
    if forall|k: int| 0 <= k < s.len() && (#[trigger] s[k]).mac == mac ==> s[k].resolved {
        assert forall|k: int| 0 <= k < s.len() implies !p(#[trigger] s[k]) by {}
        lemma_filter_none_len(s, p);
    }
    if exists|k: int| 0 <= k < s.len() && (#[trigger] s[k]).mac == mac && !s[k].resolved {
        let k = choose|k: int| 0 <= k < s.len() && (#[trigger] s[k]).mac == mac && !s[k].resolved;
        s.lemma_filter_contains(p, k);
    }
}

/// Resolving an unresolved anomaly of a device (the only one with that id)
/// lowers the count in the device's row by one.
pub proof fn law_resolving_lowers_row_count(
    st: StoreView,
    st2: StoreView,
    mac: Seq<char>,
    now: i64,
    row: DeviceWithStats,
    row2: DeviceWithStats,
    id: i64,
    k: int,
)
    requires
        st.anomalies.len() <= u32::MAX,
        0 <= k < st.anomalies.len(),
        st.anomalies[k].id == Some(id),
        st.anomalies[k].mac == mac,
        !st.anomalies[k].resolved,
        forall|j: int| 0 <= j < st.anomalies.len() && j != k ==> (#[trigger] st.anomalies[j]).id != Some(id),
        st2.anomalies == resolved_in(st.anomalies, id),
        is_device_row(st, mac, now, row),
        is_device_row(st2, mac, now, row2),
    ensures
        row2.anomaly_count + 1 == row.anomaly_count,
{
    lemma_resolve_one(st.anomalies, id, mac, k);
    st.anomalies.lemma_filter_len(anomaly_selected(Some(mac), true));
}

/// The device table at `now`: one row per device, in the store's order
/// (most recently seen first).
pub fn devices(store: &Store, now: i64) -> (r: Vec<DeviceWithStats>)
    requires
        wf(store@),
        time_ok(now),
    ensures
        r@.len() == store@.devices.len(),
        forall|i: int|
            0 <= i < r@.len() ==> (#[trigger] r@[i]).device@ == store@.devices[i] && is_device_row(
                store@,
                store@.devices[i].mac,
                now,
                r@[i],
            ),
{
    let devs = store.get_all_devices();
    let mut r: Vec<DeviceWithStats> = Vec::new();
    let mut i: usize = 0;
    while i < devs.len()
        invariant
            i <= devs.len(),
            crate::store::devices_view(devs@) == store@.devices,
            r@.len() == i,
            forall|k: int|
                0 <= k < i ==> (#[trigger] r@[k]).device@ == store@.devices[k] && is_device_row(
                    store@,
                    store@.devices[k].mac,
                    now,
                    r@[k],
                ),
        decreases devs.len() - i,
    {
        assert(devs@[i as int]@ == store@.devices[i as int]);
        let row = device_stats(store, &devs[i], now);
        r.push(row);
        i = i + 1;
    }
    r
}

// ---------------------------------------------------------------------------
// Per-device views
// ---------------------------------------------------------------------------

/// Query of a device's history: how many hours back to look.
pub struct HistoryQuery {
    pub hours: u32,
}

/// The number of hours of history shown when the query names none.
pub fn default_hours() -> (r: u32)
    ensures
        r == 24,
{
    24
}

/// A MAC as it arrives in a URL path, with "%3A" (or "%3a") for ':'.
pub open spec fn decoded_mac(raw: Seq<char>) -> Seq<char> {
    replaced(replaced(raw, "%3A"@, ":"@), "%3a"@, ":"@)
}

/// The MAC of a URL path segment: every "%3A", then every "%3a", made ':'.
pub fn decode_mac(raw: &str) -> (r: String)
    ensures
        r@ == decoded_mac(raw@),
{
    let s = chars_of(raw);
    let upper = chars_of("%3A");
    let lower = chars_of("%3a");
    let colon = chars_of(":");
    proof {
        reveal_strlit("%3A");
        reveal_strlit("%3a");
    }
    let once = replace_all(&s, &upper, &colon);
    let twice = replace_all(&once, &lower, &colon);
    string_of(&twice)
}

/// The samples of a device (its MAC as in a URL path) over the hours of
/// the query, oldest first.
pub fn device_history(store: &Store, raw_mac: &str, q: &HistoryQuery, now: i64) -> (r: Vec<
    TrafficSample,
>)
    requires
        wf(store@),
        time_ok(now),
    ensures
        samples_view(r@) == store@.samples.filter(
            sample_selected(Some(decoded_mac(raw_mac@)), now - q.hours * 3600),
        ),
{
    let mac = decode_mac(raw_mac);
    store.get_samples_for_device(mac.as_str(), q.hours, now)
}

/// The profile of a device (its MAC as in a URL path), if it has one.
pub fn device_profile(store: &Store, raw_mac: &str) -> (r: Option<DeviceProfile>)
    requires
        wf(store@),
    ensures
        match r {
            Some(p) => profile_of(store@.profiles, decoded_mac(raw_mac@)) == Some(p@),
            None => profile_of(store@.profiles, decoded_mac(raw_mac@)) is None,
        },
{
    let mac = decode_mac(raw_mac);
    store.get_profile(mac.as_str())
}

/// All anomalies of a device (its MAC as in a URL path), most recent first.
pub fn device_anomalies(store: &Store, raw_mac: &str) -> (r: Vec<Anomaly>)
    requires
        wf(store@),
    ensures
        anomalies_view(r@) == store@.anomalies.filter(
            anomaly_selected(Some(decoded_mac(raw_mac@)), false),
        ),
{
    let mac = decode_mac(raw_mac);
    store.get_anomalies_for_device(mac.as_str())
}

proof fn lemma_encode_then_decode_upper(mac: Seq<char>)
    requires
        forall|i: int| 0 <= i < mac.len() ==> mac[i] != '%',
    ensures
        replaced(replaced(mac, ":"@, "%3A"@), "%3A"@, ":"@) == mac,
    decreases mac.len(),
{
    reveal_strlit(":");
    reveal_strlit("%3A");
    let colon = ":"@;
    let code = "%3A"@;
    if mac.len() > 0 {
        let rest = mac.drop_first();
        assert forall|i: int| 0 <= i < rest.len() implies rest[i] != '%' by {
            assert(rest[i] == mac[i + 1]);
        }
        lemma_encode_then_decode_upper(rest);
        let r1 = replaced(rest, colon, code);
        if mac[0] == ':' {
            assert(mac.take(1) =~= colon);
            assert(mac.skip(1) =~= rest);
            let e = code + r1;
            assert(replaced(mac, colon, code) == e);
            assert(e.take(3) =~= code);
            assert(e.skip(3) =~= r1);
            assert(replaced(e, code, colon) == colon + replaced(r1, code, colon));
            assert(colon + rest =~= mac);
        } else {
            assert(mac.take(1) != colon) by {
                assert(mac.take(1)[0] == mac[0]);
            }
            let e = seq![mac[0]] + r1;
            assert(replaced(mac, colon, code) == e);
            assert(e.len() < 3 || e.take(3) != code) by {
                if e.len() >= 3 {
                    assert(e.take(3)[0] == mac[0]);
                }
            }
            assert(e.drop_first() =~= r1);
            assert(e[0] == mac[0]);
            assert(seq![mac[0]] + rest =~= mac);
        }
    }
}

proof fn lemma_no_lower_code(s: Seq<char>)
    requires
        forall|i: int| 0 <= i < s.len() ==> s[i] != '%',
    ensures
        replaced(s, "%3a"@, ":"@) == s,
    decreases s.len(),
{
    reveal_strlit(":");
    reveal_strlit("%3a");
    if s.len() > 0 {
        let rest = s.drop_first();
        assert forall|i: int| 0 <= i < rest.len() implies rest[i] != '%' by {
            assert(rest[i] == s[i + 1]);
        }
        lemma_no_lower_code(rest);
        assert(s.len() < 3 || s.take(3) != "%3a"@) by {
            if s.len() >= 3 {
                assert(s.take(3)[0] == s[0]);
            }
        }
        assert(seq![s[0]] + rest =~= s);
    }
}

/// A MAC the client puts into a URL path (every ':' as "%3A") is the MAC
/// the dashboard reads back from it, for every MAC without '%'.
pub proof fn law_mac_path_round_trip(mac: Seq<char>)
    requires
        forall|i: int| 0 <= i < mac.len() ==> mac[i] != '%',
    ensures
        decoded_mac(replaced(mac, ":"@, "%3A"@)) == mac,
{
    lemma_encode_then_decode_upper(mac);
    lemma_no_lower_code(mac);
}

} // verus!
