//! The store: devices, traffic samples, device profiles and anomalies.
//!
//! The store keeps its tables in memory, each in the order in which its
//! queries hand rows out: devices by `last_seen` descending, samples by
//! timestamp ascending, anomalies by `detected_at` descending. Queries that
//! filter a table therefore return the matching rows in table order.
use vstd::prelude::*;
use crate::text::str_eq;
use crate::types::{Anomaly, AnomalyView, Device, DeviceProfile, DeviceView, ProfileView, SampleView, TrafficSample};

verus! {

/// The times the library works with: up to 8 * 10^12 seconds either side of
/// the epoch (about 250,000 years), all of which `chrono` can represent.
pub open spec fn time_ok(t: i64) -> bool {
    -8_000_000_000_000 <= t <= 8_000_000_000_000
}

/// Why a store operation failed.
#[derive(Clone, Copy, Debug, PartialEq, Eq, Structural)]
pub enum StoreError {
    /// A sum did not fit the database's 64-bit signed integers.
    IntegerOverflow,
    /// No row id is left for a new row.
    Full,
}

/// In-memory tables of devices, samples, profiles and anomalies.
pub struct Store {
    devices: Vec<Device>,
    samples: Vec<TrafficSample>,
    profiles: Vec<DeviceProfile>,
    anomalies: Vec<Anomaly>,
    next_sample_id: i64,
    next_anomaly_id: i64,
}

/// The value of a [`Store`]: its four tables and the next row ids.
pub struct StoreView {
    pub devices: Seq<DeviceView>,
    pub samples: Seq<SampleView>,
    pub profiles: Seq<ProfileView>,
    pub anomalies: Seq<AnomalyView>,
    pub next_sample_id: i64,
    pub next_anomaly_id: i64,
}

pub open spec fn devices_view(v: Seq<Device>) -> Seq<DeviceView> {
    v.map_values(|d: Device| d@)
}

pub open spec fn samples_view(v: Seq<TrafficSample>) -> Seq<SampleView> {
    v.map_values(|s: TrafficSample| s@)
}

pub open spec fn profiles_view(v: Seq<DeviceProfile>) -> Seq<ProfileView> {
    v.map_values(|p: DeviceProfile| p@)
}

pub open spec fn anomalies_view(v: Seq<Anomaly>) -> Seq<AnomalyView> {
    v.map_values(|a: Anomaly| a@)
}

impl View for Store {
    type V = StoreView;

    closed spec fn view(&self) -> StoreView {
        StoreView {
            devices: devices_view(self.devices@),
            samples: samples_view(self.samples@),
            profiles: profiles_view(self.profiles@),
            anomalies: anomalies_view(self.anomalies@),
            next_sample_id: self.next_sample_id,
            next_anomaly_id: self.next_anomaly_id,
        }
    }
}

/// The store's invariant: devices sorted by `last_seen` descending with
/// distinct MACs; samples sorted by timestamp ascending; profiles with
/// distinct MACs; anomalies sorted by `detected_at` descending, each with a
/// distinct id below `next_anomaly_id`.
pub open spec fn wf(v: StoreView) -> bool {
    &&& forall|i: int, j: int|
        0 <= i < j < v.devices.len() ==> v.devices[i].last_seen >= v.devices[j].last_seen
    &&& forall|i: int, j: int|
        0 <= i < v.devices.len() && 0 <= j < v.devices.len() && i != j ==> v.devices[i].mac
            != v.devices[j].mac
    &&& forall|i: int, j: int|
        0 <= i < j < v.samples.len() ==> v.samples[i].timestamp <= v.samples[j].timestamp
    &&& forall|i: int, j: int|
        0 <= i < v.profiles.len() && 0 <= j < v.profiles.len() && i != j ==> v.profiles[i].mac
            != v.profiles[j].mac
    &&& forall|i: int, j: int|
        0 <= i < j < v.anomalies.len() ==> v.anomalies[i].detected_at
            >= v.anomalies[j].detected_at
    &&& forall|i: int|
        0 <= i < v.anomalies.len() ==> (#[trigger] v.anomalies[i].id) is Some && 1
            <= v.anomalies[i].id->0 < v.next_anomaly_id
    &&& forall|i: int, j: int|
        0 <= i < v.anomalies.len() && 0 <= j < v.anomalies.len() && i != j
            ==> v.anomalies[i].id != v.anomalies[j].id
    &&& v.next_anomaly_id >= 1
    &&& v.next_sample_id >= 1
}

// ---------------------------------------------------------------------------
// Devices
// ---------------------------------------------------------------------------

/// Index of the device with this MAC, or -1.
pub open spec fn device_index(devs: Seq<DeviceView>, mac: Seq<char>) -> int {
    if exists|i: int| 0 <= i < devs.len() && devs[i].mac == mac {
        choose|i: int| 0 <= i < devs.len() && devs[i].mac == mac
    } else {
        -1
    }
}

/// The device with this MAC, if the table has one.
pub open spec fn device_with_mac(devs: Seq<DeviceView>, mac: Seq<char>) -> Option<DeviceView> {
    let k = device_index(devs, mac);
    if k >= 0 {
        Some(devs[k])
    } else {
        None
    }
}

/// The table without the device of this MAC.
pub open spec fn without_device(devs: Seq<DeviceView>, mac: Seq<char>) -> Seq<DeviceView> {
    let k = device_index(devs, mac);
    if k >= 0 {
        devs.remove(k)
    } else {
        devs
    }
}

/// What an upsert of `d` stores, given the stored device of that MAC:
/// the new IP and `last_seen`; vendor and label from `d` where given, else
/// the stored ones; the stored `first_seen`.
pub open spec fn merge_device(old: Option<DeviceView>, d: DeviceView) -> DeviceView {
    match old {
        Some(o) => DeviceView {
            mac: d.mac,
            ip: d.ip,
            vendor: if d.vendor is Some { d.vendor } else { o.vendor },
            label: if d.label is Some { d.label } else { o.label },
            first_seen: o.first_seen,
            last_seen: d.last_seen,
        },
        None => d,
    }
}

/// `new` is `old` with `d` inserted after every device seen at the same
/// time or later and before every device seen earlier.
pub open spec fn inserted_by_last_seen(
    old: Seq<DeviceView>,
    d: DeviceView,
    new: Seq<DeviceView>,
) -> bool {
    exists|p: int|
        0 <= p <= old.len() && new == old.insert(p, d) && (forall|j: int|
            0 <= j < p ==> old[j].last_seen >= d.last_seen) && (forall|j: int|
            p <= j < old.len() ==> old[j].last_seen < d.last_seen)
}

/// Removing the device of a MAC keeps the table sorted and its MACs
/// distinct, and leaves no device of that MAC.
proof fn lemma_base_after_removal(devs: Seq<DeviceView>, mac: Seq<char>)
    requires
        forall|i: int, j: int| 0 <= i < j < devs.len() ==> devs[i].last_seen >= devs[j].last_seen,
        forall|i: int, j: int|
            0 <= i < devs.len() && 0 <= j < devs.len() && i != j ==> devs[i].mac != devs[j].mac,
    ensures
        ({
            let b = without_device(devs, mac);
            &&& forall|i: int, j: int| 0 <= i < j < b.len() ==> b[i].last_seen >= b[j].last_seen
            &&& forall|i: int, j: int|
                0 <= i < b.len() && 0 <= j < b.len() && i != j ==> b[i].mac != b[j].mac
            &&& forall|i: int| 0 <= i < b.len() ==> b[i].mac != mac
        }),
{
    let k = device_index(devs, mac);
    if k >= 0 {
        let b = devs.remove(k);
        assert forall|i: int| 0 <= i < b.len() implies b[i].mac != mac by {
            if i < k {
                assert(b[i] == devs[i]);
            } else {
                assert(b[i] == devs[i + 1]);
            }
        }
        assert forall|i: int, j: int| 0 <= i < j < b.len() implies b[i].last_seen
            >= b[j].last_seen by {
            let ii = if i < k { i } else { i + 1 };
            let jj = if j < k { j } else { j + 1 };
            assert(b[i] == devs[ii] && b[j] == devs[jj]);
        }
        assert forall|i: int, j: int|
            0 <= i < b.len() && 0 <= j < b.len() && i != j implies b[i].mac != b[j].mac by {
            let ii = if i < k { i } else { i + 1 };
            let jj = if j < k { j } else { j + 1 };
            assert(b[i] == devs[ii] && b[j] == devs[jj]);
        }
    }
}

/// Inserting a device between the devices seen no earlier and those seen
/// earlier keeps the table sorted; a device whose MAC is new keeps MACs
/// distinct.
proof fn lemma_insert_desc(b: Seq<DeviceView>, p: int, d: DeviceView)
    requires
        0 <= p <= b.len(),
        forall|i: int, j: int| 0 <= i < j < b.len() ==> b[i].last_seen >= b[j].last_seen,
        forall|i: int, j: int|
            0 <= i < b.len() && 0 <= j < b.len() && i != j ==> b[i].mac != b[j].mac,
        forall|i: int| 0 <= i < b.len() ==> b[i].mac != d.mac,
        forall|j: int| 0 <= j < p ==> b[j].last_seen >= d.last_seen,
        forall|j: int| p <= j < b.len() ==> b[j].last_seen < d.last_seen,
    ensures
        ({
            let n = b.insert(p, d);
            &&& forall|i: int, j: int| 0 <= i < j < n.len() ==> n[i].last_seen >= n[j].last_seen
            &&& forall|i: int, j: int|
                0 <= i < n.len() && 0 <= j < n.len() && i != j ==> n[i].mac != n[j].mac
        }),
{
    let n = b.insert(p, d);
    b.insert_ensures(p, d);
    assert forall|i: int, j: int| 0 <= i < j < n.len() implies n[i].last_seen
        >= n[j].last_seen by {
        if i < p {
            assert(n[i] == b[i]);
            if j > p {
                assert(n[j] == b[j - 1]);
            }
        } else if i == p {
            assert(n[j] == b[j - 1]);
        } else {
            assert(n[i] == b[i - 1]);
            assert(n[j] == b[j - 1]);
        }
    }
    assert forall|i: int, j: int|
        0 <= i < n.len() && 0 <= j < n.len() && i != j implies n[i].mac != n[j].mac by {
        if i != p && j != p {
            let ii = if i < p { i } else { i - 1 };
            let jj = if j < p { j } else { j - 1 };
            assert(n[i] == b[ii] && n[j] == b[jj]);
        } else if i == p {
            let jj = if j < p { j } else { j - 1 };
            assert(n[j] == b[jj]);
        } else {
            let ii = if i < p { i } else { i - 1 };
            assert(n[i] == b[ii]);
        }
    }
}

impl Store {
    /// An empty store.
    pub fn new() -> (s: Store)
        ensures
            wf(s@),
            s@.devices.len() == 0,
            s@.samples.len() == 0,
            s@.profiles.len() == 0,
            s@.anomalies.len() == 0,
            s@.next_sample_id == 1,
            s@.next_anomaly_id == 1,
    {
        let s = Store {
            devices: Vec::new(),
            samples: Vec::new(),
            profiles: Vec::new(),
            anomalies: Vec::new(),
            next_sample_id: 1,
            next_anomaly_id: 1,
        };
        assert(s@.devices =~= Seq::empty());
        assert(s@.samples =~= Seq::empty());
        assert(s@.profiles =~= Seq::empty());
        assert(s@.anomalies =~= Seq::empty());
        s
    }

    fn find_device(&self, mac: &str) -> (r: Option<usize>)
        requires
            wf(self@),
        ensures
            match r {
                Some(k) => k < self@.devices.len() && self@.devices[k as int].mac == mac@
                    && device_index(self@.devices, mac@) == k,
                None => device_index(self@.devices, mac@) == -1,
            },
    {
        let mut i: usize = 0;
        while i < self.devices.len()
            invariant
                i <= self.devices.len(),
                forall|j: int| 0 <= j < i ==> self@.devices[j].mac != mac@,
            decreases self.devices.len() - i,
        {
            if str_eq(self.devices[i].mac.as_str(), mac) {
                assert(self@.devices[i as int].mac == mac@);
                proof {
                    let c = device_index(self@.devices, mac@);
                    assert(0 <= c < self@.devices.len() && self@.devices[c].mac == mac@);
                    assert(c == i as int);
                }
                return Some(i);
            }
            i = i + 1;
        }
        None
    }

    /// Inserts a device, or updates the stored device with the same MAC:
    /// IP and `last_seen` are replaced, vendor and label are replaced only
    /// where the new record has one, and `first_seen` is kept.
    pub fn upsert_device(&mut self, device: &Device)
        requires
            wf(old(self)@),
        ensures
            wf(final(self)@),
            inserted_by_last_seen(
                without_device(old(self)@.devices, device.mac@),
                merge_device(device_with_mac(old(self)@.devices, device.mac@), device@),
                final(self)@.devices,
            ),
            final(self)@.samples == old(self)@.samples,
            final(self)@.profiles == old(self)@.profiles,
            final(self)@.anomalies == old(self)@.anomalies,
            final(self)@.next_sample_id == old(self)@.next_sample_id,
            final(self)@.next_anomaly_id == old(self)@.next_anomaly_id,
    {
        let ghost old_devs = self@.devices;
        let found = self.find_device(device.mac.as_str());
        let merged = match found {
            Some(k) => {
                let o = self.devices.remove(k);
                Device {
                    mac: device.mac.clone(),
                    ip: device.ip,
                    vendor: if device.vendor.is_some() {
                        crate::text::clone_opt_string(&device.vendor)
                    } else {
                        o.vendor
                    },
                    label: if device.label.is_some() {
                        crate::text::clone_opt_string(&device.label)
                    } else {
                        o.label
                    },
                    first_seen: o.first_seen,
                    last_seen: device.last_seen,
                }
            },
            None => device.duplicate(),
        };
        let ghost base = self@.devices;
        assert(base =~= without_device(old_devs, device.mac@));
        assert(merged@ == merge_device(device_with_mac(old_devs, device.mac@), device@));
        let t = merged.last_seen;
        let mut p: usize = 0;
        while p < self.devices.len() && self.devices[p].last_seen >= t
            invariant
                p <= self.devices.len(),
                self@.devices == base,
                forall|j: int| 0 <= j < p ==> base[j].last_seen >= t,
            decreases self.devices.len() - p,
        {
            p = p + 1;
        }
        proof {
            lemma_base_after_removal(old_devs, device.mac@);
            assert forall|j: int| p <= j < base.len() implies base[j].last_seen < t by {
                assert(base[p as int].last_seen < t);
            }
        }
        self.devices.insert(p, merged);
        proof {
            assert(self@.devices =~= base.insert(p as int, merged@));
            lemma_insert_desc(base, p as int, merged@);
            assert(merged@.mac == device.mac@);
            assert(self@.profiles == old(self)@.profiles);
            assert(self@.anomalies == old(self)@.anomalies);
            assert(self@.samples == old(self)@.samples);
            assert(forall|i: int, j: int|
                0 <= i < j < self@.devices.len() ==> self@.devices[i].last_seen >= self@.devices[j].last_seen);
            assert(forall|i: int, j: int|
                0 <= i < self@.devices.len() && 0 <= j < self@.devices.len() && i != j ==> self@.devices[i].mac
                    != self@.devices[j].mac);
            assert(wf(self@));
        }
    }

    /// The stored device of a MAC, if any.
    pub fn get_device(&self, mac: &str) -> (r: Option<Device>)
        requires
            wf(self@),
        ensures
            match r {
                Some(d) => device_with_mac(self@.devices, mac@) == Some(d@),
                None => device_with_mac(self@.devices, mac@) is None,
            },
    {
        match self.find_device(mac) {
            Some(k) => Some(self.devices[k].duplicate()),
            None => None,
        }
    }

    /// All devices, most recently seen first.
    pub fn get_all_devices(&self) -> (r: Vec<Device>)
        requires
            wf(self@),
        ensures
            devices_view(r@) == self@.devices,
    {
        let mut r: Vec<Device> = Vec::new();
        let mut i: usize = 0;
        while i < self.devices.len()
            invariant
                i <= self.devices.len(),
                r@.len() == i,
                forall|j: int| 0 <= j < i ==> #[trigger] r@[j]@ == self.devices@[j]@,
            decreases self.devices.len() - i,
        {
            r.push(self.devices[i].duplicate());
            i = i + 1;
        }
        assert(devices_view(r@) =~= self@.devices);
        r
    }
}

// ---------------------------------------------------------------------------
// Samples
// ---------------------------------------------------------------------------

/// Whether a sample is selected by a query for an optional MAC and a cutoff:
/// newer than the cutoff, and of that MAC when one is given.
pub open spec fn sample_selected(mac: Option<Seq<char>>, cutoff: int) -> spec_fn(SampleView) -> bool {
    |s: SampleView| (mac is None || s.mac == mac->0) && s.timestamp > cutoff
}

/// Whether a sample survives pruning at a cutoff (it is not older).
pub open spec fn sample_kept(cutoff: int) -> spec_fn(SampleView) -> bool {
    |s: SampleView| s.timestamp >= cutoff
}

/// Sum of bytes sent over samples.
pub open spec fn sent_total(s: Seq<SampleView>) -> nat
    decreases s.len(),
{
    if s.len() == 0 {
        0
    } else {
        sent_total(s.drop_last()) + s.last().bytes_sent as nat
    }
}

/// Sum of bytes received over samples.
pub open spec fn recv_total(s: Seq<SampleView>) -> nat
    decreases s.len(),
{
    if s.len() == 0 {
        0
    } else {
        recv_total(s.drop_last()) + s.last().bytes_recv as nat
    }
}

/// A prefix sums to no more than the whole.
proof fn lemma_totals_prefix(s: Seq<SampleView>, i: int)
    requires
        0 <= i <= s.len(),
    ensures
        sent_total(s.take(i)) <= sent_total(s),
        recv_total(s.take(i)) <= recv_total(s),
    decreases s.len(),
{
    if i < s.len() {
        lemma_totals_prefix(s.drop_last(), i);
        assert(s.drop_last().take(i) =~= s.take(i));
    } else {
        assert(s.take(i) =~= s);
    }
}

/// `new` is `old` with `x` inserted after every sample with the same or an
/// earlier timestamp and before every later one.
pub open spec fn inserted_by_time(old: Seq<SampleView>, x: SampleView, new: Seq<SampleView>) -> bool {
    exists|p: int|
        0 <= p <= old.len() && new == old.insert(p, x) && (forall|j: int|
            0 <= j < p ==> old[j].timestamp <= x.timestamp) && (forall|j: int|
            p <= j < old.len() ==> old[j].timestamp > x.timestamp)
}

/// The sample as stored under a row id.
pub open spec fn with_sample_id(x: SampleView, id: i64) -> SampleView {
    SampleView { id: Some(id), ..x }
}

/// Midnight (UTC) of the day of `now`.
pub open spec fn day_start(now: int) -> int {
    now - now % 86400
}

/// The sums over a list of samples, when both fit a signed 64-bit integer.
pub open spec fn sums_result(s: Seq<SampleView>) -> Result<(u64, u64), StoreError> {
    if sent_total(s) <= i64::MAX && recv_total(s) <= i64::MAX {
        Ok((sent_total(s) as u64, recv_total(s) as u64))
    } else {
        Err(StoreError::IntegerOverflow)
    }
}

fn sample_sums(v: &Vec<TrafficSample>) -> (r: Result<(u64, u64), StoreError>)
    ensures
        r == sums_result(samples_view(v@)),
{
    let ghost s = samples_view(v@);
    let mut sent: u64 = 0;
    let mut recv: u64 = 0;
    let mut i: usize = 0;
    while i < v.len()
        invariant
            i <= v.len(),
            s == samples_view(v@),
            sent == sent_total(s.take(i as int)),
            recv == recv_total(s.take(i as int)),
            sent <= i64::MAX,
            recv <= i64::MAX,
        decreases v.len() - i,
    {
        assert(s.take(i + 1).drop_last() =~= s.take(i as int));
        assert(s.take(i + 1).last() == v@[i as int]@);
        let x = v[i].bytes_sent;
        let y = v[i].bytes_recv;
        if x > (i64::MAX as u64) - sent || y > (i64::MAX as u64) - recv {
            proof {
                lemma_totals_prefix(s, i + 1);
            }
            return Err(StoreError::IntegerOverflow);
        }
        sent = sent + x;
        recv = recv + y;
        i = i + 1;
    }
    assert(s.take(v.len() as int) =~= s);
    Ok((sent, recv))
}

fn sent_sum(v: &Vec<TrafficSample>) -> (r: Option<u64>)
    ensures
        match r {
            Some(t) => sent_total(samples_view(v@)) <= i64::MAX && t == sent_total(samples_view(v@)),
            None => sent_total(samples_view(v@)) > i64::MAX,
        },
{
    let ghost s = samples_view(v@);
    let mut sent: u64 = 0;
    let mut i: usize = 0;
    while i < v.len()
        invariant
            i <= v.len(),
            s == samples_view(v@),
            sent == sent_total(s.take(i as int)),
            sent <= i64::MAX,
        decreases v.len() - i,
    {
        assert(s.take(i + 1).drop_last() =~= s.take(i as int));
        assert(s.take(i + 1).last() == v@[i as int]@);
        let x = v[i].bytes_sent;
        if x > (i64::MAX as u64) - sent {
            proof {
                lemma_totals_prefix(s, i + 1);
            }
            return None;
        }
        sent = sent + x;
        i = i + 1;
    }
    assert(s.take(v.len() as int) =~= s);
    Some(sent)
}

/// Midnight (UTC) of the day of `now`.
pub fn day_start_exec(now: i64) -> (r: i64)
    requires
        time_ok(now),
    ensures
        r == day_start(now as int),
{
    if now >= 0 {
        let u = now as u64;
        let q = u / 86400;
        let r = (q * 86400) as i64;
        assert(r == day_start(now as int)) by (nonlinear_arith)
            requires
                u == now,
                now >= 0,
                q == u / 86400,
                r == q * 86400,
        ;
        r
    } else {
        let a = (-(now + 1)) as u64;
        let q = a / 86400;
        assert(q <= 8_000_000_000_000u64);
        let r = -((q * 86400) as i64) - 86400;
        assert(r == day_start(now as int)) by (nonlinear_arith)
            requires
                a == -(now + 1),
                now < 0,
                q == a / 86400,
                r == -(q * 86400) - 86400,
        ;
        r
    }
}

impl Store {
    fn select_samples(&self, mac: Option<&str>, cutoff: i64) -> (r: Vec<TrafficSample>)
        requires
            wf(self@),
        ensures
            samples_view(r@) == self@.samples.filter(
                sample_selected(
                    match mac {
                        Some(m) => Some(m@),
                        None => None,
                    },
                    cutoff as int,
                ),
            ),
    {
        let ghost m = match mac {
            Some(m) => Some(m@),
            None => None::<Seq<char>>,
        };
        let ghost pred = sample_selected(m, cutoff as int);
        let ghost all = self@.samples;
        let mut r: Vec<TrafficSample> = Vec::new();
        let mut i: usize = 0;
        while i < self.samples.len()
            invariant
                i <= self.samples.len(),
                all == samples_view(self.samples@),
                samples_view(r@) == all.take(i as int).filter(pred),
            decreases self.samples.len() - i,
        {
            proof {
                reveal(Seq::filter);
                assert(all.take(i + 1).drop_last() =~= all.take(i as int));
            }
            let s = &self.samples[i];
            let mac_ok = match mac {
                Some(m) => str_eq(s.mac.as_str(), m),
                None => true,
            };
            if mac_ok && s.timestamp > cutoff {
                let ghost before = r@;
                r.push(s.duplicate());
                assert(samples_view(r@) =~= samples_view(before).push(all[i as int]));
            }
            i = i + 1;
        }
        assert(all.take(self.samples.len() as int) =~= all);
        r
    }

    /// Stores a traffic sample under the next row id.
    /// Fails with `Full` when no row id is left.
    pub fn insert_sample(&mut self, sample: &TrafficSample) -> (r: Result<(), StoreError>)
        requires
            wf(old(self)@),
        ensures
            wf(final(self)@),
            r is Err <==> old(self)@.next_sample_id == i64::MAX,
            r is Err ==> final(self)@ == old(self)@,
            r matches Err(e) ==> e == StoreError::Full,
            r is Ok ==> inserted_by_time(
                old(self)@.samples,
                with_sample_id(sample@, old(self)@.next_sample_id),
                final(self)@.samples,
            ) && final(self)@.next_sample_id == old(self)@.next_sample_id + 1,
            final(self)@.devices == old(self)@.devices,
            final(self)@.profiles == old(self)@.profiles,
            final(self)@.anomalies == old(self)@.anomalies,
            final(self)@.next_anomaly_id == old(self)@.next_anomaly_id,
    {
        if self.next_sample_id == i64::MAX {
            return Err(StoreError::Full);
        }
        let mut x = sample.duplicate();
        x.id = Some(self.next_sample_id);
        assert(x@ == with_sample_id(sample@, self.next_sample_id));
        let ghost base = self@.samples;
        let t = x.timestamp;
        let mut p: usize = 0;
        while p < self.samples.len() && self.samples[p].timestamp <= t
            invariant
                p <= self.samples.len(),
                base == self@.samples,
                forall|j: int| 0 <= j < p ==> base[j].timestamp <= t,
            decreases self.samples.len() - p,
        {
            p = p + 1;
        }
        proof {
            assert forall|j: int| p <= j < base.len() implies base[j].timestamp > t by {
                assert(base[p as int].timestamp > t);
            }
        }
        self.samples.insert(p, x);
        self.next_sample_id = self.next_sample_id + 1;
        proof {
            assert(self@.samples =~= base.insert(p as int, x@));
            base.insert_ensures(p as int, x@);
            let n = self@.samples;
            assert forall|i: int, j: int| 0 <= i < j < n.len() implies n[i].timestamp
                <= n[j].timestamp by {
                if i < p {
                    if j > p {
                        assert(n[j] == base[j - 1]);
                    }
                } else if i > p {
                    assert(n[i] == base[i - 1]);
                    assert(n[j] == base[j - 1]);
                } else {
                    assert(n[j] == base[j - 1]);
                }
            }
            assert(self@.devices == old(self)@.devices);
            assert(self@.profiles == old(self)@.profiles);
            assert(self@.anomalies == old(self)@.anomalies);
        }
        Ok(())
    }

    /// Samples of a device newer than `hours` hours before `now`, oldest first.
    pub fn get_samples_for_device(&self, mac: &str, hours: u32, now: i64) -> (r: Vec<TrafficSample>)
        requires
            wf(self@),
            time_ok(now),
        ensures
            samples_view(r@) == self@.samples.filter(
                sample_selected(Some(mac@), now - hours * 3600),
            ),
    {
        let cutoff = now - (hours as i64) * 3600;
        self.select_samples(Some(mac), cutoff)
    }

    /// Samples of all devices newer than `hours` hours before `now`, oldest first.
    pub fn get_recent_samples(&self, hours: u32, now: i64) -> (r: Vec<TrafficSample>)
        requires
            wf(self@),
            time_ok(now),
        ensures
            samples_view(r@) == self@.samples.filter(sample_selected(None, now - hours * 3600)),
    {
        let cutoff = now - (hours as i64) * 3600;
        self.select_samples(None, cutoff)
    }

    /// Deletes the samples older than `days` days before `now`.
    pub fn prune_old_samples(&mut self, days: u32, now: i64)
        requires
            wf(old(self)@),
            time_ok(now),
        ensures
            wf(final(self)@),
            final(self)@.samples == old(self)@.samples.filter(sample_kept(now - days * 86400)),
            final(self)@.devices == old(self)@.devices,
            final(self)@.profiles == old(self)@.profiles,
            final(self)@.anomalies == old(self)@.anomalies,
            final(self)@.next_sample_id == old(self)@.next_sample_id,
            final(self)@.next_anomaly_id == old(self)@.next_anomaly_id,
    {
        let cutoff = now - (days as i64) * 86400;
        let ghost pred = sample_kept(cutoff as int);
        let ghost all = self@.samples;
        let mut kept: Vec<TrafficSample> = Vec::new();
        let mut i: usize = 0;
        while i < self.samples.len()
            invariant
                i <= self.samples.len(),
                all == samples_view(self.samples@),
                samples_view(kept@) == all.take(i as int).filter(pred),
                forall|a: int, b: int|
                    0 <= a < b < kept@.len() ==> kept@[a].timestamp <= kept@[b].timestamp,
                forall|a: int| 0 <= a < kept@.len() ==> exists|b: int| 0 <= b < i && #[trigger] kept@[a]@ == all[b],
            decreases self.samples.len() - i,
        {
            proof {
                reveal(Seq::filter);
                assert(all.take(i + 1).drop_last() =~= all.take(i as int));
            }
            if self.samples[i].timestamp >= cutoff {
                let ghost before = kept@;
                kept.push(self.samples[i].duplicate());
                assert(samples_view(kept@) =~= samples_view(before).push(all[i as int]));
                proof {
                    assert forall|a: int| 0 <= a < kept@.len() implies exists|b: int|
                        0 <= b < i + 1 && #[trigger] kept@[a]@ == all[b] by {
                        if a == kept@.len() - 1 {
                            assert(kept@[a]@ == all[i as int]);
                        } else {
                            assert(kept@[a] == before[a]);
                        }
                    }
                    assert forall|a: int, b: int|
                        0 <= a < b < kept@.len() implies kept@[a].timestamp
                        <= kept@[b].timestamp by {
                        if b == kept@.len() - 1 {
                            let c = choose|c: int| 0 <= c < i && #[trigger] before[a]@ == all[c];
                            assert(kept@[a] == before[a]);
                            assert(all[c].timestamp <= all[i as int].timestamp);
                        } else {
                            assert(kept@[a] == before[a] && kept@[b] == before[b]);
                        }
                    }
                }
            }
            i = i + 1;
        }
        assert(all.take(self.samples.len() as int) =~= all);
        self.samples = kept;
        proof {
            let n = self@.samples;
            assert forall|a: int, b: int| 0 <= a < b < n.len() implies n[a].timestamp
                <= n[b].timestamp by {
                assert(n[a] == self.samples@[a]@ && n[b] == self.samples@[b]@);
            }
            assert(self@.devices == old(self)@.devices);
            assert(self@.profiles == old(self)@.profiles);
            assert(self@.anomalies == old(self)@.anomalies);
        }
    }

    /// Sums of bytes sent and received by a device in the last `hours` hours.
    /// Fails with `IntegerOverflow` when a sum exceeds `i64::MAX`.
    pub fn get_device_bytes_last_hours(&self, mac: &str, hours: u32, now: i64) -> (r: Result<
        (u64, u64),
        StoreError,
    >)
        requires
            wf(self@),
            time_ok(now),
        ensures
            r == sums_result(
                self@.samples.filter(sample_selected(Some(mac@), now - hours * 3600)),
            ),
    {
        let v = self.get_samples_for_device(mac, hours, now);
        sample_sums(&v)
    }

    /// Bytes sent by all devices since midnight (UTC) of the day of `now`.
    /// Fails with `IntegerOverflow` when the sum exceeds `i64::MAX`.
    pub fn get_total_bytes_sent_today(&self, now: i64) -> (r: Result<u64, StoreError>)
        requires
            wf(self@),
            time_ok(now),
        ensures
            ({
                let today = self@.samples.filter(sample_selected(None, day_start(now as int)));
                match r {
                    Ok(t) => sent_total(today) <= i64::MAX && t == sent_total(today),
                    Err(e) => e == StoreError::IntegerOverflow && sent_total(today) > i64::MAX,
                }
            }),
    {
        let start = day_start_exec(now);
        let v = self.select_samples(None, start);
        match sent_sum(&v) {
            Some(t) => Ok(t),
            None => Err(StoreError::IntegerOverflow),
        }
    }
}

// ---------------------------------------------------------------------------
// Profiles
// ---------------------------------------------------------------------------

/// Index of the profile of this MAC, or -1.
pub open spec fn profile_index(ps: Seq<ProfileView>, mac: Seq<char>) -> int {
    if exists|i: int| 0 <= i < ps.len() && ps[i].mac == mac {
        choose|i: int| 0 <= i < ps.len() && ps[i].mac == mac
    } else {
        -1
    }
}

/// The stored profile of this MAC, if any.
pub open spec fn profile_of(ps: Seq<ProfileView>, mac: Seq<char>) -> Option<ProfileView> {
    let k = profile_index(ps, mac);
    if k >= 0 {
        Some(ps[k])
    } else {
        None
    }
}

/// The profiles table after storing `p`: it replaces the profile of the
/// same MAC, or is added.
pub open spec fn profiles_after_upsert(ps: Seq<ProfileView>, p: ProfileView) -> Seq<ProfileView> {
    let k = profile_index(ps, p.mac);
    if k >= 0 {
        ps.update(k, p)
    } else {
        ps.push(p)
    }
}

// ---------------------------------------------------------------------------
// Anomalies
// ---------------------------------------------------------------------------

/// Whether an anomaly was detected from `start` to `end`, both included.
pub open spec fn anomaly_in_period(start: int, end: int) -> spec_fn(AnomalyView) -> bool {
    |a: AnomalyView| start <= a.detected_at && a.detected_at <= end
}

/// Whether an anomaly is selected by a query for an optional MAC, and
/// only unresolved ones when `unresolved_only`.
pub open spec fn anomaly_selected(mac: Option<Seq<char>>, unresolved_only: bool) -> spec_fn(
    AnomalyView,
) -> bool {
    |a: AnomalyView| (mac is None || a.mac == mac->0) && (!unresolved_only || !a.resolved)
}

/// The anomaly as stored under a row id.
pub open spec fn with_anomaly_id(a: AnomalyView, id: i64) -> AnomalyView {
    AnomalyView { id: Some(id), ..a }
}

/// `new` is `old` with `a` inserted after every anomaly detected at the same
/// time or later and before every earlier one.
pub open spec fn inserted_by_detection(
    old: Seq<AnomalyView>,
    a: AnomalyView,
    new: Seq<AnomalyView>,
) -> bool {
    exists|p: int|
        0 <= p <= old.len() && new == old.insert(p, a) && (forall|j: int|
            0 <= j < p ==> old[j].detected_at >= a.detected_at) && (forall|j: int|
            p <= j < old.len() ==> old[j].detected_at < a.detected_at)
}

/// The anomalies table with the anomaly of row id `id` marked resolved.
pub open spec fn resolved_in(s: Seq<AnomalyView>, id: i64) -> Seq<AnomalyView> {
    Seq::new(
        s.len(),
        |i: int|
            if s[i].id == Some(id) {
                AnomalyView { resolved: true, ..s[i] }
            } else {
                s[i]
            },
    )
}

// ---------------------------------------------------------------------------
// Most active device
// ---------------------------------------------------------------------------

/// Bytes sent plus received by the samples of one MAC.
pub open spec fn traffic_of(s: Seq<SampleView>, mac: Seq<char>) -> nat
    decreases s.len(),
{
    if s.len() == 0 {
        0
    } else {
        traffic_of(s.drop_last(), mac) + if s.last().mac == mac {
            s.last().bytes_sent as nat + s.last().bytes_recv as nat
        } else {
            0
        }
    }
}

proof fn lemma_traffic_prefix(s: Seq<SampleView>, mac: Seq<char>, i: int)
    requires
        0 <= i <= s.len(),
    ensures
        traffic_of(s.take(i), mac) <= traffic_of(s, mac),
    decreases s.len(),
{
    if i < s.len() {
        lemma_traffic_prefix(s.drop_last(), mac, i);
        assert(s.drop_last().take(i) =~= s.take(i));
    } else {
        assert(s.take(i) =~= s);
    }
}

/// The name a device is shown under: its label, else its MAC.
pub open spec fn display_name(devs: Seq<DeviceView>, mac: Seq<char>) -> Seq<char> {
    match device_with_mac(devs, mac) {
        Some(d) => match d.label {
            Some(l) => l,
            None => mac,
        },
        None => mac,
    }
}

/// Whether some device's traffic among the samples exceeds `limit`.
pub open spec fn traffic_overflows(s: Seq<SampleView>, limit: int) -> bool {
    exists|j: int| 0 <= j < s.len() && traffic_of(s, #[trigger] s[j].mac) > limit
}

/// `name` names a device with the most traffic among the samples.
pub open spec fn names_most_active(s: Seq<SampleView>, devs: Seq<DeviceView>, name: Seq<char>) -> bool {
    exists|i: int|
        0 <= i < s.len() && name == display_name(devs, s[i].mac) && forall|j: int|
            0 <= j < s.len() ==> traffic_of(s, #[trigger] s[j].mac) <= traffic_of(s, s[i].mac)
}

fn mac_traffic(v: &Vec<TrafficSample>, mac: &str, limit: u64) -> (r: Option<u64>)
    ensures
        match r {
            Some(t) => t == traffic_of(samples_view(v@), mac@) && t <= limit,
            None => traffic_of(samples_view(v@), mac@) > limit,
        },
{
    let ghost s = samples_view(v@);
    let mut acc: u64 = 0;
    let mut j: usize = 0;
    while j < v.len()
        invariant
            j <= v.len(),
            s == samples_view(v@),
            acc == traffic_of(s.take(j as int), mac@),
            acc <= limit,
        decreases v.len() - j,
    {
        assert(s.take(j + 1).drop_last() =~= s.take(j as int));
        assert(s.take(j + 1).last() == v@[j as int]@);
        if str_eq(v[j].mac.as_str(), mac) {
            let x = v[j].bytes_sent;
            let y = v[j].bytes_recv;
            if x > limit - acc || y > limit - acc - x {
                proof {
                    lemma_traffic_prefix(s, mac@, j + 1);
                }
                return None;
            }
            acc = acc + x + y;
        }
        j = j + 1;
    }
    assert(s.take(v.len() as int) =~= s);
    Some(acc)
}

impl Store {
    fn find_profile(&self, mac: &str) -> (r: Option<usize>)
        requires
            wf(self@),
        ensures
            match r {
                Some(k) => k < self@.profiles.len() && profile_index(self@.profiles, mac@) == k,
                None => profile_index(self@.profiles, mac@) == -1,
            },
    {
        let mut i: usize = 0;
        while i < self.profiles.len()
            invariant
                i <= self.profiles.len(),
                forall|j: int| 0 <= j < i ==> self@.profiles[j].mac != mac@,
            decreases self.profiles.len() - i,
        {
            if str_eq(self.profiles[i].mac.as_str(), mac) {
                proof {
                    assert(self@.profiles[i as int].mac == mac@);
                    let c = profile_index(self@.profiles, mac@);
                    assert(0 <= c < self@.profiles.len() && self@.profiles[c].mac == mac@);
                    assert(c == i as int);
                }
                return Some(i);
            }
            i = i + 1;
        }
        None
    }

    /// The profile stored for a MAC, if any.
    pub fn get_profile(&self, mac: &str) -> (r: Option<DeviceProfile>)
        requires
            wf(self@),
        ensures
            match r {
                Some(p) => profile_of(self@.profiles, mac@) == Some(p@),
                None => profile_of(self@.profiles, mac@) is None,
            },
    {
        match self.find_profile(mac) {
            Some(k) => Some(self.profiles[k].duplicate()),
            None => None,
        }
    }

    /// Stores a profile, replacing the profile of the same MAC.
    pub fn upsert_profile(&mut self, profile: &DeviceProfile)
        requires
            wf(old(self)@),
        ensures
            wf(final(self)@),
            final(self)@.profiles == profiles_after_upsert(old(self)@.profiles, profile@),
            final(self)@.devices == old(self)@.devices,
            final(self)@.samples == old(self)@.samples,
            final(self)@.anomalies == old(self)@.anomalies,
            final(self)@.next_sample_id == old(self)@.next_sample_id,
            final(self)@.next_anomaly_id == old(self)@.next_anomaly_id,
    {
        let ghost before = self@.profiles;
        let p = profile.duplicate();
        match self.find_profile(profile.mac.as_str()) {
            Some(k) => {
                self.profiles.set(k, p);
                proof {
                    assert(self@.profiles =~= before.update(k as int, profile@));
                    let n = self@.profiles;
                    assert forall|i: int, j: int|
                        0 <= i < n.len() && 0 <= j < n.len() && i != j implies n[i].mac
                        != n[j].mac by {
                        if i != k && j != k {
                            assert(n[i] == before[i] && n[j] == before[j]);
                        } else if i == k {
                            assert(n[j] == before[j]);
                            assert(before[k as int].mac == profile.mac@);
                        } else {
                            assert(n[i] == before[i]);
                            assert(before[k as int].mac == profile.mac@);
                        }
                    }
                }
            },
            None => {
                self.profiles.push(p);
                proof {
                    assert(self@.profiles =~= before.push(profile@));
                    let n = self@.profiles;
                    assert forall|i: int, j: int|
                        0 <= i < n.len() && 0 <= j < n.len() && i != j implies n[i].mac
                        != n[j].mac by {
                        if i < before.len() && j < before.len() {
                            assert(n[i] == before[i] && n[j] == before[j]);
                        } else if i < before.len() {
                            assert(n[i] == before[i]);
                        } else {
                            assert(n[j] == before[j]);
                        }
                    }
                }
            },
        }
        proof {
            assert(self@.devices == old(self)@.devices);
            assert(self@.samples == old(self)@.samples);
            assert(self@.anomalies == old(self)@.anomalies);
        }
    }

    fn select_anomalies(&self, mac: Option<&str>, unresolved_only: bool) -> (r: Vec<Anomaly>)
        requires
            wf(self@),
        ensures
            anomalies_view(r@) == self@.anomalies.filter(
                anomaly_selected(
                    match mac {
                        Some(m) => Some(m@),
                        None => None,
                    },
                    unresolved_only,
                ),
            ),
    {
        let ghost m = match mac {
            Some(m) => Some(m@),
            None => None::<Seq<char>>,
        };
        let ghost pred = anomaly_selected(m, unresolved_only);
        let ghost all = self@.anomalies;
        let mut r: Vec<Anomaly> = Vec::new();
        let mut i: usize = 0;
        while i < self.anomalies.len()
            invariant
                i <= self.anomalies.len(),
                all == anomalies_view(self.anomalies@),
                anomalies_view(r@) == all.take(i as int).filter(pred),
            decreases self.anomalies.len() - i,
        {
            proof {
                reveal(Seq::filter);
                assert(all.take(i + 1).drop_last() =~= all.take(i as int));
            }
            let a = &self.anomalies[i];
            let mac_ok = match mac {
                Some(m) => str_eq(a.mac.as_str(), m),
                None => true,
            };
            if mac_ok && (!unresolved_only || !a.resolved) {
                let ghost before = r@;
                r.push(a.duplicate());
                assert(anomalies_view(r@) =~= anomalies_view(before).push(all[i as int]));
            }
            i = i + 1;
        }
        assert(all.take(self.anomalies.len() as int) =~= all);
        r
    }

    /// The anomalies, resolved or not, detected from `start` to `end`
    /// (both included), most recently detected first.
    pub fn get_anomalies_between(&self, start: i64, end: i64) -> (r: Vec<Anomaly>)
        requires
            wf(self@),
        ensures
            anomalies_view(r@) == self@.anomalies.filter(anomaly_in_period(start as int, end as int)),
    {
        let ghost pred = anomaly_in_period(start as int, end as int);
        let ghost all = self@.anomalies;
        let mut r: Vec<Anomaly> = Vec::new();
        let mut i: usize = 0;
        while i < self.anomalies.len()
            invariant
                i <= self.anomalies.len(),
                all == anomalies_view(self.anomalies@),
                anomalies_view(r@) == all.take(i as int).filter(pred),
            decreases self.anomalies.len() - i,
        {
            proof {
                reveal(Seq::filter);
                assert(all.take(i + 1).drop_last() =~= all.take(i as int));
            }
            let a = &self.anomalies[i];
            if start <= a.detected_at && a.detected_at <= end {
                let ghost before = r@;
                r.push(a.duplicate());
                assert(anomalies_view(r@) =~= anomalies_view(before).push(all[i as int]));
            }
            i = i + 1;
        }
        assert(all.take(self.anomalies.len() as int) =~= all);
        r
    }

    /// Stores an anomaly under the next row id and returns that id.
    /// Fails with `Full` when no row id is left.
    #[verifier::spinoff_prover]
    #[verifier::rlimit(40)]
    pub fn insert_anomaly(&mut self, anomaly: &Anomaly) -> (r: Result<i64, StoreError>)
        requires
            wf(old(self)@),
        ensures
            wf(final(self)@),
            r is Err <==> old(self)@.next_anomaly_id == i64::MAX,
            r is Err ==> final(self)@ == old(self)@,
            match r {
                Ok(id) => id == old(self)@.next_anomaly_id && inserted_by_detection(
                    old(self)@.anomalies,
                    with_anomaly_id(anomaly@, id),
                    final(self)@.anomalies,
                ) && final(self)@.next_anomaly_id == id + 1,
                Err(e) => e == StoreError::Full,
            },
            final(self)@.devices == old(self)@.devices,
            final(self)@.samples == old(self)@.samples,
            final(self)@.profiles == old(self)@.profiles,
            final(self)@.next_sample_id == old(self)@.next_sample_id,
    {
        if self.next_anomaly_id == i64::MAX {
            return Err(StoreError::Full);
        }
        let id = self.next_anomaly_id;
        let mut x = anomaly.duplicate();
        x.id = Some(id);
        assert(x@ == with_anomaly_id(anomaly@, id));
        let ghost base = self@.anomalies;
        let t = x.detected_at;
        let mut p: usize = 0;
        while p < self.anomalies.len() && self.anomalies[p].detected_at >= t
            invariant
                p <= self.anomalies.len(),
                base == self@.anomalies,
                forall|j: int| 0 <= j < p ==> base[j].detected_at >= t,
            decreases self.anomalies.len() - p,
        {
            p = p + 1;
        }
        proof {
            assert forall|j: int| p <= j < base.len() implies base[j].detected_at < t by {
                assert(base[p as int].detected_at < t);
            }
        }
        self.anomalies.insert(p, x);
        self.next_anomaly_id = id + 1;
        proof {
            assert(self@.anomalies =~= base.insert(p as int, x@));
            base.insert_ensures(p as int, x@);
            let n = self@.anomalies;
            assert forall|i: int, j: int| 0 <= i < j < n.len() implies n[i].detected_at
                >= n[j].detected_at by {
                if i < p {
                    if j > p {
                        assert(n[j] == base[j - 1]);
                    }
                } else if i > p {
                    assert(n[i] == base[i - 1]);
                    assert(n[j] == base[j - 1]);
                } else {
                    assert(n[j] == base[j - 1]);
                }
            }
            assert forall|i: int| 0 <= i < n.len() implies (#[trigger] n[i].id) is Some && 1
                <= n[i].id->0 < id + 1 by {
                if i < p {
                    assert(n[i] == base[i]);
                } else if i > p {
                    assert(n[i] == base[i - 1]);
                }
            }
            assert forall|i: int, j: int|
                0 <= i < n.len() && 0 <= j < n.len() && i != j implies n[i].id != n[j].id by {
                let ii = if i < p { i } else { i - 1 };
                let jj = if j < p { j } else { j - 1 };
                if i != p {
                    assert(n[i] == base[ii]);
                }
                if j != p {
                    assert(n[j] == base[jj]);
                }
            }
            assert(self@.devices == old(self)@.devices);
            assert(self@.samples == old(self)@.samples);
            assert(self@.profiles == old(self)@.profiles);
        }
        Ok(id)
    }

    /// All unresolved anomalies, most recently detected first.
    pub fn get_unresolved_anomalies(&self) -> (r: Vec<Anomaly>)
        requires
            wf(self@),
        ensures
            anomalies_view(r@) == self@.anomalies.filter(anomaly_selected(None, true)),
    {
        self.select_anomalies(None, true)
    }

    /// All anomalies of a device, most recently detected first.
    pub fn get_anomalies_for_device(&self, mac: &str) -> (r: Vec<Anomaly>)
        requires
            wf(self@),
        ensures
            anomalies_view(r@) == self@.anomalies.filter(anomaly_selected(Some(mac@), false)),
    {
        self.select_anomalies(Some(mac), false)
    }

    /// Number of unresolved anomalies of a device.
    pub fn count_anomalies_for_device(&self, mac: &str) -> (r: u32)
        requires
            wf(self@),
        ensures
            r == self@.anomalies.filter(anomaly_selected(Some(mac@), true)).len() as u32,
    {
        let v = self.select_anomalies(Some(mac), true);
        v.len() as u32
    }

    /// Marks the anomaly with row id `id` as resolved.
    pub fn resolve_anomaly(&mut self, id: i64)
        requires
            wf(old(self)@),
        ensures
            wf(final(self)@),
            final(self)@.anomalies == resolved_in(old(self)@.anomalies, id),
            final(self)@.devices == old(self)@.devices,
            final(self)@.samples == old(self)@.samples,
            final(self)@.profiles == old(self)@.profiles,
            final(self)@.next_sample_id == old(self)@.next_sample_id,
            final(self)@.next_anomaly_id == old(self)@.next_anomaly_id,
    {
        let ghost before = self@.anomalies;
        let mut i: usize = 0;
        while i < self.anomalies.len()
            invariant
                i <= self.anomalies.len(),
                self.anomalies@.len() == before.len(),
                forall|j: int| 0 <= j < i ==> #[trigger] self@.anomalies[j] == resolved_in(before, id)[j],
                forall|j: int| i <= j < before.len() ==> #[trigger] self@.anomalies[j] == before[j],
                self.next_anomaly_id == old(self).next_anomaly_id,
                self.next_sample_id == old(self).next_sample_id,
                self@.devices == old(self)@.devices,
                self@.samples == old(self)@.samples,
                self@.profiles == old(self)@.profiles,
                before == old(self)@.anomalies,
            decreases self.anomalies.len() - i,
        {
            let matches = match self.anomalies[i].id {
                Some(x) => x == id,
                None => false,
            };
            assert(self@.anomalies[i as int] == self.anomalies@[i as int]@);
            assert(matches == (before[i as int].id == Some(id)));
            if matches {
                let ghost cur = self@.anomalies;
                let mut a = self.anomalies[i].duplicate();
                a.resolved = true;
                self.anomalies.set(i, a);
                assert(self@.anomalies =~= cur.update(i as int, a@));
            }
            assert(self@.anomalies[i as int] == resolved_in(before, id)[i as int]);
            i = i + 1;
        }
        proof {
            assert(self@.anomalies =~= resolved_in(before, id));
            let n = self@.anomalies;
            assert forall|i: int, j: int| 0 <= i < j < n.len() implies n[i].detected_at
                >= n[j].detected_at by {
                assert(n[i].detected_at == before[i].detected_at);
                assert(n[j].detected_at == before[j].detected_at);
            }
            assert forall|i: int| 0 <= i < n.len() implies (#[trigger] n[i].id) is Some && 1
                <= n[i].id->0 < self.next_anomaly_id by {
                assert(n[i].id == before[i].id);
            }
            assert forall|i: int, j: int|
                0 <= i < n.len() && 0 <= j < n.len() && i != j implies n[i].id != n[j].id by {
                assert(n[i].id == before[i].id);
                assert(n[j].id == before[j].id);
            }
            assert(self@.devices == old(self)@.devices);
            assert(self@.samples == old(self)@.samples);
            assert(self@.profiles == old(self)@.profiles);
        }
    }

    /// The label (else the MAC) of the device with the most traffic since
    /// midnight (UTC) of the day of `now`; `None` when there was no traffic.
    /// Fails with `IntegerOverflow` when a device's traffic exceeds `i64::MAX`.
    pub fn get_most_active_device_today(&self, now: i64) -> (r: Result<Option<String>, StoreError>)
        requires
            wf(self@),
            time_ok(now),
        ensures
            ({
                let today = self@.samples.filter(sample_selected(None, day_start(now as int)));
                &&& (r is Err <==> traffic_overflows(today, i64::MAX as int))
                &&& (r == Ok::<Option<String>, StoreError>(None) <==> (today.len() == 0))
                &&& match r {
                    Ok(Some(name)) => names_most_active(today, self@.devices, name@),
                    Err(e) => e == StoreError::IntegerOverflow,
                    Ok(None) => true,
                }
            }),
    {
        let start = day_start_exec(now);
        let v = self.select_samples(None, start);
        self.most_active_among(&v, i64::MAX as u64)
    }

    /// The name the device of a MAC is shown under: its label, else the MAC.
    pub(crate) fn display_name_of(&self, mac: &str) -> (r: String)
        requires
            wf(self@),
        ensures
            r@ == display_name(self@.devices, mac@),
    {
        match self.find_device(mac) {
            Some(k) => match &self.devices[k].label {
                Some(l) => l.clone(),
                None => String::from_str(mac),
            },
            None => String::from_str(mac),
        }
    }

    /// The display name of a device with the most traffic among the
    /// samples `v`; `None` when `v` is empty. Fails with `IntegerOverflow`
    /// when a device's traffic exceeds `limit`.
    pub(crate) fn most_active_among(&self, v: &Vec<TrafficSample>, limit: u64) -> (r: Result<Option<String>, StoreError>)
        requires
            wf(self@),
        ensures
            ({
                let s = samples_view(v@);
                &&& (r is Err <==> traffic_overflows(s, limit as int))
                &&& (r == Ok::<Option<String>, StoreError>(None) <==> (s.len() == 0))
                &&& match r {
                    Ok(Some(name)) => names_most_active(s, self@.devices, name@),
                    Err(e) => e == StoreError::IntegerOverflow,
                    Ok(None) => true,
                }
            }),
    {
        let ghost today = samples_view(v@);
        if v.len() == 0 {
            return Ok(None);
        }
        let mut best: usize = 0;
        let mut best_total: u64 = 0;
        let mut i: usize = 0;
        while i < v.len()
            invariant
                0 < v.len(),
                i <= v.len(),
                today == samples_view(v@),
                best < v.len(),
                i > 0 ==> best < i,
                i > 0 ==> best_total == traffic_of(today, today[best as int].mac),
                forall|k: int|
                    0 <= k < i ==> traffic_of(today, #[trigger] today[k].mac) <= best_total,
                forall|k: int|
                    0 <= k < i ==> traffic_of(today, #[trigger] today[k].mac) <= limit,
            decreases v.len() - i,
        {
            let acc = match mac_traffic(v, v[i].mac.as_str(), limit) {
                Some(t) => t,
                None => {
                    assert(traffic_of(today, today[i as int].mac) > limit);
                    return Err(StoreError::IntegerOverflow);
                },
            };
            if i == 0 || acc > best_total {
                best = i;
                best_total = acc;
            }
            i = i + 1;
        }
        let name = self.display_name_of(v[best].mac.as_str());
        proof {
            assert(name@ == display_name(self@.devices, today[best as int].mac));
            assert(!traffic_overflows(today, limit as int));
        }
        Ok(Some(name))
    }
}

// ---------------------------------------------------------------------------
// Laws
// ---------------------------------------------------------------------------

/// After an upsert, the device of that MAC is the merged record: the new
/// IP and `last_seen`, the new vendor and label where given and the stored
/// ones otherwise, and the `first_seen` of the stored device. Devices of
/// other MACs are unchanged.
pub proof fn law_upsert_device_then_lookup(
    old: StoreView,
    new: StoreView,
    d: DeviceView,
    other: Seq<char>,
)
    requires
        wf(old),
        wf(new),
        inserted_by_last_seen(
            without_device(old.devices, d.mac),
            merge_device(device_with_mac(old.devices, d.mac), d),
            new.devices,
        ),
    ensures
        device_with_mac(new.devices, d.mac) == Some(
            merge_device(device_with_mac(old.devices, d.mac), d),
        ),
        match device_with_mac(old.devices, d.mac) {
            Some(o) => {
                let m = merge_device(Some(o), d);
                &&& m.first_seen == o.first_seen
                &&& m.last_seen == d.last_seen
                &&& m.ip == d.ip
                &&& (d.label is None ==> m.label == o.label)
                &&& (d.vendor is None ==> m.vendor == o.vendor)
            },
            None => merge_device(None, d) == d,
        },
        other != d.mac ==> device_with_mac(new.devices, other) == device_with_mac(
            old.devices,
            other,
        ),
{
    let merged = merge_device(device_with_mac(old.devices, d.mac), d);
    let base = without_device(old.devices, d.mac);
    lemma_base_after_removal(old.devices, d.mac);
    let p = choose|p: int|
        0 <= p <= base.len() && new.devices == base.insert(p, merged) && (forall|j: int|
            0 <= j < p ==> base[j].last_seen >= merged.last_seen) && (forall|j: int|
            p <= j < base.len() ==> base[j].last_seen < merged.last_seen);
    base.insert_ensures(p, merged);
    assert(merged.mac == d.mac);
    assert(new.devices[p].mac == d.mac);
    let c = device_index(new.devices, d.mac);
    assert(c == p);
    if other != d.mac {
        let k = device_index(old.devices, d.mac);
        if exists|i: int| 0 <= i < old.devices.len() && old.devices[i].mac == other {
            let i = choose|i: int| 0 <= i < old.devices.len() && old.devices[i].mac == other;
            assert(device_index(old.devices, other) == i);
            // locate old.devices[i] in base, then in new
            let bi = if k >= 0 && i > k { i - 1 } else { i };
            if k >= 0 {
                old.devices.remove_ensures(k);
                assert(i != k);
            }
            assert(base[bi] == old.devices[i]);
            let ni = if bi < p { bi } else { bi + 1 };
            assert(new.devices[ni] == base[bi]);
            assert(device_index(new.devices, other) == ni);
        } else {
            assert forall|j: int| 0 <= j < new.devices.len() implies new.devices[j].mac
                != other by {
                if j != p {
                    let bj = if j < p { j } else { j - 1 };
                    assert(new.devices[j] == base[bj]);
                    let k = device_index(old.devices, d.mac);
                    if k >= 0 {
                        old.devices.remove_ensures(k);
                        let oj = if bj < k { bj } else { bj + 1 };
                        assert(base[bj] == old.devices[oj]);
                    }
                }
            }
        }
    }
}

/// A profile read back after it was stored is the stored profile; the
/// profiles of other MACs are unchanged.
pub proof fn law_profile_read_after_write(old: StoreView, p: ProfileView, other: Seq<char>)
    requires
        wf(old),
    ensures
        profile_of(profiles_after_upsert(old.profiles, p), p.mac) == Some(p),
        other != p.mac ==> profile_of(profiles_after_upsert(old.profiles, p), other) == profile_of(
            old.profiles,
            other,
        ),
{
    let ps = old.profiles;
    let n = profiles_after_upsert(ps, p);
    let k = profile_index(ps, p.mac);
    // the MACs of n are distinct
    assert forall|i: int, j: int|
        0 <= i < n.len() && 0 <= j < n.len() && i != j implies n[i].mac != n[j].mac by {
        if k >= 0 {
            if i != k && j != k {
                assert(n[i] == ps[i] && n[j] == ps[j]);
            } else if i == k {
                assert(n[j] == ps[j]);
            } else {
                assert(n[i] == ps[i]);
            }
        } else {
            if i < ps.len() && j < ps.len() {
                assert(n[i] == ps[i] && n[j] == ps[j]);
            } else if i < ps.len() {
                assert(n[i] == ps[i]);
            } else {
                assert(n[j] == ps[j]);
            }
        }
    }
    let at = if k >= 0 { k } else { ps.len() as int };
    assert(n[at] == p);
    assert(profile_index(n, p.mac) == at);
    if other != p.mac {
        if exists|i: int| 0 <= i < ps.len() && ps[i].mac == other {
            let i = choose|i: int| 0 <= i < ps.len() && ps[i].mac == other;
            assert(profile_index(ps, other) == i);
            assert(i != at);
            assert(n[i] == ps[i]);
            assert(profile_index(n, other) == i);
        } else {
            assert forall|j: int| 0 <= j < n.len() implies n[j].mac != other by {
                if j != at {
                    assert(n[j] == ps[j]);
                }
            }
        }
    }
}

/// A newly stored anomaly gets a fresh positive id, and is listed among the
/// unresolved anomalies when it was stored unresolved.
pub proof fn law_inserted_anomaly_listed(old: StoreView, new: StoreView, a: AnomalyView)
    requires
        wf(old),
        inserted_by_detection(
            old.anomalies,
            with_anomaly_id(a, old.next_anomaly_id),
            new.anomalies,
        ),
    ensures
        old.next_anomaly_id >= 1,
        forall|i: int|
            0 <= i < old.anomalies.len() ==> (#[trigger] old.anomalies[i]).id != Some(
                old.next_anomaly_id,
            ),
        !a.resolved ==> new.anomalies.filter(anomaly_selected(None, true)).contains(
            with_anomaly_id(a, old.next_anomaly_id),
        ),
{
    let x = with_anomaly_id(a, old.next_anomaly_id);
    let p = choose|p: int|
        0 <= p <= old.anomalies.len() && new.anomalies == old.anomalies.insert(p, x) && (forall|
            j: int,
        | 0 <= j < p ==> old.anomalies[j].detected_at >= x.detected_at) && (forall|j: int|
            p <= j < old.anomalies.len() ==> old.anomalies[j].detected_at < x.detected_at);
    old.anomalies.insert_ensures(p, x);
    if !a.resolved {
        new.anomalies.lemma_filter_contains(anomaly_selected(None, true), p);
    }
}

/// After an anomaly is resolved, no unresolved anomaly carries its id, and
/// every other unresolved anomaly is still listed.
pub proof fn law_resolved_not_listed(s: Seq<AnomalyView>, id: i64, x: AnomalyView)
    ensures
        !resolved_in(s, id).filter(anomaly_selected(None, true)).contains(x) || x.id != Some(id),
        (s.contains(x) && !x.resolved && x.id != Some(id)) ==> resolved_in(s, id).filter(
            anomaly_selected(None, true),
        ).contains(x),
{
    let n = resolved_in(s, id);
    let pred = anomaly_selected(None, true);
    broadcast use vstd::seq_lib::group_filter_ensures;

    if n.filter(pred).contains(x) && x.id == Some(id) {
        let i = choose|i: int| 0 <= i < n.filter(pred).len() && n.filter(pred)[i] == x;
        n.lemma_filter_pred(pred, i);
        lemma_filter_sub(n, pred, i);
        let j = choose|j: int| 0 <= j < n.len() && n[j] == x;
        assert(n[j].resolved);
    }
    if s.contains(x) && !x.resolved && x.id != Some(id) {
        let i = choose|i: int| 0 <= i < s.len() && s[i] == x;
        assert(n[i] == x);
        n.lemma_filter_contains(pred, i);
    }
}

/// What `count_anomalies_for_device` counts is the unresolved part of what
/// `get_anomalies_for_device` lists: the device's anomalies, kept in order,
/// without the resolved ones.
pub proof fn law_count_is_unresolved_part_of_list(s: Seq<AnomalyView>, mac: Seq<char>)
    ensures
        s.filter(anomaly_selected(Some(mac), true)) == s.filter(anomaly_selected(Some(mac), false)).filter(
            anomaly_selected(None, true),
        ),
        s.filter(anomaly_selected(Some(mac), true)).len() == s.filter(
            anomaly_selected(Some(mac), false),
        ).filter(anomaly_selected(None, true)).len(),
    decreases s.len(),
{
    let own = anomaly_selected(Some(mac), false);
    let own_open = anomaly_selected(Some(mac), true);
    let open = anomaly_selected(None, true);
    if s.len() == 0 {
        assert(s.filter(own_open) =~= Seq::<AnomalyView>::empty()) by {
            reveal(Seq::filter);
        }
        assert(s.filter(own) =~= Seq::<AnomalyView>::empty()) by {
            reveal(Seq::filter);
        }
        assert(s.filter(own).filter(open) =~= Seq::<AnomalyView>::empty()) by {
            reveal(Seq::filter);
        }
    } else {
        let t = s.drop_last();
        let x = s.last();
        assert(s =~= t.push(x));
        law_count_is_unresolved_part_of_list(t, mac);
        t.lemma_filter_push(x, own_open);
        t.lemma_filter_push(x, own);
        t.filter(own).lemma_filter_push(x, open);
    }
}

/// Pruning keeps exactly the samples not older than the cutoff.
pub proof fn law_prune_keeps_recent(s: Seq<SampleView>, cutoff: int, x: SampleView)
    ensures
        s.filter(sample_kept(cutoff)).contains(x) <==> (s.contains(x) && x.timestamp >= cutoff),
{
    let pred = sample_kept(cutoff);
    broadcast use vstd::seq_lib::group_filter_ensures;

    if s.filter(pred).contains(x) {
        let i = choose|i: int| 0 <= i < s.filter(pred).len() && s.filter(pred)[i] == x;
        s.lemma_filter_pred(pred, i);
        lemma_filter_sub(s, pred, i);
    }
    if s.contains(x) && x.timestamp >= cutoff {
        let i = choose|i: int| 0 <= i < s.len() && s[i] == x;
        s.lemma_filter_contains(pred, i);
    }
}

/// Every element of a filtered sequence comes from the sequence.
pub(crate) proof fn lemma_filter_sub<A>(s: Seq<A>, pred: spec_fn(A) -> bool, i: int)
    requires
        0 <= i < s.filter(pred).len(),
    ensures
        s.contains(s.filter(pred)[i]),
    decreases s.len(),
{
    reveal(Seq::filter);
    let f = s.filter(pred);
    let rest = s.drop_last().filter(pred);
    if pred(s.last()) && i == rest.len() {
        assert(f[i] == s.last());
        assert(s[s.len() - 1] == s.last());
    } else {
        assert(f[i] == rest[i]);
        lemma_filter_sub(s.drop_last(), pred, i);
        let j = choose|j: int| 0 <= j < s.drop_last().len() && s.drop_last()[j] == rest[i];
        assert(s[j] == rest[i]);
    }
}

/// Samples in timestamp order, oldest first.
pub open spec fn oldest_first(s: Seq<SampleView>) -> bool {
    forall|i: int, j: int| 0 <= i < j < s.len() ==> s[i].timestamp <= s[j].timestamp
}

/// Filtering samples kept oldest first keeps them oldest first.
proof fn lemma_filter_oldest_first(s: Seq<SampleView>, pred: spec_fn(SampleView) -> bool)
    requires
        oldest_first(s),
    ensures
        oldest_first(s.filter(pred)),
    decreases s.len(),
{
    if s.len() == 0 {
        assert(s.filter(pred) =~= s) by {
            reveal(Seq::filter);
        }
    } else {
        let t = s.drop_last();
        let x = s.last();
        assert(s =~= t.push(x));
        lemma_filter_oldest_first(t, pred);
        t.lemma_filter_push(x, pred);
        if pred(x) {
            let f = t.filter(pred);
            assert forall|i: int| 0 <= i < f.len() implies #[trigger] f[i].timestamp <= x.timestamp by {
                lemma_filter_sub(t, pred, i);
                let j = choose|j: int| 0 <= j < t.len() && t[j] == f[i];
                assert(s[j] == t[j]);
                assert(s[s.len() - 1] == x);
            }
            assert forall|i: int, j: int| 0 <= i < j < f.push(x).len() implies f.push(x)[i].timestamp
                <= f.push(x)[j].timestamp by {
                if j == f.len() {
                    assert(f.push(x)[i] == f[i]);
                }
            }
        }
    }
}

/// What `get_samples_for_device(mac, hours, now)` returns from a store:
/// exactly the stored samples of that MAC newer than `hours` hours before
/// `now`, oldest first.
pub proof fn law_device_samples_query(v: StoreView, mac: Seq<char>, hours: u32, now: i64, x: SampleView)
    requires
        wf(v),
    ensures
        v.samples.filter(sample_selected(Some(mac), now - hours * 3600)).contains(x) <==> (
        v.samples.contains(x) && x.mac == mac && x.timestamp > now - hours * 3600),
        oldest_first(v.samples.filter(sample_selected(Some(mac), now - hours * 3600))),
{
    let s = v.samples;
    let pred = sample_selected(Some(mac), now - hours * 3600);
    broadcast use vstd::seq_lib::group_filter_ensures;

    if s.filter(pred).contains(x) {
        let i = choose|i: int| 0 <= i < s.filter(pred).len() && s.filter(pred)[i] == x;
        s.lemma_filter_pred(pred, i);
        lemma_filter_sub(s, pred, i);
    }
    if s.contains(x) && x.mac == mac && x.timestamp > now - hours * 3600 {
        let i = choose|i: int| 0 <= i < s.len() && s[i] == x;
        s.lemma_filter_contains(pred, i);
    }
    lemma_filter_oldest_first(s, pred);
}

/// What `prune_old_samples(days, now)` leaves of a store's samples: exactly
/// those not older than `days` days before `now`, still oldest first.
pub proof fn law_prune_old_samples(v: StoreView, days: u32, now: i64, x: SampleView)
    requires
        wf(v),
    ensures
        v.samples.filter(sample_kept(now - days * 86400)).contains(x) <==> (v.samples.contains(x)
            && x.timestamp >= now - days * 86400),
        oldest_first(v.samples.filter(sample_kept(now - days * 86400))),
{
    law_prune_keeps_recent(v.samples, now - days * 86400, x);
    lemma_filter_oldest_first(v.samples, sample_kept(now - days * 86400));
}

/// A stored sample is returned by the query for its device over any window
/// that reaches back past its timestamp.
pub proof fn law_inserted_sample_visible(
    old: Seq<SampleView>,
    x: SampleView,
    new: Seq<SampleView>,
    cutoff: int,
)
    requires
        inserted_by_time(old, x, new),
        x.timestamp > cutoff,
    ensures
        new.filter(sample_selected(Some(x.mac), cutoff)).contains(x),
        new.filter(sample_selected(None, cutoff)).contains(x),
{
    let p = choose|p: int|
        0 <= p <= old.len() && new == old.insert(p, x) && (forall|j: int|
            0 <= j < p ==> old[j].timestamp <= x.timestamp) && (forall|j: int|
            p <= j < old.len() ==> old[j].timestamp > x.timestamp);
    old.insert_ensures(p, x);
    new.lemma_filter_contains(sample_selected(Some(x.mac), cutoff), p);
    new.lemma_filter_contains(sample_selected(None, cutoff), p);
}

} // verus!
