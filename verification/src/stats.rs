//! The integer side of the stats engine: what a device profile is built
//! from, which anomalies a snapshot raises against a profile, and the
//! weekly digest.
use vstd::prelude::*;
use crate::net::{ip_text, ip_to_string, is_private_ip, is_private_spec, IpAddr};
use crate::store::{lemma_filter_sub, samples_view};
use crate::capture::{distinct_keys, is_top_entries, top_entries, DeviceSnapshot, SnapshotView};
use crate::text::{chars_of, extend_chars, push_decimal, string_of};
use crate::store::{
    anomaly_in_period, anomalies_view, inserted_by_detection, profiles_after_upsert, with_anomaly_id, anomaly_selected, devices_view, display_name, names_most_active, sample_selected, time_ok,
    traffic_overflows, wf, Store, StoreError, StoreView,
};
use crate::types::{
    texts, Anomaly, AnomalyKind, AnomalyView, DestinationView, Device, DeviceProfile, DeviceView, ProfileView,
    SampleView, TrafficSample,
};

verus! {

// ---------------------------------------------------------------------------
// Clock arithmetic
// ---------------------------------------------------------------------------

/// The hour a timestamp falls in, counted from the epoch with the quotient
/// rounded toward zero (`timestamp / 3600`).
pub open spec fn hour_bucket(t: i64) -> i64 {
    if t >= 0 {
        (t as int / 3600) as i64
    } else {
        (-((-(t as int)) / 3600)) as i64
    }
}

/// The UTC hour of day of a timestamp, 0..23.
pub open spec fn hour_of_day(t: i64) -> int {
    (t as int % 86400) / 3600
}

/// The hour counted from the epoch, rounded toward zero.
pub fn hour_bucket_exec(t: i64) -> (r: i64)
    ensures
        r == hour_bucket(t),
{
    if t >= 0 {
        t / 3600
    } else {
        let a: u64 = ((-(t + 1)) as u64) + 1;
        let q: u64 = a / 3600;
        assert(q <= i64::MAX) by (nonlinear_arith)
            requires
                a <= 0x8000_0000_0000_0000u64,
                q == a / 3600,
        ;
        -(q as i64)
    }
}

/// The UTC hour of day of a timestamp.
pub fn hour_of_day_exec(t: i64) -> (r: u8)
    ensures
        r == hour_of_day(t),
        r < 24,
{
    let secs: u64 = if t >= 0 {
        let u = t as u64;
        let m = u % 86400;
        assert(m == (t as int) % 86400);
        m
    } else {
        let a: u64 = (-(t + 1)) as u64;
        let m = 86399 - (a % 86400);
        assert(m == (t as int) % 86400) by (nonlinear_arith)
            requires
                a == -(t + 1),
                t < 0,
                m == 86399 - (a % 86400),
        ;
        m
    };
    (secs / 3600) as u8
}

// ---------------------------------------------------------------------------
// Profile observation
// ---------------------------------------------------------------------------

/// Bytes sent by the samples that fall in hour of day `h`.
pub open spec fn hour_total(s: Seq<SampleView>, h: int) -> nat
    decreases s.len(),
{
    if s.len() == 0 {
        0
    } else {
        hour_total(s.drop_last(), h) + if hour_of_day(s.last().timestamp) == h {
            s.last().bytes_sent as nat
        } else {
            0
        }
    }
}

/// Number of samples that fall in hour of day `h`.
pub open spec fn hour_count(s: Seq<SampleView>, h: int) -> nat
    decreases s.len(),
{
    if s.len() == 0 {
        0
    } else {
        hour_count(s.drop_last(), h) + if hour_of_day(s.last().timestamp) == h {
            1nat
        } else {
            0
        }
    }
}

/// Whether some sample in hour of day `h` sent bytes.
pub open spec fn hour_active(s: Seq<SampleView>, h: int) -> bool {
    exists|i: int| 0 <= i < s.len() && hour_of_day(s[i].timestamp) == h && s[i].bytes_sent > 0
}

/// The hours (from the epoch) in which samples were taken.
pub open spec fn bucket_set(s: Seq<SampleView>) -> Set<i64> {
    Set::new(|b: i64| exists|i: int| 0 <= i < s.len() && hour_bucket(s[i].timestamp) == b)
}

/// Whether `t` is the text of a public destination of some sample.
pub open spec fn is_public_dest_text(s: Seq<SampleView>, t: Seq<char>) -> bool {
    exists|i: int, j: int|
        0 <= i < s.len() && 0 <= j < s[i].top_destinations.len() && !is_private_spec(
            s[i].top_destinations[j].ip,
        ) && ip_text(s[i].top_destinations[j].ip) == t
}

/// Bytes sent in one hour of day, over the samples taken in it.
#[derive(Clone, Copy, Debug)]
pub struct HourBytes {
    /// Hour of day, 0..23
    pub hour: u8,
    /// Bytes sent, summed
    pub total_sent: u128,
    /// Number of samples
    pub samples: u64,
}

/// What a device profile is built from: the integer statistics of the
/// device's samples. The baseline mean and standard deviation are the
/// floating-point mean and sample deviation of the hourly averages
/// `total_sent / samples`.
#[derive(Clone, Debug)]
pub struct ProfileObservation {
    /// Distinct hours (from the epoch) with samples
    pub observation_hours: u32,
    /// Per hour of day with samples, ascending by hour
    pub hourly: Vec<HourBytes>,
    /// Public destination IPs, as text, each once
    pub known_destinations: Vec<String>,
    /// Hours of day in which the device sent bytes, ascending
    pub active_hours: Vec<u8>,
}

/// `obs` is the observation of samples `s`.
pub open spec fn observes(s: Seq<SampleView>, obs: ProfileObservation) -> bool {
    observes_parts(
        s,
        obs.observation_hours,
        obs.hourly@,
        obs.known_destinations@,
        obs.active_hours@,
    )
}

/// The parts of an observation of samples `s`: the number of distinct hours
/// (from the epoch) with samples; per hour of day with samples, ascending,
/// the bytes sent and the number of samples; the public destination IPs as
/// text, each once; the hours of day in which bytes were sent, ascending.
pub open spec fn observes_parts(
    s: Seq<SampleView>,
    observation_hours: u32,
    hourly: Seq<HourBytes>,
    known: Seq<String>,
    active_hours: Seq<u8>,
) -> bool {
    &&& observation_hours == bucket_set(s).len() as u32
    &&& forall|k: int|
        0 <= k < hourly.len() ==> {
            let e = #[trigger] hourly[k];
            &&& e.hour < 24
            &&& hour_count(s, e.hour as int) > 0
            &&& e.total_sent == hour_total(s, e.hour as int)
            &&& e.samples == hour_count(s, e.hour as int)
        }
    &&& forall|a: int, b: int| 0 <= a < b < hourly.len() ==> hourly[a].hour < hourly[b].hour
    &&& forall|h: int|
        0 <= h < 24 && hour_count(s, h) > 0 ==> exists|k: int|
            0 <= k < hourly.len() && #[trigger] hourly[k].hour == h
    &&& forall|a: int, b: int|
        0 <= a < known.len() && 0 <= b < known.len() && a != b ==> known[a]@ != known[b]@
    &&& forall|t: Seq<char>|
        is_public_dest_text(s, t) <==> exists|k: int| 0 <= k < known.len() && (#[trigger] known[k])@ == t
    &&& forall|a: int, b: int| 0 <= a < b < active_hours.len() ==> active_hours[a] < active_hours[b]
    &&& forall|h: int| 0 <= h < 24 ==> (hour_active(s, h) <==> active_hours.contains(h as u8))
    &&& forall|k: int| 0 <= k < active_hours.len() ==> active_hours[k] < 24
}

/// Whether `t` is the text of a public destination before position (i, j):
/// in a sample before `i`, or among the first `j` destinations of sample `i`.
pub open spec fn public_text_before(s: Seq<SampleView>, i: int, j: int, t: Seq<char>) -> bool {
    exists|a: int, b: int|
        0 <= a < s.len() && 0 <= b < s[a].top_destinations.len() && (a < i || (a == i && b < j))
            && !is_private_spec(s[a].top_destinations[b].ip) && ip_text(s[a].top_destinations[b].ip)
            == t
}

proof fn lemma_public_text_step(s: Seq<SampleView>, i: int, j: int, t: Seq<char>)
    requires
        0 <= i < s.len(),
        0 <= j < s[i].top_destinations.len(),
    ensures
        public_text_before(s, i, j + 1, t) == (public_text_before(s, i, j, t) || (!is_private_spec(
            s[i].top_destinations[j].ip,
        ) && ip_text(s[i].top_destinations[j].ip) == t)),
{
    if public_text_before(s, i, j + 1, t) {
        let (a, b) = choose|a: int, b: int|
            0 <= a < s.len() && 0 <= b < s[a].top_destinations.len() && (a < i || (a == i && b < j
                + 1)) && !is_private_spec(s[a].top_destinations[b].ip) && ip_text(
                s[a].top_destinations[b].ip,
            ) == t;
        if !(a == i && b == j) {
            assert(public_text_before(s, i, j, t));
        }
    }
    if public_text_before(s, i, j, t) {
        let (a, b) = choose|a: int, b: int|
            0 <= a < s.len() && 0 <= b < s[a].top_destinations.len() && (a < i || (a == i && b < j))
                && !is_private_spec(s[a].top_destinations[b].ip) && ip_text(
                s[a].top_destinations[b].ip,
            ) == t;
        assert(public_text_before(s, i, j + 1, t));
    }
    if !is_private_spec(s[i].top_destinations[j].ip) && ip_text(s[i].top_destinations[j].ip) == t {
        assert(public_text_before(s, i, j + 1, t));
    }
}

proof fn lemma_public_text_row(s: Seq<SampleView>, i: int, t: Seq<char>)
    requires
        0 <= i < s.len(),
    ensures
        public_text_before(s, i + 1, 0, t) == public_text_before(
            s,
            i,
            s[i].top_destinations.len() as int,
            t,
        ),
{
    if public_text_before(s, i + 1, 0, t) {
        let (a, b) = choose|a: int, b: int|
            0 <= a < s.len() && 0 <= b < s[a].top_destinations.len() && (a < i + 1 || (a == i + 1
                && b < 0)) && !is_private_spec(s[a].top_destinations[b].ip) && ip_text(
                s[a].top_destinations[b].ip,
            ) == t;
        assert(public_text_before(s, i, s[i].top_destinations.len() as int, t));
    }
    if public_text_before(s, i, s[i].top_destinations.len() as int, t) {
        let (a, b) = choose|a: int, b: int|
            0 <= a < s.len() && 0 <= b < s[a].top_destinations.len() && (a < i || (a == i && b
                < s[i].top_destinations.len())) && !is_private_spec(s[a].top_destinations[b].ip)
                && ip_text(s[a].top_destinations[b].ip) == t;
        assert(public_text_before(s, i + 1, 0, t));
    }
}

/// The public destination IPs of the samples, as text, each once.
fn public_dest_texts(v: &Vec<TrafficSample>) -> (r: Vec<String>)
    ensures
        forall|a: int, b: int| 0 <= a < r@.len() && 0 <= b < r@.len() && a != b ==> r@[a]@ != r@[b]@,
        forall|t: Seq<char>|
            is_public_dest_text(samples_view(v@), t) <==> exists|k: int|
                0 <= k < r@.len() && (#[trigger] r@[k])@ == t,
{
    let ghost s = samples_view(v@);
    let mut r: Vec<String> = Vec::new();
    let mut i: usize = 0;
    while i < v.len()
        invariant
            i <= v.len(),
            s == samples_view(v@),
            forall|a: int, b: int|
                0 <= a < r@.len() && 0 <= b < r@.len() && a != b ==> r@[a]@ != r@[b]@,
            forall|k: int| 0 <= k < r@.len() ==> public_text_before(s, i as int, 0, (#[trigger] r@[k])@),
            forall|t: Seq<char>|
                #[trigger] public_text_before(s, i as int, 0, t) ==> exists|k: int|
                    0 <= k < r@.len() && (#[trigger] r@[k])@ == t,
        decreases v.len() - i,
    {
        let ds = &v[i].top_destinations;
        assert(s[i as int].top_destinations == crate::types::destinations_view(ds@));
        let mut j: usize = 0;
        while j < ds.len()
            invariant
                i < v.len(),
                j <= ds.len(),
                s == samples_view(v@),
                ds == v@[i as int].top_destinations,
                s[i as int].top_destinations == crate::types::destinations_view(ds@),
                forall|a: int, b: int|
                    0 <= a < r@.len() && 0 <= b < r@.len() && a != b ==> r@[a]@ != r@[b]@,
                forall|k: int|
                    0 <= k < r@.len() ==> public_text_before(s, i as int, j as int, (#[trigger] r@[k])@),
                forall|t: Seq<char>|
                    #[trigger] public_text_before(s, i as int, j as int, t) ==> exists|k: int|
                        0 <= k < r@.len() && (#[trigger] r@[k])@ == t,
            decreases ds.len() - j,
        {
            let ip = ds[j].ip;
            assert(s[i as int].top_destinations[j as int].ip == ip);
            let ghost before = r@;
            if !is_private_ip(&ip) {
                let t = ip_to_string(&ip);
                if !known_contains(&r, &t) {
                    r.push(t);
                    proof {
                        assert forall|a: int, b: int|
                            0 <= a < r@.len() && 0 <= b < r@.len() && a != b implies r@[a]@
                            != r@[b]@ by {
                            if a == before.len() {
                                assert(crate::types::texts(before)[b] == before[b]@);
                            }
                            if b == before.len() {
                                assert(crate::types::texts(before)[a] == before[a]@);
                            }
                        }
                    }
                } else {
                    proof {
                        let m = choose|m: int| 0 <= m < crate::types::texts(r@).len()
                            && crate::types::texts(r@)[m] == t@;
                        assert(r@[m]@ == t@);
                    }
                }
            }
            proof {
                assert forall|k: int| 0 <= k < r@.len() implies public_text_before(
                    s,
                    i as int,
                    j + 1,
                    (#[trigger] r@[k])@,
                ) by {
                    lemma_public_text_step(s, i as int, j as int, r@[k]@);
                }
                assert forall|t: Seq<char>| #[trigger] public_text_before(s, i as int, j + 1, t)
                    implies exists|k: int| 0 <= k < r@.len() && (#[trigger] r@[k])@ == t by {
                    lemma_public_text_step(s, i as int, j as int, t);
                    if public_text_before(s, i as int, j as int, t) {
                        let k = choose|k: int| 0 <= k < before.len() && (#[trigger] before[k])@ == t;
                        assert(r@[k] == before[k]);
                    } else {
                        if r@.len() > before.len() {
                            assert(r@[before.len() as int]@ == t);
                        } else {
                            let k = choose|k: int| 0 <= k < r@.len() && (#[trigger] r@[k])@ == ip_text(ip);
                        }
                    }
                }
            }
            j = j + 1;
        }
        proof {
            assert forall|k: int| 0 <= k < r@.len() implies public_text_before(
                s,
                i + 1,
                0,
                (#[trigger] r@[k])@,
            ) by {
                lemma_public_text_row(s, i as int, r@[k]@);
            }
            assert forall|t: Seq<char>| #[trigger] public_text_before(s, i + 1, 0, t) implies exists|
                k: int,
            | 0 <= k < r@.len() && (#[trigger] r@[k])@ == t by {
                lemma_public_text_row(s, i as int, t);
            }
        }
        i = i + 1;
    }
    proof {
        assert forall|t: Seq<char>| is_public_dest_text(s, t) == public_text_before(
            s,
            s.len() as int,
            0,
            t,
        ) by {
            if is_public_dest_text(s, t) {
                let (a, b) = choose|a: int, b: int|
                    0 <= a < s.len() && 0 <= b < s[a].top_destinations.len() && !is_private_spec(
                        s[a].top_destinations[b].ip,
                    ) && ip_text(s[a].top_destinations[b].ip) == t;
                assert(public_text_before(s, s.len() as int, 0, t));
            }
            if public_text_before(s, s.len() as int, 0, t) {
                let (a, b) = choose|a: int, b: int|
                    0 <= a < s.len() && 0 <= b < s[a].top_destinations.len() && (a < s.len() || (a
                        == s.len() && b < 0)) && !is_private_spec(s[a].top_destinations[b].ip)
                        && ip_text(s[a].top_destinations[b].ip) == t;
                assert(is_public_dest_text(s, t));
            }
        }
    }
    r
}

fn i64_contains(v: &Vec<i64>, x: i64) -> (r: bool)
    ensures
        r == v@.contains(x),
{
    let mut k: usize = 0;
    while k < v.len()
        invariant
            k <= v.len(),
            forall|m: int| 0 <= m < k ==> v@[m] != x,
        decreases v.len() - k,
    {
        if v[k] == x {
            return true;
        }
        k = k + 1;
    }
    false
}

/// The hours (from the epoch) in which the samples were taken, each once.
fn distinct_buckets(v: &Vec<TrafficSample>) -> (r: Vec<i64>)
    ensures
        r@.no_duplicates(),
        r@.to_set() == bucket_set(samples_view(v@)),
{
    let ghost s = samples_view(v@);
    let mut r: Vec<i64> = Vec::new();
    let mut i: usize = 0;
    while i < v.len()
        invariant
            i <= v.len(),
            s == samples_view(v@),
            r@.no_duplicates(),
            forall|b: i64|
                r@.contains(b) <==> exists|k: int| 0 <= k < i && hour_bucket(#[trigger] s[k].timestamp) == b,
        decreases v.len() - i,
    {
        let b = hour_bucket_exec(v[i].timestamp);
        assert(s[i as int].timestamp == v@[i as int].timestamp);
        let ghost before = r@;
        if !i64_contains(&r, b) {
            r.push(b);
            proof {
                assert forall|x: int, y: int| 0 <= x < r@.len() && 0 <= y < r@.len() && x != y implies r@[x] != r@[y] by {
                    if x == before.len() {
                        assert(r@[y] == before[y]);
                        if r@[x] == r@[y] {
                            assert(before.contains(b));
                        }
                    } else if y == before.len() {
                        assert(r@[x] == before[x]);
                        if r@[x] == r@[y] {
                            assert(before.contains(b));
                        }
                    } else {
                        assert(r@[x] == before[x]);
                        assert(r@[y] == before[y]);
                    }
                }
            }
        }
        proof {
            assert forall|c: i64| r@.contains(c) implies exists|k: int| 0 <= k < i + 1 && hour_bucket(#[trigger] s[k].timestamp) == c by {
                if before.contains(c) {
                } else {
                    assert(c == b);
                    assert(hour_bucket(s[i as int].timestamp) == c);
                }
            }
            assert forall|c: i64| (exists|k: int| 0 <= k < i + 1 && hour_bucket(#[trigger] s[k].timestamp) == c) implies r@.contains(c) by {
                let k = choose|k: int| 0 <= k < i + 1 && hour_bucket(#[trigger] s[k].timestamp) == c;
                if k < i {
                    assert(before.contains(c));
                    let m = choose|m: int| 0 <= m < before.len() && before[m] == c;
                    assert(r@[m] == c);
                } else {
                    if before.contains(b) {
                        let m = choose|m: int| 0 <= m < before.len() && before[m] == b;
                        assert(r@[m] == c);
                    } else {
                        assert(r@[before.len() as int] == c);
                    }
                }
            }
        }
        i = i + 1;
    }
    assert(r@.to_set() =~= bucket_set(s));
    r
}

/// Bytes sent and samples taken in hour of day `h`, and whether any of
/// them sent bytes.
fn hour_stats(v: &Vec<TrafficSample>, h: u8) -> (r: (u128, u64, bool))
    ensures
        r.0 == hour_total(samples_view(v@), h as int),
        r.1 == hour_count(samples_view(v@), h as int),
        r.2 == hour_active(samples_view(v@), h as int),
{
    let ghost s = samples_view(v@);
    let mut total: u128 = 0;
    let mut count: u64 = 0;
    let mut active = false;
    let mut i: usize = 0;
    while i < v.len()
        invariant
            i <= v.len(),
            s == samples_view(v@),
            total == hour_total(s.take(i as int), h as int),
            total <= i * 0xFFFF_FFFF_FFFF_FFFFu128,
            count == hour_count(s.take(i as int), h as int),
            count <= i,
            active == hour_active(s.take(i as int), h as int),
        decreases v.len() - i,
    {
        let ghost p = s.take(i as int);
        let ghost q = s.take(i + 1);
        proof {
            assert(q.drop_last() =~= p);
            assert(q.last() == v@[i as int]@);
            assert forall|k: int| 0 <= k < i implies q[k] == p[k] by {}
        }
        let x = &v[i];
        if hour_of_day_exec(x.timestamp) == h {
            total = total + (x.bytes_sent as u128);
            count = count + 1;
            if x.bytes_sent > 0 {
                active = true;
                assert(q[i as int].bytes_sent > 0 && hour_of_day(q[i as int].timestamp) == h);
            }
        }
        proof {
            if hour_active(q, h as int) {
                let k = choose|k: int| 0 <= k < q.len() && hour_of_day(q[k].timestamp) == h && q[k].bytes_sent > 0;
                if k < i {
                    assert(hour_active(p, h as int));
                }
            }
            if hour_active(p, h as int) {
                let k = choose|k: int| 0 <= k < p.len() && hour_of_day(p[k].timestamp) == h && p[k].bytes_sent > 0;
                assert(q[k] == p[k]);
            }
        }
        i = i + 1;
    }
    assert(s.take(v.len() as int) =~= s);
    (total, count, active)
}

/// The integer statistics a device profile is built from.
pub fn observe_profile(v: &Vec<TrafficSample>) -> (r: ProfileObservation)
    ensures
        observes(samples_view(v@), r),
{
    let ghost s = samples_view(v@);
    let buckets = distinct_buckets(v);
    proof {
        buckets@.unique_seq_to_set();
    }
    let mut hourly: Vec<HourBytes> = Vec::new();
    let mut active: Vec<u8> = Vec::new();
    let mut h: u8 = 0;
    while h < 24
        invariant
            h <= 24,
            s == samples_view(v@),
            forall|k: int|
                0 <= k < hourly@.len() ==> {
                    let e = #[trigger] hourly@[k];
                    &&& e.hour < h
                    &&& hour_count(s, e.hour as int) > 0
                    &&& e.total_sent == hour_total(s, e.hour as int)
                    &&& e.samples == hour_count(s, e.hour as int)
                },
            forall|a: int, b: int| 0 <= a < b < hourly@.len() ==> hourly@[a].hour < hourly@[b].hour,
            forall|hh: int|
                0 <= hh < h && hour_count(s, hh) > 0 ==> exists|k: int|
                    0 <= k < hourly@.len() && #[trigger] hourly@[k].hour == hh,
            forall|a: int, b: int| 0 <= a < b < active@.len() ==> active@[a] < active@[b],
            forall|k: int| 0 <= k < active@.len() ==> active@[k] < h,
            forall|hh: int| 0 <= hh < h ==> (hour_active(s, hh) <==> active@.contains(hh as u8)),
        decreases 24 - h,
    {
        let (t, c, a) = hour_stats(v, h);
        let ghost hb = hourly@;
        let ghost ab = active@;
        if c > 0 {
            hourly.push(HourBytes { hour: h, total_sent: t, samples: c });
            proof {
                assert forall|hh: int|
                    0 <= hh < h + 1 && hour_count(s, hh) > 0 implies exists|k: int|
                    0 <= k < hourly@.len() && #[trigger] hourly@[k].hour == hh by {
                    if hh < h {
                        let k = choose|k: int| 0 <= k < hb.len() && #[trigger] hb[k].hour == hh;
                        assert(hourly@[k] == hb[k]);
                    } else {
                        assert(hourly@[hb.len() as int].hour == hh);
                    }
                }
            }
        }
        if a {
            active.push(h);
        }
        proof {
            assert forall|hh: int| 0 <= hh < h + 1 implies (hour_active(s, hh) <==> active@.contains(hh as u8)) by {
                if hh < h {
                    if ab.contains(hh as u8) {
                        let k = choose|k: int| 0 <= k < ab.len() && ab[k] == hh as u8;
                        assert(active@[k] == hh as u8);
                    }
                    if active@.contains(hh as u8) {
                        let k = choose|k: int| 0 <= k < active@.len() && active@[k] == hh as u8;
                        if k < ab.len() {
                            assert(ab[k] == hh as u8);
                        }
                    }
                } else {
                    if active@.contains(hh as u8) {
                        let k = choose|k: int| 0 <= k < active@.len() && active@[k] == hh as u8;
                        if k < ab.len() {
                            assert(ab[k] < h);
                        }
                    }
                    if a {
                        assert(active@[ab.len() as int] == h);
                    }
                }
            }
        }
        h = h + 1;
    }
    let known = public_dest_texts(v);
    ProfileObservation {
        observation_hours: buckets.len() as u32,
        hourly,
        known_destinations: known,
        active_hours: active,
    }
}

// ---------------------------------------------------------------------------
// Anomaly detection
// ---------------------------------------------------------------------------

/// An anomaly a snapshot raises against its device's profile.
#[derive(Clone, Copy, Debug, PartialEq, Eq, Structural)]
pub enum Finding {
    /// More bytes sent than the baseline allows
    ExcessiveUpload,
    /// A public destination not among the known ones
    NewDestination(IpAddr),
    /// Traffic in an hour of day outside the active hours
    UnusualHour(u8),
}

/// A profile is mature after 72 hours of observation.
pub open spec fn is_mature(p: Option<ProfileView>) -> bool {
    p is Some && p->0.observation_hours >= 72
}

/// The new-destination findings of a snapshot's destinations: one per
/// public destination whose text is not known, in order.
pub open spec fn new_destination_findings(d: Seq<(IpAddr, u64)>, known: Seq<Seq<char>>) -> Seq<Finding>
    decreases d.len(),
{
    if d.len() == 0 {
        Seq::empty()
    } else {
        let prev = new_destination_findings(d.drop_last(), known);
        let ip = d.last().0;
        if !is_private_spec(ip) && !known.contains(ip_text(ip)) {
            prev.push(Finding::NewDestination(ip))
        } else {
            prev
        }
    }
}

/// Whether a snapshot's traffic counts as activity outside the active hours.
pub open spec fn unusual_hour(p: ProfileView, snap: SnapshotView, hour: u8) -> bool {
    !p.active_hours.contains(hour) && snap.bytes_sent + snap.bytes_recv > 1000
}

/// The findings of a snapshot against a profile, in the order they are
/// raised: none unless the profile is mature; then an excessive upload when
/// the upload exceeds the baseline, a new destination per unknown public
/// destination, and an unusual hour when the device was active outside its
/// active hours with more than 1000 bytes.
pub open spec fn expected_findings(
    p: Option<ProfileView>,
    snap: SnapshotView,
    now: i64,
    upload_exceeds_baseline: bool,
) -> Seq<Finding> {
    if !is_mature(p) {
        Seq::empty()
    } else {
        let pv = p->0;
        let h = hour_of_day(now) as u8;
        (if upload_exceeds_baseline {
            seq![Finding::ExcessiveUpload]
        } else {
            Seq::empty()
        }) + new_destination_findings(snap.destinations, pv.known_destinations) + (if unusual_hour(
            pv,
            snap,
            h,
        ) {
            seq![Finding::UnusualHour(h)]
        } else {
            Seq::empty()
        })
    }
}

/// The view of an optional profile.
pub open spec fn opt_profile_view(p: Option<DeviceProfile>) -> Option<ProfileView> {
    match p {
        Some(x) => Some(x@),
        None => None,
    }
}

fn known_contains(known: &Vec<String>, t: &String) -> (r: bool)
    ensures
        r == crate::types::texts(known@).contains(t@),
{
    let mut k: usize = 0;
    while k < known.len()
        invariant
            k <= known.len(),
            forall|m: int| 0 <= m < k ==> known@[m]@ != t@,
        decreases known.len() - k,
    {
        if known[k] == *t {
            assert(crate::types::texts(known@)[k as int] == t@);
            return true;
        }
        k = k + 1;
    }
    assert forall|m: int| 0 <= m < crate::types::texts(known@).len() implies crate::types::texts(
        known@,
    )[m] != t@ by {}
    false
}

fn hours_contains(hours: &Vec<u8>, h: u8) -> (r: bool)
    ensures
        r == hours@.contains(h),
{
    let mut k: usize = 0;
    while k < hours.len()
        invariant
            k <= hours.len(),
            forall|m: int| 0 <= m < k ==> hours@[m] != h,
        decreases hours.len() - k,
    {
        if hours[k] == h {
            return true;
        }
        k = k + 1;
    }
    false
}

/// The anomalies a snapshot raises against its device's profile at time
/// `now`. Whether the upload exceeds the baseline (mean plus three standard
/// deviations, when positive) is decided by the caller.
pub fn detect_anomalies(
    profile: &Option<DeviceProfile>,
    snap: &DeviceSnapshot,
    now: i64,
    upload_exceeds_baseline: bool,
) -> (r: Vec<Finding>)
    ensures
        r@ == expected_findings(opt_profile_view(*profile), snap@, now, upload_exceeds_baseline),
{
    let mut r: Vec<Finding> = Vec::new();
    let p = match profile {
        Some(p) => {
            if p.observation_hours >= 72 {
                p
            } else {
                assert(r@ =~= Seq::<Finding>::empty());
                return r;
            }
        },
        None => {
            assert(r@ =~= Seq::<Finding>::empty());
            return r;
        },
    };
    if upload_exceeds_baseline {
        r.push(Finding::ExcessiveUpload);
    }
    let ghost head = r@;
    let ghost known = p@.known_destinations;
    let d = &snap.destinations;
    let mut i: usize = 0;
    while i < d.len()
        invariant
            i <= d.len(),
            known == p@.known_destinations,
            r@ == head + new_destination_findings(d@.take(i as int), known),
        decreases d.len() - i,
    {
        assert(d@.take(i + 1).drop_last() =~= d@.take(i as int));
        assert(d@.take(i + 1).last() == d@[i as int]);
        let ip = d[i].0;
        if !is_private_ip(&ip) {
            let t = ip_to_string(&ip);
            if !known_contains(&p.known_destinations, &t) {
                r.push(Finding::NewDestination(ip));
            }
        }
        assert(r@ =~= head + new_destination_findings(d@.take(i + 1), known));
        i = i + 1;
    }
    assert(d@.take(d.len() as int) =~= d@);
    let h = hour_of_day_exec(now);
    let busy = snap.bytes_sent > 1000 || snap.bytes_recv > 1000 - snap.bytes_sent;
    if !hours_contains(&p.active_hours, h) && busy {
        r.push(Finding::UnusualHour(h));
    }
    assert(r@ =~= expected_findings(opt_profile_view(*profile), snap@, now, upload_exceeds_baseline));
    r
}

/// Detail text of a new-destination anomaly: "New destination: <ip>".
pub fn new_destination_detail(ip: &IpAddr) -> (s: String)
    ensures
        s@ == "New destination: "@ + ip_text(*ip),
{
    let mut s = String::from_str("New destination: ");
    let t = ip_to_string(ip);
    s.append(t.as_str());
    s
}

/// Detail text of an unusual-hour anomaly: "Active at <h>:00 — outside
/// normal hours".
pub fn unusual_hour_detail(hour: u8) -> (s: String)
    ensures
        s@ == "Active at "@ + crate::text::decimal(hour as nat) + ":00 — outside normal hours"@,
{
    let mut v = chars_of("Active at ");
    push_decimal(&mut v, hour as u64);
    let tail = chars_of(":00 — outside normal hours");
    extend_chars(&mut v, &tail);
    string_of(&v)
}

/// The anomaly record of a finding for a device at a time, not yet stored;
/// the detail of an excessive upload is given by the caller.
pub open spec fn finding_view(mac: Seq<char>, detected_at: i64, finding: Finding, upload_detail: Seq<
    char,
>) -> AnomalyView {
    let (kind, detail) = match finding {
        Finding::ExcessiveUpload => (AnomalyKind::ExcessiveUpload, upload_detail),
        Finding::NewDestination(ip) => (AnomalyKind::NewDestination, "New destination: "@ + ip_text(
            ip,
        )),
        Finding::UnusualHour(h) => (AnomalyKind::UnusualHour, "Active at "@ + crate::text::decimal(
            h as nat,
        ) + ":00 — outside normal hours"@),
    };
    AnomalyView { id: None, mac, detected_at, kind, detail, resolved: false }
}

/// The anomaly record of a finding for a device at a time; the detail of an
/// excessive upload is given by the caller.
pub fn finding_anomaly(mac: &str, detected_at: i64, finding: &Finding, upload_detail: &str) -> (a: Anomaly)
    ensures
        a@ == finding_view(mac@, detected_at, *finding, upload_detail@),
{
    let (kind, detail) = match finding {
        Finding::ExcessiveUpload => (AnomalyKind::ExcessiveUpload, String::from_str(upload_detail)),
        Finding::NewDestination(ip) => (AnomalyKind::NewDestination, new_destination_detail(ip)),
        Finding::UnusualHour(h) => (AnomalyKind::UnusualHour, unusual_hour_detail(*h)),
    };
    Anomaly { id: None, mac: String::from_str(mac), detected_at, kind, detail, resolved: false }
}

/// An hour of day is active in an observation exactly when some sample
/// taken in that hour (UTC, `timestamp mod 86400` divided by 3600) sent
/// bytes; samples that only received bytes never make an hour active, so
/// with no bytes sent at all no hour is active.
pub proof fn law_active_hours_are_upload_hours(s: Seq<SampleView>, obs: ProfileObservation, h: int)
    requires
        observes(s, obs),
        0 <= h < 24,
    ensures
        obs.active_hours@.contains(h as u8) <==> exists|i: int|
            0 <= i < s.len() && (#[trigger] s[i]).bytes_sent > 0 && (s[i].timestamp as int % 86400)
                / 3600 == h,
        (forall|i: int| 0 <= i < s.len() ==> (#[trigger] s[i]).bytes_sent == 0)
            ==> obs.active_hours@.len() == 0,
{
    assert(obs.active_hours@.contains(h as u8) <==> hour_active(s, h));
    if hour_active(s, h) {
        let i = choose|i: int| 0 <= i < s.len() && hour_of_day(s[i].timestamp) == h && s[i].bytes_sent > 0;
        assert(s[i].bytes_sent > 0 && (s[i].timestamp as int % 86400) / 3600 == h);
    }
    if exists|i: int|
        0 <= i < s.len() && (#[trigger] s[i]).bytes_sent > 0 && (s[i].timestamp as int % 86400) / 3600
            == h {
        let i = choose|i: int|
            0 <= i < s.len() && (#[trigger] s[i]).bytes_sent > 0 && (s[i].timestamp as int % 86400)
                / 3600 == h;
        assert(hour_of_day(s[i].timestamp) == h);
    }
    if forall|i: int| 0 <= i < s.len() ==> (#[trigger] s[i]).bytes_sent == 0 {
        if obs.active_hours@.len() > 0 {
            let x = obs.active_hours@[0];
            assert(obs.active_hours@.contains(x));
            assert(hour_active(s, x as int));
        }
    }
}

/// A profile younger than 72 hours of observation raises no anomaly.
pub proof fn law_immature_profile_silent(
    p: Option<ProfileView>,
    snap: SnapshotView,
    now: i64,
    upload_exceeds_baseline: bool,
)
    requires
        !is_mature(p),
    ensures
        expected_findings(p, snap, now, upload_exceeds_baseline).len() == 0,
{
}

/// A destination raises a new-destination anomaly exactly when it is
/// public and its text is not among the known destinations: private
/// addresses and known destinations never do.
pub proof fn law_new_destination_iff(d: Seq<(IpAddr, u64)>, known: Seq<Seq<char>>, ip: IpAddr)
    ensures
        new_destination_findings(d, known).contains(Finding::NewDestination(ip)) <==> (exists|
            j: int,
        | 0 <= j < d.len() && (#[trigger] d[j]).0 == ip) && !is_private_spec(ip) && !known.contains(
            ip_text(ip),
        ),
    decreases d.len(),
{
    if d.len() > 0 {
        let prev = new_destination_findings(d.drop_last(), known);
        law_new_destination_iff(d.drop_last(), known, ip);
        let last = d.last().0;
        let f = new_destination_findings(d, known);
        if f.contains(Finding::NewDestination(ip)) {
            let k = choose|k: int| 0 <= k < f.len() && f[k] == Finding::NewDestination(ip);
            if k < prev.len() {
                assert(prev[k] == f[k]);
                let j = choose|j: int| 0 <= j < d.drop_last().len() && (#[trigger] d.drop_last()[j]).0 == ip;
                assert(d[j] == d.drop_last()[j]);
            } else {
                assert(d[d.len() - 1].0 == ip);
            }
        }
        if (exists|j: int| 0 <= j < d.len() && (#[trigger] d[j]).0 == ip) && !is_private_spec(ip)
            && !known.contains(ip_text(ip)) {
            let j = choose|j: int| 0 <= j < d.len() && (#[trigger] d[j]).0 == ip;
            if j < d.len() - 1 {
                assert(d.drop_last()[j] == d[j]);
                let k = choose|k: int| 0 <= k < prev.len() && prev[k] == Finding::NewDestination(ip);
                assert(f[k] == prev[k]);
            } else {
                assert(f[f.len() - 1] == Finding::NewDestination(ip));
            }
        }
    }
}

// ---------------------------------------------------------------------------
// Weekly digest: bytes per country
// ---------------------------------------------------------------------------

/// Bytes to destinations located in country `c`.
pub open spec fn dest_country_total(d: Seq<DestinationView>, c: Seq<char>) -> nat
    decreases d.len(),
{
    if d.len() == 0 {
        0
    } else {
        dest_country_total(d.drop_last(), c) + if d.last().country == Some(c) {
            d.last().bytes as nat
        } else {
            0
        }
    }
}

/// Bytes to destinations located in country `c`, over samples.
pub open spec fn country_total(s: Seq<SampleView>, c: Seq<char>) -> nat
    decreases s.len(),
{
    if s.len() == 0 {
        0
    } else {
        country_total(s.drop_last(), c) + dest_country_total(s.last().top_destinations, c)
    }
}

/// Whether some destination of the samples is located in country `c`.
pub open spec fn has_country(s: Seq<SampleView>, c: Seq<char>) -> bool {
    exists|i: int, j: int|
        0 <= i < s.len() && 0 <= j < s[i].top_destinations.len()
            && s[i].top_destinations[j].country == Some(c)
}

/// `list` names each country of the samples once, with its bytes.
pub open spec fn is_country_totals(s: Seq<SampleView>, list: Seq<(Seq<char>, u64)>) -> bool {
    &&& distinct_keys(list)
    &&& forall|k: int|
        0 <= k < list.len() ==> (#[trigger] list[k]).1 == country_total(s, list[k].0)
            && has_country(s, list[k].0)
    &&& forall|c: Seq<char>| has_country(s, c) ==> exists|k: int| 0 <= k < list.len() && (#[trigger] list[k]).0 == c
}

/// Bytes to country `c` over the samples before `i` and the first `j`
/// destinations of sample `i`.
pub open spec fn partial_country_total(s: Seq<SampleView>, i: int, j: int, c: Seq<char>) -> nat {
    country_total(s.take(i), c) + if i < s.len() {
        dest_country_total(s[i].top_destinations.take(j), c)
    } else {
        0
    }
}

/// Whether a destination before position (i, j) is located in country `c`.
pub open spec fn seen_country(s: Seq<SampleView>, i: int, j: int, c: Seq<char>) -> bool {
    exists|a: int, b: int|
        0 <= a < s.len() && 0 <= b < s[a].top_destinations.len() && (a < i || (a == i && b < j))
            && s[a].top_destinations[b].country == Some(c)
}

proof fn lemma_dest_total_prefix(d: Seq<DestinationView>, c: Seq<char>, j: int)
    requires
        0 <= j <= d.len(),
    ensures
        dest_country_total(d.take(j), c) <= dest_country_total(d, c),
    decreases d.len(),
{
    if j < d.len() {
        lemma_dest_total_prefix(d.drop_last(), c, j);
        assert(d.drop_last().take(j) =~= d.take(j));
    } else {
        assert(d.take(j) =~= d);
    }
}

proof fn lemma_country_total_prefix(s: Seq<SampleView>, c: Seq<char>, i: int)
    requires
        0 <= i <= s.len(),
    ensures
        country_total(s.take(i), c) <= country_total(s, c),
    decreases s.len(),
{
    if i < s.len() {
        lemma_country_total_prefix(s.drop_last(), c, i);
        assert(s.drop_last().take(i) =~= s.take(i));
    } else {
        assert(s.take(i) =~= s);
    }
}

/// The partial total never exceeds the total.
proof fn lemma_partial_le_total(s: Seq<SampleView>, i: int, j: int, c: Seq<char>)
    requires
        0 <= i < s.len(),
        0 <= j <= s[i].top_destinations.len(),
    ensures
        partial_country_total(s, i, j, c) <= country_total(s, c),
{
    lemma_dest_total_prefix(s[i].top_destinations, c, j);
    lemma_country_total_prefix(s, c, i + 1);
    assert(s.take(i + 1).drop_last() =~= s.take(i));
    assert(s.take(i + 1).last() == s[i]);
}

/// How one destination `d` changes a list of (country, bytes) entries:
/// its bytes go to the entry of its country, or to a new entry at the end.
spec fn country_step(before: Seq<(String, u64)>, after: Seq<(String, u64)>, d: DestinationView) -> bool {
    &&& after.len() == before.len() || after.len() == before.len() + 1
    &&& forall|k: int|
        0 <= k < before.len() ==> (#[trigger] after[k]).0@ == before[k].0@ && after[k].1 == before[k].1
            + if d.country == Some(before[k].0@) {
            d.bytes as int
        } else {
            0
        }
    &&& after.len() == before.len() + 1 ==> d.country == Some(after[before.len() as int].0@)
        && after[before.len() as int].1 == d.bytes && forall|k: int|
        0 <= k < before.len() ==> (#[trigger] before[k]).0@ != after[before.len() as int].0@
    &&& (after.len() == before.len() && d.country is Some) ==> exists|k: int|
        0 <= k < before.len() && (#[trigger] before[k]).0@ == d.country->0
}

fn find_country(list: &Vec<(String, u64)>, c: &String) -> (r: Option<usize>)
    ensures
        match r {
            Some(k) => k < list@.len() && list@[k as int].0@ == c@,
            None => forall|k: int| 0 <= k < list@.len() ==> list@[k].0@ != c@,
        },
{
    let mut k: usize = 0;
    while k < list.len()
        invariant
            k <= list.len(),
            forall|m: int| 0 <= m < k ==> list@[m].0@ != c@,
        decreases list.len() - k,
    {
        if list[k].0 == *c {
            return Some(k);
        }
        k = k + 1;
    }
    None
}

/// The names and bytes of a list of (country, bytes) entries.
pub open spec fn country_list_view(v: Seq<(String, u64)>) -> Seq<(Seq<char>, u64)> {
    v.map_values(|e: (String, u64)| (e.0@, e.1))
}

/// Bytes per country over the samples, each country once; `Err` when a
/// country's bytes exceed `u64::MAX`.
pub fn country_totals(v: &Vec<TrafficSample>) -> (r: Result<Vec<(String, u64)>, StoreError>)
    ensures
        match r {
            Ok(list) => is_country_totals(samples_view(v@), country_list_view(list@)),
            Err(e) => e == StoreError::IntegerOverflow && exists|c: Seq<char>|
                has_country(samples_view(v@), c) && country_total(samples_view(v@), c)
                    > u64::MAX,
        },
{
    let ghost s = samples_view(v@);
    let mut list: Vec<(String, u64)> = Vec::new();
    let mut i: usize = 0;
    proof {
        assert(s.take(0) =~= Seq::<SampleView>::empty());
    }
    while i < v.len()
        invariant
            i <= v.len(),
            s == samples_view(v@),
            distinct_keys(country_list_view(list@)),
            forall|k: int|
                0 <= k < list@.len() ==> (#[trigger] list@[k]).1 == partial_country_total(
                    s,
                    i as int,
                    0,
                    list@[k].0@,
                ) && seen_country(s, i as int, 0, list@[k].0@),
            forall|c: Seq<char>|
                seen_country(s, i as int, 0, c) ==> exists|k: int|
                    0 <= k < list@.len() && (#[trigger] list@[k]).0@ == c,
            forall|c: Seq<char>|
                #[trigger] partial_country_total(s, i as int, 0, c) > 0 ==> seen_country(
                    s,
                    i as int,
                    0,
                    c,
                ),
        decreases v.len() - i,
    {
        let ds = &v[i].top_destinations;
        assert(s[i as int].top_destinations == crate::types::destinations_view(ds@));
        let mut j: usize = 0;
        assert forall|c: Seq<char>| #[trigger] partial_country_total(s, i as int, 0, c) == country_total(s.take(i as int), c) by {
            assert(s[i as int].top_destinations.take(0) =~= Seq::<DestinationView>::empty());
        }
        while j < ds.len()
            invariant
                i < v.len(),
                j <= ds.len(),
                s == samples_view(v@),
                ds == v@[i as int].top_destinations,
                s[i as int].top_destinations == crate::types::destinations_view(ds@),
                distinct_keys(country_list_view(list@)),
                forall|k: int|
                    0 <= k < list@.len() ==> (#[trigger] list@[k]).1 == partial_country_total(
                        s,
                        i as int,
                        j as int,
                        list@[k].0@,
                    ) && seen_country(s, i as int, j as int, list@[k].0@),
                forall|c: Seq<char>|
                    seen_country(s, i as int, j as int, c) ==> exists|k: int|
                        0 <= k < list@.len() && (#[trigger] list@[k]).0@ == c,
                forall|c: Seq<char>|
                    #[trigger] partial_country_total(s, i as int, j as int, c) > 0
                        ==> seen_country(s, i as int, j as int, c),
            decreases ds.len() - j,
        {
            let ghost dv = s[i as int].top_destinations;
            proof {
                assert(dv.take(j + 1).drop_last() =~= dv.take(j as int));
                assert(dv.take(j + 1).last() == dv[j as int]);
                assert(dv[j as int] == ds@[j as int]@);
            }
            let ghost before = list@;
            match &ds[j].country {
                Some(c) => {
                    let b = ds[j].bytes;
                    match find_country(&list, c) {
                        Some(k) => {
                            let cur = list[k].1;
                            if cur > u64::MAX - b {
                                proof {
                                    lemma_partial_le_total(s, i as int, j + 1, c@);
                                    assert(seen_country(s, i as int, j + 1, c@));
                                    assert(has_country(s, c@));
                                }
                                return Err(StoreError::IntegerOverflow);
                            }
                            let name = list[k].0.clone();
                            list.set(k, (name, cur + b));
                            proof {
                                let cl = country_list_view(before);
                                assert forall|m: int| 0 <= m < before.len() && m != k implies (#[trigger] before[m]).0@ != c@ by {
                                    assert(cl[m].0 == before[m].0@);
                                    assert(cl[k as int].0 == before[k as int].0@);
                                }
                                assert(country_step(before, list@, dv[j as int]));
                            }
                        },
                        None => {
                            proof {
                                if seen_country(s, i as int, j as int, c@) {
                                    let kk = choose|kk: int| 0 <= kk < list@.len() && (#[trigger] list@[kk]).0@ == c@;
                                }
                            }
                            list.push((c.clone(), b));
                            assert(country_step(before, list@, dv[j as int]));
                        },
                    }
                },
                None => {
                    assert(country_step(before, list@, dv[j as int]));
                },
            }
            proof {
                let lv = country_list_view(list@);
                assert forall|c: Seq<char>| #[trigger] seen_country(s, i as int, j + 1, c) == (
                    seen_country(s, i as int, j as int, c) || dv[j as int].country == Some(c)) by {
                    if seen_country(s, i as int, j + 1, c) {
                        let (a, bb) = choose|a: int, bb: int|
                            0 <= a < s.len() && 0 <= bb < s[a].top_destinations.len() && (a < i
                                || (a == i && bb < j + 1)) && s[a].top_destinations[bb].country
                                == Some(c);
                        if !(a == i && bb == j) {
                            assert(seen_country(s, i as int, j as int, c));
                        }
                    }
                    if dv[j as int].country == Some(c) {
                        assert(s[i as int].top_destinations[j as int].country == Some(c));
                    }
                    if seen_country(s, i as int, j as int, c) {
                        let (a, bb) = choose|a: int, bb: int|
                            0 <= a < s.len() && 0 <= bb < s[a].top_destinations.len() && (a < i
                                || (a == i && bb < j)) && s[a].top_destinations[bb].country
                                == Some(c);
                        assert(seen_country(s, i as int, j + 1, c));
                    }
                }
                assert forall|c: Seq<char>| #[trigger] partial_country_total(s, i as int, j + 1, c)
                    == partial_country_total(s, i as int, j as int, c) + if dv[j as int].country
                    == Some(c) {
                    dv[j as int].bytes as nat
                } else {
                    0
                } by {}
                assert forall|a: int, b: int|
                    0 <= a < lv.len() && 0 <= b < lv.len() && a != b implies lv[a].0 != lv[b].0 by {
                    let bv = country_list_view(before);
                    if a < before.len() {
                        assert(lv[a].0 == bv[a].0);
                    }
                    if b < before.len() {
                        assert(lv[b].0 == bv[b].0);
                    }
                }
                assert forall|k: int| 0 <= k < list@.len() implies (#[trigger] list@[k]).1
                    == partial_country_total(s, i as int, j + 1, list@[k].0@) && seen_country(
                    s,
                    i as int,
                    j + 1,
                    list@[k].0@,
                ) by {
                    if k < before.len() {
                        assert(list@[k].0@ == before[k].0@);
                    } else {
                        let c = list@[k].0@;
                        if partial_country_total(s, i as int, j as int, c) > 0 {
                            assert(seen_country(s, i as int, j as int, c));
                            let kk = choose|kk: int| 0 <= kk < before.len() && (#[trigger] before[kk]).0@ == c;
                        }
                    }
                }
                assert forall|c: Seq<char>|
                    #[trigger] seen_country(s, i as int, j + 1, c) implies exists|k: int|
                    0 <= k < list@.len() && (#[trigger] list@[k]).0@ == c by {
                    if seen_country(s, i as int, j as int, c) {
                        let k = choose|k: int| 0 <= k < before.len() && (#[trigger] before[k]).0@ == c;
                        assert(list@[k].0@ == before[k].0@);
                    } else {
                        if list@.len() > before.len() {
                            assert(list@[before.len() as int].0@ == c);
                        } else {
                            let k = choose|k: int| 0 <= k < list@.len() && list@[k].0@ == dv[j as int].country->0;
                            assert(list@[k].0@ == c);
                        }
                    }
                }
            }
            j = j + 1;
        }
        proof {
            assert(s.take(i + 1).drop_last() =~= s.take(i as int));
            assert(s.take(i + 1).last() == s[i as int]);
            assert(s[i as int].top_destinations.take(j as int) =~= s[i as int].top_destinations);
            assert forall|c: Seq<char>| #[trigger] partial_country_total(s, i + 1, 0, c)
                == partial_country_total(s, i as int, j as int, c) by {
                if i + 1 < s.len() {
                    assert(s[i + 1].top_destinations.take(0) =~= Seq::<DestinationView>::empty());
                }
            }
            assert forall|c: Seq<char>| #[trigger] seen_country(s, i + 1, 0, c) == seen_country(
                s,
                i as int,
                j as int,
                c,
            ) by {
                if seen_country(s, i + 1, 0, c) {
                    let (a, bb) = choose|a: int, bb: int|
                        0 <= a < s.len() && 0 <= bb < s[a].top_destinations.len() && (a < i + 1
                            || (a == i + 1 && bb < 0)) && s[a].top_destinations[bb].country
                            == Some(c);
                    assert(a < i || (a == i && bb < j));
                }
            }
        }
        i = i + 1;
    }
    proof {
        assert(s.take(v.len() as int) =~= s);
        let lv = country_list_view(list@);
        assert forall|c: Seq<char>| #[trigger] has_country(s, c) == seen_country(s, v.len() as int, 0, c) by {
            if has_country(s, c) {
                let (a, bb) = choose|a: int, bb: int|
                    0 <= a < s.len() && 0 <= bb < s[a].top_destinations.len()
                        && s[a].top_destinations[bb].country == Some(c);
                assert(seen_country(s, v.len() as int, 0, c));
            }
        }
        assert forall|k: int| 0 <= k < lv.len() implies (#[trigger] lv[k]).1 == country_total(s, lv[k].0)
            && has_country(s, lv[k].0) by {
            assert(lv[k].0 == list@[k].0@);
        }
        assert forall|c: Seq<char>| has_country(s, c) implies exists|k: int| 0 <= k < lv.len() && (#[trigger] lv[k]).0 == c by {
            let k = choose|k: int| 0 <= k < list@.len() && (#[trigger] list@[k]).0@ == c;
            assert(lv[k].0 == c);
        }
    }
    Ok(list)
}

// ---------------------------------------------------------------------------
// Weekly digest
// ---------------------------------------------------------------------------

/// Seconds in the week a digest covers.
pub const DIGEST_PERIOD_SECS: i64 = 604800;

/// Hours of samples a digest reads.
pub const DIGEST_PERIOD_HOURS: u32 = 168;

/// Number of countries a digest lists.
pub const DIGEST_TOP_COUNTRIES: usize = 5;

/// Number of unresolved anomalies a digest turns into highlights.
pub const DIGEST_HIGHLIGHTS: usize = 5;

/// English name of a weekday counted from Sunday (0) to Saturday (6).
pub open spec fn weekday_name(k: int) -> Seq<char> {
    if k == 0 {
        "Sunday"@
    } else if k == 1 {
        "Monday"@
    } else if k == 2 {
        "Tuesday"@
    } else if k == 3 {
        "Wednesday"@
    } else if k == 4 {
        "Thursday"@
    } else if k == 5 {
        "Friday"@
    } else {
        "Saturday"@
    }
}

/// A Unix time (UTC) as "<weekday> at <hour><am|pm>", the hour on the
/// 12-hour clock without padding; 1970-01-01 was a Thursday.
pub open spec fn weekday_hour_spec(t: int) -> Seq<char> {
    let hour = (t % 86400) / 3600;
    let h12 = if hour % 12 == 0 {
        12
    } else {
        hour % 12
    };
    weekday_name((t / 86400 + 4) % 7) + " at "@ + crate::text::decimal(h12 as nat) + if hour < 12 {
        "am"@
    } else {
        "pm"@
    }
}

/// The times chrono's `DateTime::from_timestamp` accepts with room to
/// spare: up to 8.1 * 10^12 seconds either side of the epoch (about 256,700
/// years; chrono's dates reach to year 262,143 either way).
pub open spec fn chrono_time_ok(t: int) -> bool {
    -8_100_000_000_000 <= t <= 8_100_000_000_000
}

/// Formats a Unix time with chrono: `DateTime::from_timestamp(t, 0)` and
/// `format("%A at %-I%P")`.
///
/// The contract claims what chrono's source shows for this pattern: the
/// long English weekday name, " at ", `hour12` without padding, and the
/// lower-cased "AM"/"PM" of the default locale; and that every time with
/// `chrono_time_ok` lies in the range `from_timestamp` accepts.
#[verifier::external_body]
fn weekday_hour_text(t: i64) -> (s: String)
    requires
        chrono_time_ok(t as int),
    ensures
        s@ == weekday_hour_spec(t as int),
{
    match chrono::DateTime::from_timestamp(t, 0) {
        Some(d) => d.format("%A at %-I%P").to_string(),
        None => String::new(),
    }
}

/// The digest line of an anomaly of a device shown as `lbl`.
pub open spec fn highlight_spec(kind: AnomalyKind, lbl: Seq<char>, detected_at: i64) -> Seq<char> {
    match kind {
        AnomalyKind::ExcessiveUpload => lbl + " had excessive uploads on "@ + weekday_hour_spec(
            detected_at as int,
        ),
        AnomalyKind::NewDestination => lbl + " connected to a new server"@,
        AnomalyKind::UnusualHour => lbl + " was active at unusual hours"@,
        AnomalyKind::VoiceLeakSuspected => lbl + " may have leaked audio"@,
    }
}

/// The digest line of an anomaly of a device shown as `lbl`.
pub fn highlight_text(kind: &AnomalyKind, lbl: &str, detected_at: i64) -> (s: String)
    requires
        chrono_time_ok(detected_at as int),
    ensures
        s@ == highlight_spec(*kind, lbl@, detected_at),
{
    let mut s = String::from_str(lbl);
    match kind {
        AnomalyKind::ExcessiveUpload => {
            s.append(" had excessive uploads on ");
            let w = weekday_hour_text(detected_at);
            s.append(w.as_str());
        },
        AnomalyKind::NewDestination => {
            s.append(" connected to a new server");
        },
        AnomalyKind::UnusualHour => {
            s.append(" was active at unusual hours");
        },
        AnomalyKind::VoiceLeakSuspected => {
            s.append(" may have leaked audio");
        },
    }
    s
}

/// `top` lists the `k` countries with the most bytes among the samples
/// (all of them when there are fewer), most bytes first, each with its
/// bytes; among countries with equal bytes the choice is left open.
pub open spec fn is_top_countries(s: Seq<SampleView>, top: Seq<(Seq<char>, u64)>, k: nat) -> bool {
    exists|all: Seq<(Seq<char>, u64)>| is_country_totals(s, all) && is_top_entries(all, top, k)
}

/// The `k` entries with the most bytes, most bytes first.
pub fn top_countries(totals: &Vec<(String, u64)>, k: usize) -> (top: Vec<(String, u64)>)
    requires
        distinct_keys(country_list_view(totals@)),
    ensures
        is_top_entries(country_list_view(totals@), country_list_view(top@), k as nat),
{
    let ghost l = country_list_view(totals@);
    let mut idx: Vec<(usize, u64)> = Vec::new();
    let mut i: usize = 0;
    while i < totals.len()
        invariant
            i <= totals.len(),
            idx@.len() == i,
            forall|m: int| 0 <= m < i ==> #[trigger] idx@[m] == (m as usize, totals@[m].1),
        decreases totals.len() - i,
    {
        idx.push((i, totals[i].1));
        i = i + 1;
    }
    assert forall|a: int, b: int|
        0 <= a < idx@.len() && 0 <= b < idx@.len() && a != b implies idx@[a].0 != idx@[b].0 by {
        assert(idx@[a] == (a as usize, totals@[a].1));
        assert(idx@[b] == (b as usize, totals@[b].1));
    }
    let t = top_entries(&idx, k);
    assert forall|q: int| 0 <= q < t@.len() implies (#[trigger] t@[q]).0 < totals@.len() && t@[q]
        == idx@[t@[q].0 as int] by {
        assert(idx@.contains(t@[q]));
        let m = choose|m: int| 0 <= m < idx@.len() && idx@[m] == t@[q];
        assert(idx@[m] == (m as usize, totals@[m].1));
    }
    let mut top: Vec<(String, u64)> = Vec::new();
    let mut r: usize = 0;
    while r < t.len()
        invariant
            r <= t.len(),
            top@.len() == r,
            forall|q: int|
                0 <= q < r ==> (#[trigger] top@[q]).0@ == totals@[t@[q].0 as int].0@ && top@[q].1
                    == t@[q].1,
        decreases t.len() - r,
    {
        let m = t[r].0;
        top.push((totals[m].0.clone(), t[r].1));
        r = r + 1;
    }
    proof {
        let rr = country_list_view(top@);
        assert forall|q: int| 0 <= q < rr.len() implies #[trigger] rr[q] == l[t@[q].0 as int] by {
            assert(idx@[t@[q].0 as int] == (t@[q].0, totals@[t@[q].0 as int].1));
        }
        assert forall|a: int, b: int|
            0 <= a < rr.len() && 0 <= b < rr.len() && a != b implies rr[a].0 != rr[b].0 by {
            assert(rr[a] == l[t@[a].0 as int]);
            assert(rr[b] == l[t@[b].0 as int]);
        }
        assert forall|q: int| 0 <= q < rr.len() implies l.contains(#[trigger] rr[q]) by {
            assert(rr[q] == l[t@[q].0 as int]);
        }
        assert forall|i: int, j: int| 0 <= i < j < rr.len() implies rr[i].1 >= rr[j].1 by {
            assert(rr[i] == l[t@[i].0 as int]);
            assert(rr[j] == l[t@[j].0 as int]);
        }
        assert forall|x: (Seq<char>, u64)| l.contains(x) && !rr.contains(x) implies forall|i: int|
            0 <= i < rr.len() ==> x.1 <= #[trigger] rr[i].1 by {
            let m = choose|m: int| 0 <= m < l.len() && l[m] == x;
            assert(idx@[m] == (m as usize, totals@[m].1));
            if t@.contains(idx@[m]) {
                let q = choose|q: int| 0 <= q < t@.len() && t@[q] == idx@[m];
                assert(rr[q] == l[m]);
                assert(rr.contains(x));
            }
            assert(idx@.contains(idx@[m]));
            assert forall|i: int| 0 <= i < rr.len() implies x.1 <= #[trigger] rr[i].1 by {
                assert(rr[i] == l[t@[i].0 as int]);
                assert(idx@[m].1 <= t@[i].1);
            }
        }
    }
    top
}

/// What a week of monitoring came to.
pub struct WeeklyDigest {
    pub period_start: i64,
    pub period_end: i64,
    pub total_anomalies: u32,
    pub most_active_device: Option<String>,
    pub top_destinations_by_country: Vec<(String, u64)>,
    pub new_devices_seen: Vec<Device>,
    pub highlights: Vec<String>,
}

/// The samples a digest at `now` reads: those of the last week.
pub open spec fn digest_samples(st: StoreView, now: i64) -> Seq<SampleView> {
    st.samples.filter(sample_selected(None, now - DIGEST_PERIOD_HOURS * 3600))
}

/// Whether a device was first seen at `start` or later.
pub open spec fn first_seen_since(start: int) -> spec_fn(DeviceView) -> bool {
    |d: DeviceView| d.first_seen >= start
}

/// Whether some country's bytes among the samples exceed `u64::MAX`.
pub open spec fn country_overflows(s: Seq<SampleView>) -> bool {
    exists|c: Seq<char>| has_country(s, c) && country_total(s, c) > u64::MAX
}

/// The anomalies, resolved or not, of the week before `now`, most
/// recently detected first.
pub open spec fn week_anomalies(st: StoreView, now: i64) -> Seq<AnomalyView> {
    st.anomalies.filter(anomaly_in_period(now - DIGEST_PERIOD_SECS, now as int))
}

/// The highlights of a digest at `now`: one line for each of the (at most
/// five) most recent anomalies of the week before `now`, naming the device
/// by its label.
pub open spec fn highlights_spec(st: StoreView, now: i64) -> Seq<Seq<char>> {
    let wk = week_anomalies(st, now);
    let n = if wk.len() < DIGEST_HIGHLIGHTS {
        wk.len() as int
    } else {
        DIGEST_HIGHLIGHTS as int
    };
    Seq::new(
        n as nat,
        |i: int| highlight_spec(wk[i].kind, display_name(st.devices, wk[i].mac), wk[i].detected_at),
    )
}

/// A digest has at most five highlights, one for each of the most recent
/// anomalies of the week, the most recent first; an anomaly detected before
/// the week gives none.
pub proof fn law_digest_highlights_at_most_five(st: StoreView, now: i64)
    ensures
        highlights_spec(st, now).len() <= DIGEST_HIGHLIGHTS,
        highlights_spec(st, now).len() <= week_anomalies(st, now).len(),
        forall|i: int|
            0 <= i < highlights_spec(st, now).len() ==> #[trigger] highlights_spec(st, now)[i]
                == highlight_spec(
                week_anomalies(st, now)[i].kind,
                display_name(st.devices, week_anomalies(st, now)[i].mac),
                week_anomalies(st, now)[i].detected_at,
            ) && now - DIGEST_PERIOD_SECS <= week_anomalies(st, now)[i].detected_at <= now,
{
    assert forall|i: int| 0 <= i < highlights_spec(st, now).len() implies now - DIGEST_PERIOD_SECS
        <= (#[trigger] week_anomalies(st, now)[i]).detected_at <= now by {
        st.anomalies.lemma_filter_pred(anomaly_in_period(now - DIGEST_PERIOD_SECS, now as int), i);
    }
}

/// The digest reads the samples of the past week, 604800 seconds: a sample
/// is read exactly when it is stored and newer than `now - 604800` (one
/// three days old is read), and the digest has samples, and so a most
/// active device, exactly when some stored sample is that recent.
pub proof fn law_digest_reads_the_week(st: StoreView, now: i64, x: SampleView)
    ensures
        digest_samples(st, now).contains(x) <==> (st.samples.contains(x) && x.timestamp > now
            - 604800),
        st.samples.contains(x) && now - 3 * 86400 <= x.timestamp <= now ==> digest_samples(
            st,
            now,
        ).contains(x),
        digest_samples(st, now).len() > 0 <==> exists|i: int|
            0 <= i < st.samples.len() && (#[trigger] st.samples[i]).timestamp > now - 604800,
{
    let sm = st.samples;
    let pred = sample_selected(None, now - DIGEST_PERIOD_HOURS * 3600);
    broadcast use vstd::seq_lib::group_filter_ensures;

    if sm.filter(pred).contains(x) {
        let i = choose|i: int| 0 <= i < sm.filter(pred).len() && sm.filter(pred)[i] == x;
        sm.lemma_filter_pred(pred, i);
        lemma_filter_sub(sm, pred, i);
    }
    if sm.contains(x) && x.timestamp > now - 604800 {
        let i = choose|i: int| 0 <= i < sm.len() && sm[i] == x;
        sm.lemma_filter_contains(pred, i);
    }
    if sm.filter(pred).len() > 0 {
        sm.lemma_filter_pred(pred, 0);
        lemma_filter_sub(sm, pred, 0);
        let j = choose|j: int| 0 <= j < sm.len() && sm[j] == sm.filter(pred)[0];
        assert(sm[j].timestamp > now - 604800);
    }
    if exists|i: int| 0 <= i < sm.len() && (#[trigger] sm[i]).timestamp > now - 604800 {
        let i = choose|i: int| 0 <= i < sm.len() && (#[trigger] sm[i]).timestamp > now - 604800;
        sm.lemma_filter_contains(pred, i);
    }
}

/// The weekly digest at `now`: the week's period, the number of unresolved
/// anomalies, the device with the most traffic over the week, the countries
/// with the most bytes, the devices first seen during the week and a line
/// for each of the most recent anomalies of the week. Fails with
/// `IntegerOverflow` when a device's or a country's bytes exceed `u64::MAX`.
pub fn generate_weekly_digest(store: &Store, now: i64) -> (r: Result<WeeklyDigest, StoreError>)
    requires
        wf(store@),
        time_ok(now),
    ensures
        ({
            let s = digest_samples(store@, now);
            let un = store@.anomalies.filter(anomaly_selected(None, true));
            &&& (r is Err <==> traffic_overflows(s, u64::MAX as int) || country_overflows(s))
            &&& match r {
                Err(e) => e == StoreError::IntegerOverflow,
                Ok(d) => {
                    &&& d.period_start == now - DIGEST_PERIOD_SECS
                    &&& d.period_end == now
                    &&& d.total_anomalies == un.len() as u32
                    &&& (d.most_active_device is None <==> s.len() == 0)
                    &&& (d.most_active_device matches Some(name) ==> names_most_active(
                        s,
                        store@.devices,
                        name@,
                    ))
                    &&& is_top_countries(
                        s,
                        country_list_view(d.top_destinations_by_country@),
                        DIGEST_TOP_COUNTRIES as nat,
                    )
                    &&& devices_view(d.new_devices_seen@) == store@.devices.filter(
                        first_seen_since(now - DIGEST_PERIOD_SECS),
                    )
                    &&& texts(d.highlights@) == highlights_spec(store@, now)
                },
            }
        }),
{
    let start = now - DIGEST_PERIOD_SECS;
    let samples = store.get_recent_samples(DIGEST_PERIOD_HOURS, now);
    let devices = store.get_all_devices();
    let anomalies = store.get_unresolved_anomalies();
    let ghost s = digest_samples(store@, now);
    let most_active = match store.most_active_among(&samples, u64::MAX) {
        Ok(m) => m,
        Err(e) => {
            return Err(e);
        },
    };
    let totals = match country_totals(&samples) {
        Ok(t) => t,
        Err(e) => {
            return Err(e);
        },
    };
    let top_c = top_countries(&totals, DIGEST_TOP_COUNTRIES);
    proof {
        assert(is_country_totals(s, country_list_view(totals@)));
    }
    let ghost devs = store@.devices;
    let mut new_devs: Vec<Device> = Vec::new();
    let mut i: usize = 0;
    while i < devices.len()
        invariant
            i <= devices.len(),
            devices_view(devices@) == devs,
            devices_view(new_devs@) == devs.take(i as int).filter(first_seen_since(start as int)),
        decreases devices.len() - i,
    {
        proof {
            reveal(Seq::filter);
            assert(devs.take(i + 1).drop_last() =~= devs.take(i as int));
        }
        if devices[i].first_seen >= start {
            let ghost before = new_devs@;
            new_devs.push(devices[i].duplicate());
            assert(devices_view(new_devs@) =~= devices_view(before).push(devs[i as int]));
        }
        i = i + 1;
    }
    assert(devs.take(devices.len() as int) =~= devs);
    let recent = store.get_anomalies_between(start, now);
    let ghost wk = week_anomalies(store@, now);
    let n = if recent.len() < DIGEST_HIGHLIGHTS {
        recent.len()
    } else {
        DIGEST_HIGHLIGHTS
    };
    let mut highlights: Vec<String> = Vec::new();
    let mut j: usize = 0;
    while j < n
        invariant
            j <= n,
            n <= recent@.len(),
            n == highlights_spec(store@, now).len(),
            crate::store::anomalies_view(recent@) == wk,
            texts(highlights@) == highlights_spec(store@, now).take(j as int),
            time_ok(now),
        decreases n - j,
    {
        let a = &recent[j];
        proof {
            assert(wk[j as int] == a@);
            store@.anomalies.lemma_filter_pred(anomaly_in_period(start as int, now as int), j as int);
            assert(chrono_time_ok(a.detected_at as int));
        }
        let lbl = store.display_name_of(a.mac.as_str());
        let h = highlight_text(&a.kind, lbl.as_str(), a.detected_at);
        let ghost before = highlights@;
        highlights.push(h);
        assert(texts(highlights@) =~= texts(before).push(h@));
        assert(highlights_spec(store@, now).take(j + 1) =~= highlights_spec(store@, now).take(
            j as int,
        ).push(highlights_spec(store@, now)[j as int]));
        j = j + 1;
    }
    assert(highlights_spec(store@, now).take(n as int) =~= highlights_spec(store@, now));
    Ok(
        WeeklyDigest {
            period_start: start,
            period_end: now,
            total_anomalies: anomalies.len() as u32,
            most_active_device: most_active,
            top_destinations_by_country: top_c,
            new_devices_seen: new_devs,
            highlights,
        },
    )
}

// ---------------------------------------------------------------------------
// Profiles and anomalies in the store
// ---------------------------------------------------------------------------

/// Hours of samples a profile is built from.
pub const PROFILE_WINDOW_HOURS: u32 = 168;

/// The observation a device's profile is rebuilt from at `now`: the
/// statistics of its samples of the last week; `None` when it has none.
pub fn profile_observation(store: &Store, mac: &str, now: i64) -> (r: Option<ProfileObservation>)
    requires
        wf(store@),
        time_ok(now),
    ensures
        ({
            let s = store@.samples.filter(
                sample_selected(Some(mac@), now - PROFILE_WINDOW_HOURS * 3600),
            );
            &&& (r is None <==> s.len() == 0)
            &&& (r matches Some(obs) ==> observes(s, obs))
        }),
{
    let v = store.get_samples_for_device(mac, PROFILE_WINDOW_HOURS, now);
    if v.len() == 0 {
        return None;
    }
    Some(observe_profile(&v))
}

/// The profile of a device built at `now` from an observation and the
/// bit patterns of the baseline's mean and standard deviation.
pub open spec fn profile_from(
    mac: Seq<char>,
    obs: ProfileObservation,
    now: i64,
    mean_bits: u64,
    stddev_bits: u64,
) -> ProfileView {
    ProfileView {
        mac,
        baseline_mean_bits: mean_bits,
        baseline_stddev_bits: stddev_bits,
        known_destinations: texts(obs.known_destinations@),
        active_hours: obs.active_hours@,
        profile_built_at: now,
        observation_hours: obs.observation_hours,
    }
}

/// Stores the profile of a device built at `now` from an observation and
/// the bit patterns of the baseline's mean and standard deviation.
pub fn store_profile(
    store: &mut Store,
    mac: &str,
    obs: ProfileObservation,
    now: i64,
    mean_bits: u64,
    stddev_bits: u64,
)
    requires
        wf(old(store)@),
    ensures
        wf(final(store)@),
        final(store)@.profiles == profiles_after_upsert(
            old(store)@.profiles,
            profile_from(mac@, obs, now, mean_bits, stddev_bits),
        ),
        final(store)@.devices == old(store)@.devices,
        final(store)@.samples == old(store)@.samples,
        final(store)@.anomalies == old(store)@.anomalies,
        final(store)@.next_sample_id == old(store)@.next_sample_id,
        final(store)@.next_anomaly_id == old(store)@.next_anomaly_id,
{
    let p = DeviceProfile {
        mac: String::from_str(mac),
        baseline_mean_bits: mean_bits,
        baseline_stddev_bits: stddev_bits,
        known_destinations: obs.known_destinations,
        active_hours: obs.active_hours,
        profile_built_at: now,
        observation_hours: obs.observation_hours,
    };
    store.upsert_profile(&p);
}

/// `new` is `old` with the anomalies `xs` inserted one after the other,
/// each by its detection time.
pub open spec fn inserted_in_turn(old: Seq<AnomalyView>, xs: Seq<AnomalyView>, new: Seq<AnomalyView>) -> bool
    decreases xs.len(),
{
    if xs.len() == 0 {
        new == old
    } else {
        exists|mid: Seq<AnomalyView>|
            inserted_in_turn(old, xs.drop_last(), mid) && inserted_by_detection(mid, xs.last(), new)
    }
}

/// Stores the anomalies of the findings of a device at `now`, in order,
/// and returns them as stored, each with its row id. Stops with `Full` at
/// the first one no row id is left for; those before it stay stored.
pub fn record_findings(
    store: &mut Store,
    mac: &str,
    now: i64,
    findings: &Vec<Finding>,
    upload_detail: &str,
) -> (r: Result<Vec<Anomaly>, StoreError>)
    requires
        wf(old(store)@),
    ensures
        wf(final(store)@),
        r is Ok <==> old(store)@.next_anomaly_id + findings@.len() <= i64::MAX,
        match r {
            Ok(v) => {
                &&& v@.len() == findings@.len()
                &&& forall|k: int|
                    0 <= k < v@.len() ==> (#[trigger] v@[k])@ == with_anomaly_id(
                        finding_view(mac@, now, findings@[k], upload_detail@),
                        (old(store)@.next_anomaly_id + k) as i64,
                    )
                &&& inserted_in_turn(old(store)@.anomalies, anomalies_view(v@), final(store)@.anomalies)
                &&& final(store)@.next_anomaly_id == old(store)@.next_anomaly_id + findings@.len()
            },
            Err(e) => e == StoreError::Full,
        },
        final(store)@.devices == old(store)@.devices,
        final(store)@.samples == old(store)@.samples,
        final(store)@.profiles == old(store)@.profiles,
        final(store)@.next_sample_id == old(store)@.next_sample_id,
{
    let ghost start = store@;
    let mut out: Vec<Anomaly> = Vec::new();
    let mut k: usize = 0;
    assert(anomalies_view(out@) =~= Seq::<AnomalyView>::empty());
    while k < findings.len()
        invariant
            k <= findings.len(),
            wf(store@),
            out@.len() == k,
            store@.next_anomaly_id == start.next_anomaly_id + k,
            forall|m: int|
                0 <= m < k ==> (#[trigger] out@[m])@ == with_anomaly_id(
                    finding_view(mac@, now, findings@[m], upload_detail@),
                    (start.next_anomaly_id + m) as i64,
                ),
            inserted_in_turn(start.anomalies, anomalies_view(out@), store@.anomalies),
            store@.devices == start.devices,
            store@.samples == start.samples,
            store@.profiles == start.profiles,
            store@.next_sample_id == start.next_sample_id,
        decreases findings.len() - k,
    {
        let a = finding_anomaly(mac, now, &findings[k], upload_detail);
        let ghost mid = store@.anomalies;
        let ghost before = anomalies_view(out@);
        match store.insert_anomaly(&a) {
            Ok(id) => {
                let mut stored = a;
                stored.id = Some(id);
                out.push(stored);
                proof {
                    let xs = anomalies_view(out@);
                    assert(xs.drop_last() =~= before);
                    assert(xs.last() == with_anomaly_id(a@, id));
                    assert(inserted_in_turn(start.anomalies, xs.drop_last(), mid));
                }
            },
            Err(e) => {
                assert(store@.next_anomaly_id == i64::MAX);
                assert(start.next_anomaly_id + findings@.len() > i64::MAX);
                return Err(e);
            },
        }
        k = k + 1;
    }
    Ok(out)
}

} // verus!
