//! Traffic accounting for the capture loop: per-device byte counters over a
//! window of frames, drained into snapshots with each device's top
//! destinations; MAC formatting; synthetic demo traffic.
use vstd::prelude::*;
use crate::net::IpAddr;
use crate::text::{str_eq, string_of};

verus! {

// ---------------------------------------------------------------------------
// MAC text
// ---------------------------------------------------------------------------

/// The character of an upper-case hexadecimal digit.
pub open spec fn hex_upper_char(d: nat) -> char {
    if d < 10 {
        crate::text::digit_char(d)
    } else if d == 10 {
        'A'
    } else if d == 11 {
        'B'
    } else if d == 12 {
        'C'
    } else if d == 13 {
        'D'
    } else if d == 14 {
        'E'
    } else {
        'F'
    }
}

/// Two upper-case hex digits of a byte (`{:02X}`).
pub open spec fn hex_pair(b: u8) -> Seq<char> {
    seq![hex_upper_char(b as nat / 16), hex_upper_char(b as nat % 16)]
}

/// Bytes as upper-case hex pairs joined by ':' ("AA:BB:CC:DD:EE:FF").
pub open spec fn mac_text(bs: Seq<u8>) -> Seq<char>
    decreases bs.len(),
{
    if bs.len() == 0 {
        Seq::empty()
    } else if bs.len() == 1 {
        hex_pair(bs[0])
    } else {
        mac_text(bs.drop_last()) + seq![':'] + hex_pair(bs.last())
    }
}

fn hex_upper_exec(d: u8) -> (c: char)
    requires
        d < 16,
    ensures
        c == hex_upper_char(d as nat),
{
    if d < 10 {
        crate::text::digit_char_exec(d as u64)
    } else if d == 10 {
        'A'
    } else if d == 11 {
        'B'
    } else if d == 12 {
        'C'
    } else if d == 13 {
        'D'
    } else if d == 14 {
        'E'
    } else {
        'F'
    }
}

/// Formats raw MAC bytes as upper-case hex pairs joined by ':'.
pub fn format_mac(bytes: &[u8]) -> (s: String)
    ensures
        s@ == mac_text(bytes@),
{
    let mut v: Vec<char> = Vec::new();
    let mut i: usize = 0;
    while i < bytes.len()
        invariant
            i <= bytes.len(),
            v@ == mac_text(bytes@.take(i as int)),
        decreases bytes.len() - i,
    {
        let ghost before = v@;
        assert(bytes@.take(i + 1).drop_last() =~= bytes@.take(i as int));
        assert(bytes@.take(i + 1).last() == bytes@[i as int]);
        if i > 0 {
            v.push(':');
        }
        let b = bytes[i];
        v.push(hex_upper_exec(b / 16));
        v.push(hex_upper_exec(b % 16));
        if i == 0 {
            assert(v@ =~= hex_pair(b));
        } else {
            assert(v@ =~= before + seq![':'] + hex_pair(b));
        }
        i = i + 1;
    }
    assert(bytes@.take(bytes.len() as int) =~= bytes@);
    string_of(&v)
}

/// A MAC text has three characters per byte, less the missing separator.
pub proof fn law_mac_text_len(bs: Seq<u8>)
    ensures
        bs.len() > 0 ==> mac_text(bs).len() == 3 * bs.len() - 1,
        bs.len() == 0 ==> mac_text(bs).len() == 0,
    decreases bs.len(),
{
    if bs.len() > 1 {
        law_mac_text_len(bs.drop_last());
    }
}

// ---------------------------------------------------------------------------
// Top destinations
// ---------------------------------------------------------------------------

/// No two entries share a destination IP.
pub open spec fn distinct_ips(d: Seq<(IpAddr, u64)>) -> bool {
    distinct_keys(d)
}

/// No two entries share a key.
pub open spec fn distinct_keys<K>(d: Seq<(K, u64)>) -> bool {
    forall|i: int, j: int| 0 <= i < d.len() && 0 <= j < d.len() && i != j ==> d[i].0 != d[j].0
}

/// `top` holds the `k` destinations of `all` with the most bytes (all of
/// them when there are fewer), most bytes first. Among destinations with
/// equal bytes the choice is left open.
pub open spec fn is_top_destinations(all: Seq<(IpAddr, u64)>, top: Seq<(IpAddr, u64)>, k: nat) -> bool {
    is_top_entries(all, top, k)
}

/// `top` holds the `k` entries of `all` with the largest values (all of
/// them when there are fewer), largest first; among equal values the
/// choice is left open.
pub open spec fn is_top_entries<K>(all: Seq<(K, u64)>, top: Seq<(K, u64)>, k: nat) -> bool {
    &&& top.len() == if all.len() < k { all.len() } else { k }
    &&& distinct_keys(top)
    &&& forall|i: int| 0 <= i < top.len() ==> all.contains(#[trigger] top[i])
    &&& forall|i: int, j: int| 0 <= i < j < top.len() ==> top[i].1 >= top[j].1
    &&& forall|x: (K, u64)|
        all.contains(x) && !top.contains(x) ==> forall|i: int|
            0 <= i < top.len() ==> x.1 <= #[trigger] top[i].1
}

/// The `k` destinations with the most bytes, most bytes first.
pub fn top_destinations(all: &Vec<(IpAddr, u64)>, k: usize) -> (top: Vec<(IpAddr, u64)>)
    requires
        distinct_ips(all@),
    ensures
        is_top_destinations(all@, top@, k as nat),
{
    top_entries(all, k)
}

/// The `k` entries with the largest values, largest first.
pub fn top_entries<K: Copy>(all: &Vec<(K, u64)>, k: usize) -> (top: Vec<(K, u64)>)
    requires
        distinct_keys(all@),
    ensures
        is_top_entries(all@, top@, k as nat),
{
    let n = all.len();
    let want = if n < k { n } else { k };
    let mut taken: Vec<bool> = Vec::new();
    let mut t: usize = 0;
    while t < n
        invariant
            t <= n,
            n == all@.len(),
            taken@.len() == t,
            forall|j: int| 0 <= j < t ==> !taken@[j],
        decreases n - t,
    {
        taken.push(false);
        t = t + 1;
    }
    let mut top: Vec<(K, u64)> = Vec::new();
    let ghost mut idx: Seq<int> = Seq::empty();
    let mut r: usize = 0;
    while r < want
        invariant
            n == all@.len(),
            want <= n,
            r <= want,
            taken@.len() == n,
            top@.len() == r,
            idx.len() == r,
            forall|a: int| 0 <= a < r ==> 0 <= #[trigger] idx[a] < n && top@[a] == all@[idx[a]],
            forall|a: int, b: int| 0 <= a < r && 0 <= b < r && a != b ==> idx[a] != idx[b],
            forall|j: int| 0 <= j < n ==> (taken@[j] <==> idx.contains(j)),
            forall|a: int, b: int| 0 <= a < b < r ==> top@[a].1 >= top@[b].1,
            forall|j: int|
                0 <= j < n && !taken@[j] ==> forall|a: int|
                    0 <= a < r ==> all@[j].1 <= #[trigger] top@[a].1,
        decreases want - r,
    {
        // the first untaken destination with the most bytes
        let mut best: usize = n;
        let mut j: usize = 0;
        while j < n
            invariant
                n == all@.len(),
                taken@.len() == n,
                j <= n,
                best == n || (best < j && !taken@[best as int]),
                best == n ==> forall|m: int| 0 <= m < j ==> taken@[m],
                best < n ==> forall|m: int|
                    0 <= m < j && !taken@[m] ==> all@[m].1 <= all@[best as int].1,
            decreases n - j,
        {
            if !taken[j] && (best == n || all[j].1 > all[best].1) {
                best = j;
            }
            j = j + 1;
        }
        proof {
            if best == n {
                // r < want <= n, so fewer than n are taken
                assert(forall|m: int| 0 <= m < n ==> idx.contains(m));
                lemma_cover(idx, n as int);
            }
        }
        let x = all[best];
        top.push(x);
        taken.set(best, true);
        proof {
            assert(!idx.contains(best as int));
            let old_idx = idx;
            idx = idx.push(best as int);
            assert forall|j: int| 0 <= j < n implies (taken@[j] <==> idx.contains(j)) by {
                if j == best as int {
                    assert(idx[r as int] == j);
                } else {
                    if old_idx.contains(j) {
                        let a = choose|a: int| 0 <= a < old_idx.len() && old_idx[a] == j;
                        assert(idx[a] == j);
                    }
                    if idx.contains(j) {
                        let a = choose|a: int| 0 <= a < idx.len() && idx[a] == j;
                        assert(a < old_idx.len());
                        assert(old_idx[a] == j);
                    }
                }
            }
        }
        r = r + 1;
    }
    proof {
        let tp = top@;
        assert forall|a: int| 0 <= a < tp.len() implies all@.contains(#[trigger] tp[a]) by {
            assert(all@[idx[a]] == tp[a]);
        }
        assert forall|a: int, b: int|
            0 <= a < tp.len() && 0 <= b < tp.len() && a != b implies tp[a].0 != tp[b].0 by {
            assert(idx[a] != idx[b]);
        }
        assert forall|x: (K, u64)| all@.contains(x) && !tp.contains(x) implies forall|a: int|
            0 <= a < tp.len() ==> x.1 <= #[trigger] tp[a].1 by {
            let j = choose|j: int| 0 <= j < n && all@[j] == x;
            if taken@[j] {
                assert(idx.contains(j));
                let a = choose|a: int| 0 <= a < idx.len() && idx[a] == j;
                assert(top@[a] == all@[idx[a]]);
                assert(tp[a] == x);
            }
        }
    }
    top
}

/// r distinct indices below n that cover every index below n number n.
proof fn lemma_cover(idx: Seq<int>, n: int)
    requires
        forall|a: int, b: int| 0 <= a < idx.len() && 0 <= b < idx.len() && a != b ==> idx[a] != idx[b],
        forall|a: int| 0 <= a < idx.len() ==> 0 <= #[trigger] idx[a] < n,
        forall|m: int| 0 <= m < n ==> idx.contains(m),
        n >= 0,
    ensures
        idx.len() >= n,
{
    let s = idx.to_set();
    let full = Set::new(|m: int| 0 <= m < n);
    assert(full =~= s.filter(|m: int| 0 <= m < n)) by {
        assert forall|m: int| full.contains(m) implies s.contains(m) by {
            assert(idx.contains(m));
        }
    }
    vstd::set_lib::lemma_int_range(0, n);
    assert(full =~= vstd::set_lib::set_int_range(0, n));
    idx.unique_seq_to_set();
    vstd::set_lib::lemma_len_subset(full, s);
}

// ---------------------------------------------------------------------------
// Per-device accounting over a window
// ---------------------------------------------------------------------------

/// A device's traffic within one window.
#[derive(Clone, Debug)]
pub struct DeviceSnapshot {
    /// MAC address of the device
    pub mac: String,
    /// Most recently observed IP address
    pub ip: IpAddr,
    /// Total bytes where this MAC is the source
    pub bytes_sent: u64,
    /// Total bytes where this MAC is the destination
    pub bytes_recv: u64,
    /// (destination IP, bytes) pairs
    pub destinations: Vec<(IpAddr, u64)>,
}

/// The counters of one device in a window.
pub struct AccumView {
    pub mac: Seq<char>,
    pub ip: IpAddr,
    pub sent: u64,
    pub recv: u64,
    pub dests: Seq<(IpAddr, u64)>,
}

struct DeviceAccum {
    mac: String,
    ip: IpAddr,
    bytes_sent: u64,
    bytes_recv: u64,
    destinations: Vec<(IpAddr, u64)>,
}

impl View for DeviceAccum {
    type V = AccumView;

    closed spec fn view(&self) -> AccumView {
        AccumView {
            mac: self.mac@,
            ip: self.ip,
            sent: self.bytes_sent,
            recv: self.bytes_recv,
            dests: self.destinations@,
        }
    }
}

/// Per-device byte counters over the frames of one window.
pub struct CaptureWindow {
    devices: Vec<DeviceAccum>,
}

impl View for CaptureWindow {
    type V = Seq<AccumView>;

    closed spec fn view(&self) -> Seq<AccumView> {
        self.devices@.map_values(|a: DeviceAccum| a@)
    }
}

/// Distinct MACs, and distinct destination IPs per device.
pub open spec fn window_wf(s: Seq<AccumView>) -> bool {
    &&& forall|i: int, j: int| 0 <= i < s.len() && 0 <= j < s.len() && i != j ==> s[i].mac != s[j].mac
    &&& forall|i: int| 0 <= i < s.len() ==> distinct_ips(#[trigger] s[i].dests)
}

/// Index of the counters of a MAC, or -1.
pub open spec fn acc_index(s: Seq<AccumView>, mac: Seq<char>) -> int {
    if exists|i: int| 0 <= i < s.len() && s[i].mac == mac {
        choose|i: int| 0 <= i < s.len() && s[i].mac == mac
    } else {
        -1
    }
}

/// Index of a destination IP, or -1.
pub open spec fn dest_index(d: Seq<(IpAddr, u64)>, ip: IpAddr) -> int {
    if exists|i: int| 0 <= i < d.len() && d[i].0 == ip {
        choose|i: int| 0 <= i < d.len() && d[i].0 == ip
    } else {
        -1
    }
}

/// Destinations with `len` more bytes to `ip`.
pub open spec fn add_dest(d: Seq<(IpAddr, u64)>, ip: IpAddr, len: u64) -> Seq<(IpAddr, u64)> {
    let k = dest_index(d, ip);
    if k >= 0 {
        d.update(k, (ip, (d[k].1 + len) as u64))
    } else {
        d.push((ip, len))
    }
}

/// Counters after a frame of `len` bytes from `mac` (now at `ip`) to `dst_ip`.
pub open spec fn after_sent(s: Seq<AccumView>, mac: Seq<char>, ip: IpAddr, dst_ip: IpAddr, len: u64) -> Seq<
    AccumView,
> {
    let k = acc_index(s, mac);
    if k >= 0 {
        s.update(
            k,
            AccumView {
                mac,
                ip,
                sent: (s[k].sent + len) as u64,
                recv: s[k].recv,
                dests: add_dest(s[k].dests, dst_ip, len),
            },
        )
    } else {
        s.push(AccumView { mac, ip, sent: len, recv: 0, dests: seq![(dst_ip, len)] })
    }
}

/// Counters after a frame of `len` bytes to `mac`; a device seen first as a
/// receiver takes the frame's destination IP as its own.
pub open spec fn after_recv(s: Seq<AccumView>, mac: Seq<char>, ip: IpAddr, len: u64) -> Seq<AccumView> {
    let k = acc_index(s, mac);
    if k >= 0 {
        s.update(k, AccumView { recv: (s[k].recv + len) as u64, ..s[k] })
    } else {
        s.push(AccumView { mac, ip, sent: 0, recv: len, dests: Seq::empty() })
    }
}

/// Counters after one frame.
pub open spec fn after_frame(
    s: Seq<AccumView>,
    src: Seq<char>,
    dst: Seq<char>,
    src_ip: IpAddr,
    dst_ip: IpAddr,
    len: u64,
) -> Seq<AccumView> {
    after_recv(after_sent(s, src, src_ip, dst_ip, len), dst, dst_ip, len)
}

/// Whether a frame can be counted without a counter passing `u64::MAX`.
pub open spec fn frame_fits(
    s: Seq<AccumView>,
    src: Seq<char>,
    dst: Seq<char>,
    src_ip: IpAddr,
    dst_ip: IpAddr,
    len: u64,
) -> bool {
    let k = acc_index(s, src);
    let s1 = after_sent(s, src, src_ip, dst_ip, len);
    let k1 = acc_index(s1, dst);
    &&& k >= 0 ==> s[k].sent + len <= u64::MAX
    &&& (k >= 0 && dest_index(s[k].dests, dst_ip) >= 0) ==> s[k].dests[dest_index(
        s[k].dests,
        dst_ip,
    )].1 + len <= u64::MAX
    &&& k1 >= 0 ==> s1[k1].recv + len <= u64::MAX
}

/// The value of a [`DeviceSnapshot`].
pub struct SnapshotView {
    pub mac: Seq<char>,
    pub ip: IpAddr,
    pub bytes_sent: u64,
    pub bytes_recv: u64,
    pub destinations: Seq<(IpAddr, u64)>,
}

impl View for DeviceSnapshot {
    type V = SnapshotView;

    open spec fn view(&self) -> SnapshotView {
        SnapshotView {
            mac: self.mac@,
            ip: self.ip,
            bytes_sent: self.bytes_sent,
            bytes_recv: self.bytes_recv,
            destinations: self.destinations@,
        }
    }
}

/// The number of destinations a snapshot keeps per device.
pub const TOP_DESTINATIONS: usize = 5;

/// The snapshot drained from a device's counters: its MAC, IP and byte
/// counts, and its `TOP_DESTINATIONS` busiest destinations.
pub open spec fn drained_from(a: AccumView, snap: SnapshotView) -> bool {
    &&& snap.mac == a.mac
    &&& snap.ip == a.ip
    &&& snap.bytes_sent == a.sent
    &&& snap.bytes_recv == a.recv
    &&& is_top_destinations(a.dests, snap.destinations, TOP_DESTINATIONS as nat)
}

fn find_acc(v: &Vec<DeviceAccum>, mac: &str) -> (r: Option<usize>)
    requires
        window_wf(v@.map_values(|a: DeviceAccum| a@)),
    ensures
        match r {
            Some(k) => k < v@.len() && acc_index(v@.map_values(|a: DeviceAccum| a@), mac@) == k,
            None => acc_index(v@.map_values(|a: DeviceAccum| a@), mac@) == -1,
        },
{
    let ghost s = v@.map_values(|a: DeviceAccum| a@);
    let mut i: usize = 0;
    while i < v.len()
        invariant
            i <= v.len(),
            s == v@.map_values(|a: DeviceAccum| a@),
            forall|j: int| 0 <= j < i ==> s[j].mac != mac@,
        decreases v.len() - i,
    {
        if str_eq(v[i].mac.as_str(), mac) {
            proof {
                assert(s[i as int].mac == mac@);
                let c = acc_index(s, mac@);
                assert(0 <= c < s.len() && s[c].mac == mac@);
                assert(c == i as int);
            }
            return Some(i);
        }
        i = i + 1;
    }
    None
}

fn find_dest(d: &Vec<(IpAddr, u64)>, ip: IpAddr) -> (r: Option<usize>)
    requires
        distinct_ips(d@),
    ensures
        match r {
            Some(k) => k < d@.len() && dest_index(d@, ip) == k,
            None => dest_index(d@, ip) == -1,
        },
{
    let mut i: usize = 0;
    while i < d.len()
        invariant
            i <= d.len(),
            forall|j: int| 0 <= j < i ==> d@[j].0 != ip,
        decreases d.len() - i,
    {
        if d[i].0 == ip {
            proof {
                let c = dest_index(d@, ip);
                assert(0 <= c < d@.len() && d@[c].0 == ip);
            }
            return Some(i);
        }
        i = i + 1;
    }
    None
}

proof fn lemma_add_dest_distinct(d: Seq<(IpAddr, u64)>, ip: IpAddr, len: u64)
    requires
        distinct_ips(d),
    ensures
        distinct_ips(add_dest(d, ip, len)),
{
    let k = dest_index(d, ip);
    let n = add_dest(d, ip, len);
    assert forall|i: int, j: int| 0 <= i < n.len() && 0 <= j < n.len() && i != j implies n[i].0
        != n[j].0 by {
        if k >= 0 {
            if i != k && j != k {
                assert(n[i] == d[i] && n[j] == d[j]);
            } else if i == k {
                assert(n[j] == d[j]);
            } else {
                assert(n[i] == d[i]);
            }
        } else {
            if i < d.len() && j < d.len() {
                assert(n[i] == d[i] && n[j] == d[j]);
            } else if i < d.len() {
                assert(n[i] == d[i]);
            } else {
                assert(n[j] == d[j]);
            }
        }
    }
}

proof fn lemma_update_keeps_wf(s: Seq<AccumView>, k: int, a: AccumView)
    requires
        window_wf(s),
        0 <= k < s.len(),
        a.mac == s[k].mac,
        distinct_ips(a.dests),
    ensures
        window_wf(s.update(k, a)),
{
    let n = s.update(k, a);
    assert forall|i: int, j: int| 0 <= i < n.len() && 0 <= j < n.len() && i != j implies n[i].mac
        != n[j].mac by {
        if i != k && j != k {
            assert(n[i] == s[i] && n[j] == s[j]);
        } else if i == k {
            assert(n[j] == s[j]);
        } else {
            assert(n[i] == s[i]);
        }
    }
    assert forall|i: int| 0 <= i < n.len() implies distinct_ips(#[trigger] n[i].dests) by {
        if i != k {
            assert(n[i] == s[i]);
        }
    }
}

proof fn lemma_push_keeps_wf(s: Seq<AccumView>, a: AccumView)
    requires
        window_wf(s),
        forall|i: int| 0 <= i < s.len() ==> s[i].mac != a.mac,
        distinct_ips(a.dests),
    ensures
        window_wf(s.push(a)),
{
    let n = s.push(a);
    assert forall|i: int, j: int| 0 <= i < n.len() && 0 <= j < n.len() && i != j implies n[i].mac
        != n[j].mac by {
        if i < s.len() && j < s.len() {
            assert(n[i] == s[i] && n[j] == s[j]);
        } else if i < s.len() {
            assert(n[i] == s[i]);
        } else {
            assert(n[j] == s[j]);
        }
    }
    assert forall|i: int| 0 <= i < n.len() implies distinct_ips(#[trigger] n[i].dests) by {
        if i < s.len() {
            assert(n[i] == s[i]);
        }
    }
}

proof fn lemma_absent(s: Seq<AccumView>, mac: Seq<char>)
    requires
        acc_index(s, mac) == -1,
    ensures
        forall|i: int| 0 <= i < s.len() ==> s[i].mac != mac,
{
}

impl CaptureWindow {
    /// A window with no traffic counted.
    pub fn new() -> (w: CaptureWindow)
        ensures
            w@ == Seq::<AccumView>::empty(),
            window_wf(w@),
    {
        let w = CaptureWindow { devices: Vec::new() };
        assert(w@ =~= Seq::<AccumView>::empty());
        w
    }

    /// Whether the counters are well formed.
    pub closed spec fn wf(&self) -> bool {
        window_wf(self@)
    }

    /// Whether a frame can be counted without a counter passing `u64::MAX`.
    pub fn can_record(
        &self,
        src_mac: &str,
        dst_mac: &str,
        src_ip: IpAddr,
        dst_ip: IpAddr,
        len: u64,
    ) -> (r: bool)
        requires
            window_wf(self@),
        ensures
            r == frame_fits(self@, src_mac@, dst_mac@, src_ip, dst_ip, len),
    {
        let ghost s = self@;
        let k = find_acc(&self.devices, src_mac);
        let mut sent_ok = true;
        let mut dest_ok = true;
        let mut dest_prev: u64 = 0;
        let mut src_recv: u64 = 0;
        match k {
            Some(k) => {
                let a = &self.devices[k];
                sent_ok = a.bytes_sent <= u64::MAX - len;
                src_recv = a.bytes_recv;
                match find_dest(&a.destinations, dst_ip) {
                    Some(d) => {
                        dest_ok = a.destinations[d].1 <= u64::MAX - len;
                    },
                    None => {},
                }
            },
            None => {},
        }
        // the receiver's counter after the sender's part of the frame
        let same = str_eq(src_mac, dst_mac);
        let recv_ok = if same {
            match k {
                Some(_) => src_recv <= u64::MAX - len,
                None => true,
            }
        } else {
            match find_acc(&self.devices, dst_mac) {
                Some(j) => self.devices[j].bytes_recv <= u64::MAX - len,
                None => true,
            }
        };
        proof {
            let s1 = after_sent(s, src_mac@, src_ip, dst_ip, len);
            let kk = acc_index(s, src_mac@);
            if kk >= 0 {
                assert(s1[kk].mac == src_mac@);
                assert(s1[kk].recv == s[kk].recv);
                lemma_add_dest_distinct(s[kk].dests, dst_ip, len);
                lemma_update_keeps_wf(s, kk, s1[kk]);
            } else {
                lemma_absent(s, src_mac@);
                lemma_push_keeps_wf(s, s1[s.len() as int]);
                assert(s1[s.len() as int].recv == 0);
            }
            let k1 = acc_index(s1, dst_mac@);
            if same {
                if kk >= 0 {
                    assert(s1[kk].mac == dst_mac@);
                    assert(k1 == kk);
                } else {
                    assert(s1[s.len() as int].mac == dst_mac@);
                    assert(k1 == s.len() as int);
                }
            } else {
                if acc_index(s, dst_mac@) >= 0 {
                    let j = acc_index(s, dst_mac@);
                    if kk >= 0 {
                        assert(j != kk);
                    }
                    assert(s1[j] == s[j]);
                    assert(k1 == j);
                } else {
                    lemma_absent(s, dst_mac@);
                    assert forall|i: int| 0 <= i < s1.len() implies s1[i].mac != dst_mac@ by {
                        if kk >= 0 {
                            if i != kk {
                                assert(s1[i] == s[i]);
                            }
                        } else if i < s.len() {
                            assert(s1[i] == s[i]);
                        }
                    }
                    assert(k1 == -1);
                }
            }
        }
        sent_ok && dest_ok && recv_ok
    }

    fn add_sent(&mut self, mac: &str, ip: IpAddr, dst_ip: IpAddr, len: u64)
        requires
            window_wf(old(self)@),
            acc_index(old(self)@, mac@) >= 0 ==> old(self)@[acc_index(old(self)@, mac@)].sent
                + len <= u64::MAX,
            (acc_index(old(self)@, mac@) >= 0 && dest_index(
                old(self)@[acc_index(old(self)@, mac@)].dests,
                dst_ip,
            ) >= 0) ==> old(self)@[acc_index(old(self)@, mac@)].dests[dest_index(
                old(self)@[acc_index(old(self)@, mac@)].dests,
                dst_ip,
            )].1 + len <= u64::MAX,
        ensures
            window_wf(final(self)@),
            final(self)@ == after_sent(old(self)@, mac@, ip, dst_ip, len),
    {
        let ghost s = self@;
        match find_acc(&self.devices, mac) {
            Some(k) => {
                let mut a = self.devices.remove(k);
                assert(a@ == s[k as int]);
                a.ip = ip;
                a.bytes_sent = a.bytes_sent + len;
                match find_dest(&a.destinations, dst_ip) {
                    Some(d) => {
                        let b = a.destinations[d].1;
                        a.destinations.set(d, (dst_ip, b + len));
                    },
                    None => {
                        a.destinations.push((dst_ip, len));
                    },
                }
                assert(a.destinations@ =~= add_dest(s[k as int].dests, dst_ip, len));
                self.devices.insert(k, a);
                proof {
                    assert(self@ =~= s.update(k as int, a@));
                    lemma_add_dest_distinct(s[k as int].dests, dst_ip, len);
                    lemma_update_keeps_wf(s, k as int, a@);
                }
            },
            None => {
                let a = DeviceAccum {
                    mac: String::from_str(mac),
                    ip,
                    bytes_sent: len,
                    bytes_recv: 0,
                    destinations: vec![(dst_ip, len)],
                };
                assert(a.destinations@ =~= seq![(dst_ip, len)]);
                self.devices.push(a);
                proof {
                    assert(self@ =~= s.push(a@));
                    lemma_absent(s, mac@);
                    lemma_push_keeps_wf(s, a@);
                }
            },
        }
    }

    fn add_recv(&mut self, mac: &str, ip: IpAddr, len: u64)
        requires
            window_wf(old(self)@),
            acc_index(old(self)@, mac@) >= 0 ==> old(self)@[acc_index(old(self)@, mac@)].recv
                + len <= u64::MAX,
        ensures
            window_wf(final(self)@),
            final(self)@ == after_recv(old(self)@, mac@, ip, len),
    {
        let ghost s = self@;
        match find_acc(&self.devices, mac) {
            Some(k) => {
                let mut a = self.devices.remove(k);
                assert(a@ == s[k as int]);
                a.bytes_recv = a.bytes_recv + len;
                self.devices.insert(k, a);
                proof {
                    assert(distinct_ips(s[k as int].dests));
                    assert(self@ =~= s.update(k as int, a@));
                    lemma_update_keeps_wf(s, k as int, a@);
                }
            },
            None => {
                let a = DeviceAccum {
                    mac: String::from_str(mac),
                    ip,
                    bytes_sent: 0,
                    bytes_recv: len,
                    destinations: Vec::new(),
                };
                assert(a.destinations@ =~= Seq::<(IpAddr, u64)>::empty());
                self.devices.push(a);
                proof {
                    assert(self@ =~= s.push(a@));
                    lemma_absent(s, mac@);
                    lemma_push_keeps_wf(s, a@);
                }
            },
        }
    }

    /// Counts one frame of `len` bytes: as sent by `src_mac` (whose IP
    /// becomes `src_ip`) to `dst_ip`, and as received by `dst_mac`.
    pub fn record_frame(
        &mut self,
        src_mac: &str,
        dst_mac: &str,
        src_ip: IpAddr,
        dst_ip: IpAddr,
        len: u64,
    )
        requires
            window_wf(old(self)@),
            frame_fits(old(self)@, src_mac@, dst_mac@, src_ip, dst_ip, len),
        ensures
            window_wf(final(self)@),
            final(self)@ == after_frame(old(self)@, src_mac@, dst_mac@, src_ip, dst_ip, len),
    {
        self.add_sent(src_mac, src_ip, dst_ip, len);
        self.add_recv(dst_mac, dst_ip, len);
    }

    /// Ends the window: one snapshot per device, in the order devices were
    /// first seen, each with its busiest destinations; the counters restart.
    pub fn drain(&mut self) -> (snaps: Vec<DeviceSnapshot>)
        requires
            window_wf(old(self)@),
        ensures
            window_wf(final(self)@),
            final(self)@ == Seq::<AccumView>::empty(),
            snaps@.len() == old(self)@.len(),
            forall|i: int| 0 <= i < snaps@.len() ==> drained_from(old(self)@[i], #[trigger] snaps@[i]@),
    {
        let ghost s = self@;
        let mut snaps: Vec<DeviceSnapshot> = Vec::new();
        let mut i: usize = 0;
        while i < self.devices.len()
            invariant
                i <= self.devices.len(),
                s == self@,
                window_wf(s),
                snaps@.len() == i,
                forall|j: int| 0 <= j < i ==> drained_from(s[j], #[trigger] snaps@[j]@),
            decreases self.devices.len() - i,
        {
            let a = &self.devices[i];
            assert(a@ == s[i as int]);
            assert(distinct_ips(s[i as int].dests));
            let top = top_destinations(&a.destinations, TOP_DESTINATIONS);
            snaps.push(
                DeviceSnapshot {
                    mac: a.mac.clone(),
                    ip: a.ip,
                    bytes_sent: a.bytes_sent,
                    bytes_recv: a.bytes_recv,
                    destinations: top,
                },
            );
            i = i + 1;
        }
        self.devices = Vec::new();
        assert(self@ =~= Seq::<AccumView>::empty());
        snaps
    }
}

/// Bytes sent, summed over the devices of a window.
pub open spec fn total_sent(s: Seq<AccumView>) -> nat
    decreases s.len(),
{
    if s.len() == 0 {
        0
    } else {
        total_sent(s.drop_last()) + s.last().sent as nat
    }
}

/// Bytes received, summed over the devices of a window.
pub open spec fn total_recv(s: Seq<AccumView>) -> nat
    decreases s.len(),
{
    if s.len() == 0 {
        0
    } else {
        total_recv(s.drop_last()) + s.last().recv as nat
    }
}

proof fn lemma_totals_update(s: Seq<AccumView>, k: int, a: AccumView)
    requires
        0 <= k < s.len(),
    ensures
        total_sent(s.update(k, a)) + s[k].sent == total_sent(s) + a.sent,
        total_recv(s.update(k, a)) + s[k].recv == total_recv(s) + a.recv,
    decreases s.len(),
{
    let n = s.update(k, a);
    if k == s.len() - 1 {
        assert(n.drop_last() =~= s.drop_last());
    } else {
        lemma_totals_update(s.drop_last(), k, a);
        assert(n.drop_last() =~= s.drop_last().update(k, a));
    }
}

/// Every counted frame adds its length once to the bytes sent and once to
/// the bytes received, summed over all devices of the window.
pub proof fn law_frame_counted_once(
    s: Seq<AccumView>,
    src: Seq<char>,
    dst: Seq<char>,
    src_ip: IpAddr,
    dst_ip: IpAddr,
    len: u64,
)
    requires
        window_wf(s),
        frame_fits(s, src, dst, src_ip, dst_ip, len),
    ensures
        total_sent(after_frame(s, src, dst, src_ip, dst_ip, len)) == total_sent(s) + len,
        total_recv(after_frame(s, src, dst, src_ip, dst_ip, len)) == total_recv(s) + len,
{
    let s1 = after_sent(s, src, src_ip, dst_ip, len);
    let k = acc_index(s, src);
    if k >= 0 {
        lemma_totals_update(s, k, s1[k]);
        assert(s1 == s.update(k, s1[k]));
    } else {
        assert(s1.drop_last() =~= s);
        assert(s1.last().sent == len);
    }
    assert(total_sent(s1) == total_sent(s) + len);
    assert(total_recv(s1) == total_recv(s));
    let s2 = after_recv(s1, dst, dst_ip, len);
    let k1 = acc_index(s1, dst);
    if k1 >= 0 {
        lemma_totals_update(s1, k1, s2[k1]);
        assert(s2 == s1.update(k1, s2[k1]));
    } else {
        assert(s2.drop_last() =~= s1);
        assert(s2.last().sent == 0);
        assert(s2.last().recv == len);
    }
}

// ---------------------------------------------------------------------------
// Frames
// ---------------------------------------------------------------------------

/// The header of an Ethernet frame.
pub struct EthernetHeader {
    pub destination: [u8; 6],
    pub source: [u8; 6],
    pub ethertype: u16,
}

/// Reads the header of an Ethernet frame with pnet:
/// `EthernetPacket::new(frame)`, then `get_destination`, `get_source` and
/// `get_ethertype`.
///
/// The contract claims what pnet's packet definition shows: `new` accepts a
/// buffer of at least the 14 header bytes; the destination is bytes 0..6,
/// the source bytes 6..12, and the EtherType the big-endian bytes 12..14.
#[verifier::external_body]
fn read_ethernet(frame: &[u8]) -> (r: Option<EthernetHeader>)
    ensures
        r is Some <==> frame@.len() >= 14,
        r matches Some(h) ==> h.destination@ == frame@.subrange(0, 6) && h.source@
            == frame@.subrange(6, 12) && h.ethertype == frame@[12] * 256 + frame@[13],
{
    match pnet::packet::ethernet::EthernetPacket::new(frame) {
        Some(e) => Some(
            EthernetHeader {
                destination: e.get_destination().octets(),
                source: e.get_source().octets(),
                ethertype: e.get_ethertype().0,
            },
        ),
        None => None,
    }
}

/// Reads the source and destination of an IPv4 packet with pnet:
/// `Ipv4Packet::new(packet)`, then `get_source` and `get_destination`.
///
/// The contract claims what pnet's packet definition shows: `new` accepts a
/// buffer of at least the 20 bytes of the fixed header; the source is bytes
/// 12..16 and the destination bytes 16..20.
#[verifier::external_body]
fn read_ipv4_addresses(packet: &[u8]) -> (r: Option<(IpAddr, IpAddr)>)
    ensures
        r is Some <==> packet@.len() >= 20,
        r matches Some((a, b)) ==> a == IpAddr::V4(packet@[12], packet@[13], packet@[14], packet@[15])
            && b == IpAddr::V4(packet@[16], packet@[17], packet@[18], packet@[19]),
{
    match pnet::packet::ipv4::Ipv4Packet::new(packet) {
        Some(p) => {
            let a = p.get_source().octets();
            let b = p.get_destination().octets();
            Some((IpAddr::V4(a[0], a[1], a[2], a[3]), IpAddr::V4(b[0], b[1], b[2], b[3])))
        },
        None => None,
    }
}

/// The big-endian 16-bit value at `i`.
pub open spec fn be16(p: Seq<u8>, i: int) -> u16 {
    (p[i] * 256 + p[i + 1]) as u16
}

/// The IPv6 address in the 16 bytes from `i`.
pub open spec fn v6_at(p: Seq<u8>, i: int) -> IpAddr {
    IpAddr::V6(
        be16(p, i),
        be16(p, i + 2),
        be16(p, i + 4),
        be16(p, i + 6),
        be16(p, i + 8),
        be16(p, i + 10),
        be16(p, i + 12),
        be16(p, i + 14),
    )
}

/// Reads the source and destination of an IPv6 packet with pnet:
/// `Ipv6Packet::new(packet)`, then `get_source` and `get_destination`.
///
/// The contract claims what pnet's packet definition shows: `new` accepts a
/// buffer of at least the 40 bytes of the fixed header; the source is the
/// eight big-endian segments in bytes 8..24, the destination those in bytes
/// 24..40.
#[verifier::external_body]
fn read_ipv6_addresses(packet: &[u8]) -> (r: Option<(IpAddr, IpAddr)>)
    ensures
        r is Some <==> packet@.len() >= 40,
        r matches Some((a, b)) ==> a == v6_at(packet@, 8) && b == v6_at(packet@, 24),
{
    match pnet::packet::ipv6::Ipv6Packet::new(packet) {
        Some(p) => {
            let a = p.get_source().segments();
            let b = p.get_destination().segments();
            Some(
                (
                    IpAddr::V6(a[0], a[1], a[2], a[3], a[4], a[5], a[6], a[7]),
                    IpAddr::V6(b[0], b[1], b[2], b[3], b[4], b[5], b[6], b[7]),
                ),
            )
        },
        None => None,
    }
}

/// The EtherType of IPv4.
pub const ETHERTYPE_IPV4: u16 = 0x0800;

/// The EtherType of IPv6.
pub const ETHERTYPE_IPV6: u16 = 0x86DD;

/// The source and destination IP of an Ethernet frame carrying IPv4 or
/// IPv6; `None` for a frame too short or carrying anything else.
pub open spec fn frame_ips(frame: Seq<u8>) -> Option<(IpAddr, IpAddr)> {
    if frame.len() < 14 {
        None
    } else {
        let t = frame[12] * 256 + frame[13];
        let p = frame.skip(14);
        if t == ETHERTYPE_IPV4 && p.len() >= 20 {
            Some(
                (
                    IpAddr::V4(p[12], p[13], p[14], p[15]),
                    IpAddr::V4(p[16], p[17], p[18], p[19]),
                ),
            )
        } else if t == ETHERTYPE_IPV6 && p.len() >= 40 {
            Some((v6_at(p, 8), v6_at(p, 24)))
        } else {
            None
        }
    }
}

/// What the capture loop counts of a frame.
pub struct FrameInfo {
    pub src_mac: String,
    pub dst_mac: String,
    pub src_ip: IpAddr,
    pub dst_ip: IpAddr,
    /// Length of the whole frame in bytes
    pub len: u64,
}

/// The MACs, IPs and length of an Ethernet frame carrying IPv4 or IPv6;
/// `None` for any other frame (ARP and the like are skipped).
pub fn parse_frame(frame: &[u8]) -> (r: Option<FrameInfo>)
    ensures
        r is Some <==> frame_ips(frame@) is Some,
        r matches Some(f) ==> {
            &&& f.src_mac@ == mac_text(frame@.subrange(6, 12))
            &&& f.dst_mac@ == mac_text(frame@.subrange(0, 6))
            &&& (f.src_ip, f.dst_ip) == frame_ips(frame@)->0
            &&& f.len == frame@.len()
        },
{
    let h = match read_ethernet(frame) {
        Some(h) => h,
        None => {
            return None;
        },
    };
    let payload = vstd::slice::slice_subrange(frame, 14, frame.len());
    assert(payload@ =~= frame@.skip(14));
    let ips = if h.ethertype == ETHERTYPE_IPV4 {
        read_ipv4_addresses(payload)
    } else if h.ethertype == ETHERTYPE_IPV6 {
        read_ipv6_addresses(payload)
    } else {
        None
    };
    match ips {
        Some((a, b)) => {
            let src_mac = format_mac(&h.source);
            let dst_mac = format_mac(&h.destination);
            Some(FrameInfo { src_mac, dst_mac, src_ip: a, dst_ip: b, len: frame.len() as u64 })
        },
        None => None,
    }
}

impl CaptureWindow {
    /// Counts a frame, when it carries IPv4 or IPv6 and no counter would
    /// pass `u64::MAX`; says whether it was counted.
    pub fn count_frame(&mut self, frame: &[u8]) -> (counted: bool)
        requires
            window_wf(old(self)@),
        ensures
            window_wf(final(self)@),
            ({
                let src = mac_text(frame@.subrange(6, 12));
                let dst = mac_text(frame@.subrange(0, 6));
                match frame_ips(frame@) {
                    Some((a, b)) => {
                        &&& counted == frame_fits(old(self)@, src, dst, a, b, frame@.len() as u64)
                        &&& final(self)@ == if counted {
                            after_frame(old(self)@, src, dst, a, b, frame@.len() as u64)
                        } else {
                            old(self)@
                        }
                    },
                    None => !counted && final(self)@ == old(self)@,
                }
            }),
    {
        match parse_frame(frame) {
            Some(f) => {
                if self.can_record(f.src_mac.as_str(), f.dst_mac.as_str(), f.src_ip, f.dst_ip, f.len) {
                    self.record_frame(f.src_mac.as_str(), f.dst_mac.as_str(), f.src_ip, f.dst_ip, f.len);
                    true
                } else {
                    false
                }
            },
            None => false,
        }
    }
}

// ---------------------------------------------------------------------------
// Demo traffic
// ---------------------------------------------------------------------------

/// The sub-second nanoseconds of the system clock (`SystemTime::now()`
/// since the Unix epoch, `subsec_nanos()`); for a clock set before the
/// epoch, those of its distance to the epoch.
///
/// The contract claims only the bound `subsec_nanos` documents: below one
/// billion.
#[verifier::external_body]
fn clock_subsec_nanos() -> (n: u32)
    ensures
        n < 1_000_000_000,
{
    match std::time::SystemTime::now().duration_since(std::time::UNIX_EPOCH) {
        Ok(d) => d.subsec_nanos(),
        Err(e) => e.duration().subsec_nanos(),
    }
}

/// The xorshift-style mixing of a seed.
pub open spec fn xorshift_mix(x: u64) -> u64 {
    let a = x ^ (x << 13u64);
    let b = a ^ (a >> 7u64);
    b ^ (b << 17u64)
}

/// Mixes a seed: `x ^= x << 13; x ^= x >> 7; x ^= x << 17`.
pub fn mix_nanos(x: u64) -> (r: u64)
    ensures
        r == xorshift_mix(x),
{
    let a = x ^ (x << 13u64);
    let b = a ^ (a >> 7u64);
    b ^ (b << 17u64)
}

/// A pseudo-random number for demo traffic: the mixed sub-second
/// nanoseconds of the system clock.
pub fn rand_u64() -> (r: u64)
    ensures
        exists|n: u64| n < 1_000_000_000 && r == xorshift_mix(n),
{
    let n = clock_subsec_nanos() as u64;
    mix_nanos(n)
}

/// The MAC of demo device `i`.
pub open spec fn demo_mac(i: int) -> Seq<char> {
    if i == 0 {
        "AA:BB:CC:DD:EE:01"@
    } else if i == 1 {
        "AA:BB:CC:DD:EE:02"@
    } else if i == 2 {
        "AA:BB:CC:DD:EE:03"@
    } else if i == 3 {
        "AA:BB:CC:DD:EE:04"@
    } else {
        "AA:BB:CC:DD:EE:05"@
    }
}

/// The IP of demo device `i`: 192.168.1.100 + i.
pub open spec fn demo_ip(i: int) -> IpAddr {
    IpAddr::V4(192, 168, 1, (100 + i) as u8)
}

/// The demo destinations, in order: google.com, facebook.com,
/// alexa.amazon.com, cloudflare.com, reddit.com.
pub open spec fn demo_dest(j: int) -> IpAddr {
    if j == 0 {
        IpAddr::V4(142, 250, 80, 46)
    } else if j == 1 {
        IpAddr::V4(31, 13, 71, 36)
    } else if j == 2 {
        IpAddr::V4(54, 239, 26, 128)
    } else if j == 3 {
        IpAddr::V4(104, 16, 51, 111)
    } else {
        IpAddr::V4(151, 101, 1, 140)
    }
}

/// A batch of demo snapshots: the five demo devices in order, each sending
/// 1000..51000 bytes, receiving 5000..205000 bytes, to the first one to
/// three demo destinations, 100..10100 bytes each.
pub open spec fn is_demo_batch(snaps: Seq<SnapshotView>) -> bool {
    &&& snaps.len() == 5
    &&& forall|i: int|
        0 <= i < 5 ==> {
            let s = #[trigger] snaps[i];
            &&& s.mac == demo_mac(i)
            &&& s.ip == demo_ip(i)
            &&& 1000 <= s.bytes_sent < 51000
            &&& 5000 <= s.bytes_recv < 205000
            &&& 1 <= s.destinations.len() <= 3
            &&& forall|j: int|
                0 <= j < s.destinations.len() ==> (#[trigger] s.destinations[j]).0 == demo_dest(j)
                    && 100 <= s.destinations[j].1 < 10100
        }
}

fn demo_mac_exec(i: usize) -> (s: String)
    requires
        i < 5,
    ensures
        s@ == demo_mac(i as int),
{
    if i == 0 {
        String::from_str("AA:BB:CC:DD:EE:01")
    } else if i == 1 {
        String::from_str("AA:BB:CC:DD:EE:02")
    } else if i == 2 {
        String::from_str("AA:BB:CC:DD:EE:03")
    } else if i == 3 {
        String::from_str("AA:BB:CC:DD:EE:04")
    } else {
        String::from_str("AA:BB:CC:DD:EE:05")
    }
}

fn demo_dest_exec(j: usize) -> (ip: IpAddr)
    ensures
        ip == demo_dest(j as int),
{
    if j == 0 {
        IpAddr::V4(142, 250, 80, 46)
    } else if j == 1 {
        IpAddr::V4(31, 13, 71, 36)
    } else if j == 2 {
        IpAddr::V4(54, 239, 26, 128)
    } else if j == 3 {
        IpAddr::V4(104, 16, 51, 111)
    } else {
        IpAddr::V4(151, 101, 1, 140)
    }
}

/// The number of random draws a batch of demo snapshots takes: six per
/// device (bytes sent, bytes received, destination count, and the bytes of
/// up to three destinations).
pub const DEMO_DRAWS: usize = 30;

/// The demo snapshot of device `k` from the random draws `draws`: draws
/// `6k` and `6k + 1` give the bytes sent and received, draw `6k + 2` the
/// number of destinations (one to three), draw `6k + 3 + j` the bytes of
/// destination `j`.
pub open spec fn demo_snapshot_of(draws: Seq<u64>, k: int) -> SnapshotView {
    SnapshotView {
        mac: demo_mac(k),
        ip: demo_ip(k),
        bytes_sent: (draws[6 * k] % 50000 + 1000) as u64,
        bytes_recv: (draws[6 * k + 1] % 200000 + 5000) as u64,
        destinations: Seq::new(
            (draws[6 * k + 2] % 3 + 1) as nat,
            |j: int| (demo_dest(j), (draws[6 * k + 3 + j] % 10000 + 100) as u64),
        ),
    }
}

/// The batch of demo snapshots the draws give: the five demo devices in
/// order.
pub open spec fn demo_batch_of(draws: Seq<u64>) -> Seq<SnapshotView> {
    Seq::new(5, |k: int| demo_snapshot_of(draws, k))
}

/// Every batch the draws give is a demo batch, whatever the draws.
pub proof fn law_demo_batch_in_ranges(draws: Seq<u64>)
    requires
        draws.len() == DEMO_DRAWS,
    ensures
        is_demo_batch(demo_batch_of(draws)),
{
}

/// The batch of demo snapshots the random draws `draws` give.
pub fn demo_snapshots_from(draws: &Vec<u64>) -> (snaps: Vec<DeviceSnapshot>)
    requires
        draws@.len() == DEMO_DRAWS,
    ensures
        snaps@.map_values(|s: DeviceSnapshot| s@) == demo_batch_of(draws@),
{
    let ghost want = demo_batch_of(draws@);
    let mut snaps: Vec<DeviceSnapshot> = Vec::new();
    let mut i: usize = 0;
    while i < 5
        invariant
            i <= 5,
            draws@.len() == DEMO_DRAWS,
            want == demo_batch_of(draws@),
            snaps@.len() == i,
            forall|k: int| 0 <= k < i ==> #[trigger] snaps@[k]@ == want[k],
        decreases 5 - i,
    {
        let base: usize = 6 * i;
        let base_sent = (draws[base] % 50000) + 1000;
        let base_recv = (draws[base + 1] % 200000) + 5000;
        let dest_count = (draws[base + 2] % 3) as usize + 1;
        let ghost want_dests = want[i as int].destinations;
        let mut dests: Vec<(IpAddr, u64)> = Vec::new();
        let mut j: usize = 0;
        while j < dest_count
            invariant
                j <= dest_count <= 3,
                base == 6 * i,
                i < 5,
                draws@.len() == DEMO_DRAWS,
                want_dests == demo_snapshot_of(draws@, i as int).destinations,
                want_dests.len() == dest_count,
                dests@.len() == j,
                forall|t: int| 0 <= t < j ==> #[trigger] dests@[t] == want_dests[t],
            decreases dest_count - j,
        {
            let b = (draws[base + 3 + j] % 10000) + 100;
            dests.push((demo_dest_exec(j), b));
            j = j + 1;
        }
        let snap = DeviceSnapshot {
            mac: demo_mac_exec(i),
            ip: IpAddr::V4(192, 168, 1, 100 + i as u8),
            bytes_sent: base_sent,
            bytes_recv: base_recv,
            destinations: dests,
        };
        assert(snap@.destinations =~= want_dests);
        snaps.push(snap);
        i = i + 1;
    }
    assert(snaps@.map_values(|s: DeviceSnapshot| s@) =~= want);
    snaps
}

/// Whether every draw is one that `rand_u64` can give.
pub open spec fn all_random_draws(draws: Seq<u64>) -> bool {
    forall|k: int|
        0 <= k < draws.len() ==> exists|n: u64| n < 1_000_000_000 && #[trigger] draws[k] == xorshift_mix(n)
}

/// One batch of synthetic snapshots for the demo mode: the batch of
/// `DEMO_DRAWS` fresh draws of `rand_u64`.
pub fn demo_snapshots() -> (snaps: Vec<DeviceSnapshot>)
    ensures
        exists|draws: Seq<u64>|
            draws.len() == DEMO_DRAWS && all_random_draws(draws) && snaps@.map_values(
                |s: DeviceSnapshot| s@,
            ) == demo_batch_of(draws),
        is_demo_batch(snaps@.map_values(|s: DeviceSnapshot| s@)),
{
    let mut draws: Vec<u64> = Vec::new();
    while draws.len() < DEMO_DRAWS
        invariant
            draws@.len() <= DEMO_DRAWS,
            all_random_draws(draws@),
        decreases DEMO_DRAWS - draws@.len(),
    {
        let ghost before = draws@;
        let r = rand_u64();
        draws.push(r);
        proof {
            assert forall|k: int| 0 <= k < draws@.len() implies exists|n: u64|
                n < 1_000_000_000 && #[trigger] draws@[k] == xorshift_mix(n) by {
                if k < before.len() {
                    assert(draws@[k] == before[k]);
                }
            }
        }
    }
    let snaps = demo_snapshots_from(&draws);
    proof {
        law_demo_batch_in_ranges(draws@);
    }
    snaps
}

} // verus!
