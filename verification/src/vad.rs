//! The voice gate: reading 16-bit audio, cutting it into chunks, the
//! wake-word rule over scored chunks, and the log of gate events.
use vstd::prelude::*;
use crate::text::{clone_opt_string, opt_text, str_eq};
use crate::store::{day_start, day_start_exec, time_ok};

verus! {

/// Samples per chunk the speech model scores.
pub const CHUNK_SAMPLES: usize = 512;

/// Consecutive speech chunks that suggest a wake word.
pub const WAKE_WORD_RUN: usize = 3;

/// The signed 16-bit value of two little-endian bytes.
pub open spec fn le_i16(lo: u8, hi: u8) -> int {
    let u = hi * 256 + lo;
    if u < 32768 {
        u
    } else {
        u - 65536
    }
}

/// Raw bytes read as 16-bit little-endian samples, two bytes each; a last
/// odd byte is dropped (`chunks_exact(2)` with `i16::from_le_bytes`).
pub fn pcm_samples(raw: &[u8]) -> (r: Vec<i16>)
    ensures
        r@.len() == raw@.len() / 2,
        forall|k: int| 0 <= k < r@.len() ==> #[trigger] r@[k] == le_i16(raw@[2 * k], raw@[2 * k + 1]),
{
    let n = raw.len() / 2;
    let mut r: Vec<i16> = Vec::new();
    let mut k: usize = 0;
    while k < n
        invariant
            k <= n,
            n == raw@.len() / 2,
            r@.len() == k,
            forall|m: int| 0 <= m < k ==> #[trigger] r@[m] == le_i16(raw@[2 * m], raw@[2 * m + 1]),
        decreases n - k,
    {
        let lo = raw[2 * k];
        let hi = raw[2 * k + 1];
        let u: u32 = (hi as u32) * 256 + (lo as u32);
        let v: i16 = if u < 32768 {
            u as i16
        } else {
            ((u as i32) - 65536) as i16
        };
        r.push(v);
        k = k + 1;
    }
    r
}

/// A chunk of `CHUNK_SAMPLES` samples starting at `offset`, filled up with
/// `fill` past the end of the buffer.
pub fn extract_chunk<T: Copy>(pcm: &[T], offset: usize, fill: T) -> (r: Vec<T>)
    ensures
        r@.len() == CHUNK_SAMPLES,
        forall|k: int|
            0 <= k < CHUNK_SAMPLES ==> #[trigger] r@[k] == if offset + k < pcm@.len() {
                pcm@[offset + k]
            } else {
                fill
            },
{
    let mut r: Vec<T> = Vec::new();
    let mut k: usize = 0;
    while k < CHUNK_SAMPLES
        invariant
            k <= CHUNK_SAMPLES,
            r@.len() == k,
            forall|m: int|
                0 <= m < k ==> #[trigger] r@[m] == if offset + m < pcm@.len() {
                    pcm@[offset + m]
                } else {
                    fill
                },
        decreases CHUNK_SAMPLES - k,
    {
        if offset < pcm.len() && k < pcm.len() - offset {
            r.push(pcm[offset + k]);
        } else {
            r.push(fill);
        }
        k = k + 1;
    }
    r
}

/// Whether `WAKE_WORD_RUN` consecutive chunks were scored as speech.
pub open spec fn has_speech_run(flags: Seq<bool>) -> bool {
    exists|i: int| 0 <= i && i + 3 <= flags.len() && #[trigger] flags[i] && flags[i + 1] && flags[i + 2]
}

/// Whether a wake word is likely, given for each recent chunk whether it
/// was scored as speech: at least three consecutive speech chunks.
pub fn sustained_speech(flags: &[bool]) -> (r: bool)
    ensures
        r == has_speech_run(flags@),
{
    let mut consecutive: usize = 0;
    let mut i: usize = 0;
    while i < flags.len()
        invariant
            i <= flags.len(),
            consecutive <= i,
            consecutive < WAKE_WORD_RUN,
            forall|m: int| i - consecutive <= m < i ==> flags@[m],
            consecutive < i ==> !flags@[i - consecutive - 1],
            forall|j: int| 0 <= j && j + 3 <= i ==> !(#[trigger] flags@[j] && flags@[j + 1] && flags@[j + 2]),
        decreases flags.len() - i,
    {
        if flags[i] {
            consecutive = consecutive + 1;
            if consecutive >= WAKE_WORD_RUN {
                assert(flags@[i - 2] && flags@[i - 1] && flags@[i as int]);
                return true;
            }
        } else {
            consecutive = 0;
        }
        proof {
            assert forall|j: int| 0 <= j && j + 3 <= i + 1 implies !(#[trigger] flags@[j] && flags@[j
                + 1] && flags@[j + 2]) by {
                if j + 3 == i + 1 && flags@[j] && flags@[j + 1] && flags@[j + 2] {
                    assert(flags@[i as int]);
                }
            }
        }
        i = i + 1;
    }
    false
}

// ---------------------------------------------------------------------------
// Event log
// ---------------------------------------------------------------------------

/// A single gate event record.
pub struct VadEvent {
    pub id: i64,
    /// Unix time (seconds) of the event
    pub timestamp: i64,
    pub event_type: String,
    pub destination_ip: String,
    pub duration_ms: Option<i64>,
    /// Bit pattern of the f64 speech score, if any
    pub speech_score_bits: Option<u64>,
    pub detail: Option<String>,
}

/// A gate event as the specifications see it.
pub struct VadEventView {
    pub id: i64,
    pub timestamp: i64,
    pub event_type: Seq<char>,
    pub destination_ip: Seq<char>,
    pub duration_ms: Option<i64>,
    pub speech_score_bits: Option<u64>,
    pub detail: Option<Seq<char>>,
}

impl View for VadEvent {
    type V = VadEventView;

    open spec fn view(&self) -> VadEventView {
        VadEventView {
            id: self.id,
            timestamp: self.timestamp,
            event_type: self.event_type@,
            destination_ip: self.destination_ip@,
            duration_ms: self.duration_ms,
            speech_score_bits: self.speech_score_bits,
            detail: opt_text(self.detail),
        }
    }
}

impl VadEvent {
    /// A copy of the event.
    pub fn duplicate(&self) -> (r: VadEvent)
        ensures
            r@ == self@,
    {
        VadEvent {
            id: self.id,
            timestamp: self.timestamp,
            event_type: self.event_type.clone(),
            destination_ip: self.destination_ip.clone(),
            duration_ms: self.duration_ms,
            speech_score_bits: self.speech_score_bits,
            detail: clone_opt_string(&self.detail),
        }
    }
}

/// The views of a list of events.
pub open spec fn events_view(v: Seq<VadEvent>) -> Seq<VadEventView> {
    v.map_values(|e: VadEvent| e@)
}

/// Why an event could not be logged.
#[derive(Clone, Copy, Debug, PartialEq, Eq, Structural)]
pub enum VadLogError {
    /// No row id is left
    Full,
}

/// The log of gate events, oldest first.
pub struct VadLog {
    events: Vec<VadEvent>,
    next_id: i64,
}

/// The log as the specifications see it.
pub struct VadLogView {
    pub events: Seq<VadEventView>,
    pub next_id: i64,
}

impl View for VadLog {
    type V = VadLogView;

    closed spec fn view(&self) -> VadLogView {
        VadLogView { events: events_view(self.events@), next_id: self.next_id }
    }
}

/// The log's invariant: events ordered by time, row ids below the next one.
pub open spec fn log_wf(v: VadLogView) -> bool {
    &&& forall|i: int, j: int| 0 <= i < j < v.events.len() ==> v.events[i].timestamp <= v.events[j].timestamp
    &&& forall|i: int| 0 <= i < v.events.len() ==> 1 <= #[trigger] v.events[i].id < v.next_id
    &&& v.next_id >= 1
}

/// Whether an event is newer than `cutoff`.
pub open spec fn event_after(cutoff: int) -> spec_fn(VadEventView) -> bool {
    |e: VadEventView| e.timestamp > cutoff
}

/// Whether an event has the given type and is newer than `cutoff`.
pub open spec fn event_of_type_after(t: Seq<char>, cutoff: int) -> spec_fn(VadEventView) -> bool {
    |e: VadEventView| e.event_type == t && e.timestamp > cutoff
}

/// `new` is `old` with `e` inserted after every event of the same time or
/// earlier and before every later one.
pub open spec fn logged_in_order(old: Seq<VadEventView>, e: VadEventView, new: Seq<VadEventView>) -> bool {
    exists|p: int|
        0 <= p <= old.len() && new == old.insert(p, e) && (forall|j: int|
            0 <= j < p ==> old[j].timestamp <= e.timestamp) && (forall|j: int|
            p <= j < old.len() ==> old[j].timestamp > e.timestamp)
}

impl VadLog {
    /// An empty log.
    pub fn new() -> (r: VadLog)
        ensures
            log_wf(r@),
            r@.events.len() == 0,
            r@.next_id == 1,
    {
        let r = VadLog { events: Vec::new(), next_id: 1 };
        assert(events_view(r.events@) =~= Seq::<VadEventView>::empty());
        r
    }

    /// Logs an event at `now` under the next row id, after every event of
    /// the same time or earlier. Fails with `Full` when no row id is left.
    pub fn log_event(
        &mut self,
        event_type: &str,
        destination_ip: &str,
        duration_ms: Option<i64>,
        speech_score_bits: Option<u64>,
        detail: Option<&str>,
        now: i64,
    ) -> (r: Result<(), VadLogError>)
        requires
            log_wf(old(self)@),
        ensures
            log_wf(final(self)@),
            r is Err <==> old(self)@.next_id == i64::MAX,
            r is Err ==> final(self)@ == old(self)@,
            r is Ok ==> final(self)@.next_id == old(self)@.next_id + 1 && logged_in_order(
                old(self)@.events,
                VadEventView {
                    id: old(self)@.next_id,
                    timestamp: now,
                    event_type: event_type@,
                    destination_ip: destination_ip@,
                    duration_ms,
                    speech_score_bits,
                    detail: match detail {
                        Some(d) => Some(d@),
                        None => None,
                    },
                },
                final(self)@.events,
            ),
    {
        if self.next_id == i64::MAX {
            return Err(VadLogError::Full);
        }
        let e = VadEvent {
            id: self.next_id,
            timestamp: now,
            event_type: String::from_str(event_type),
            destination_ip: String::from_str(destination_ip),
            duration_ms,
            speech_score_bits,
            detail: match detail {
                Some(d) => Some(String::from_str(d)),
                None => None,
            },
        };
        let ghost base = self@.events;
        let mut p: usize = 0;
        while p < self.events.len() && self.events[p].timestamp <= now
            invariant
                p <= self.events.len(),
                base == events_view(self.events@),
                forall|j: int| 0 <= j < p ==> base[j].timestamp <= now,
            decreases self.events.len() - p,
        {
            p = p + 1;
        }
        proof {
            assert forall|j: int| p <= j < base.len() implies base[j].timestamp > now by {
                assert(base[p as int].timestamp > now);
            }
        }
        self.events.insert(p, e);
        self.next_id = self.next_id + 1;
        proof {
            assert(self@.events =~= base.insert(p as int, e@));
            base.insert_ensures(p as int, e@);
            let n = self@.events;
            assert forall|i: int, j: int| 0 <= i < j < n.len() implies n[i].timestamp
                <= n[j].timestamp by {
                if i < p {
                    if j > p {
                        assert(n[j] == base[j - 1]);
                    }
                } else if i > p {
                    assert(n[i] == base[i - 1]);
                    assert(n[j] == base[j - 1]);
                } else {
                    assert(n[j] == base[j - 1]);
                }
            }
            assert forall|i: int| 0 <= i < n.len() implies 1 <= #[trigger] n[i].id < self.next_id by {
                if i < p {
                    assert(n[i] == base[i]);
                } else if i > p {
                    assert(n[i] == base[i - 1]);
                }
            }
        }
        Ok(())
    }

    /// The events of the last `hours` hours before `now`, most recent
    /// first.
    pub fn get_events(&self, hours: u32, now: i64) -> (r: Vec<VadEvent>)
        requires
            log_wf(self@),
            time_ok(now),
        ensures
            events_view(r@) == self@.events.filter(event_after(now - hours * 3600)).reverse(),
    {
        let cutoff = now - (hours as i64) * 3600;
        let ghost pred = event_after(cutoff as int);
        let ghost all = self@.events;
        let mut r: Vec<VadEvent> = Vec::new();
        let mut i: usize = self.events.len();
        assert(all.skip(i as int) =~= Seq::<VadEventView>::empty());
        assert(all.skip(i as int).filter(pred) =~= Seq::<VadEventView>::empty()) by {
            reveal(Seq::filter);
        }
        while i > 0
            invariant
                i <= self.events.len(),
                all == events_view(self.events@),
                events_view(r@) == all.skip(i as int).filter(pred).reverse(),
            decreases i,
        {
            i = i - 1;
            let ghost rest = all.skip(i + 1);
            proof {
                assert(all.skip(i as int) =~= seq![all[i as int]] + rest);
                assert((seq![all[i as int]] + rest).filter(pred) == seq![all[i as int]].filter(pred)
                    + rest.filter(pred)) by {
                    Seq::<VadEventView>::filter_distributes_over_add(seq![all[i as int]], rest, pred);
                }
                reveal(Seq::filter);
                assert(seq![all[i as int]].drop_last() =~= Seq::<VadEventView>::empty());
            }
            let e = &self.events[i];
            if e.timestamp > cutoff {
                let ghost before = r@;
                r.push(e.duplicate());
                proof {
                    assert(seq![all[i as int]].filter(pred) =~= seq![all[i as int]]);
                    assert(events_view(r@) =~= events_view(before).push(all[i as int]));
                    assert((seq![all[i as int]] + rest.filter(pred)).reverse() =~= rest.filter(
                        pred,
                    ).reverse().push(all[i as int]));
                }
            } else {
                proof {
                    assert(seq![all[i as int]].filter(pred) =~= Seq::<VadEventView>::empty());
                    assert(Seq::<VadEventView>::empty() + rest.filter(pred) =~= rest.filter(pred));
                }
            }
        }
        assert(all.skip(0) =~= all);
        r
    }

    /// The numbers of "ALLOWED" and "BLOCKED" events since midnight (UTC)
    /// of the day of `now`.
    pub fn get_today_stats(&self, now: i64) -> (r: (u32, u32))
        requires
            log_wf(self@),
            time_ok(now),
        ensures
            r.0 == self@.events.filter(event_of_type_after("ALLOWED"@, day_start(now as int))).len() as u32,
            r.1 == self@.events.filter(event_of_type_after("BLOCKED"@, day_start(now as int))).len() as u32,
    {
        let start = day_start_exec(now);
        let allowed = self.count_since("ALLOWED", start);
        let blocked = self.count_since("BLOCKED", start);
        (allowed as u32, blocked as u32)
    }

    fn count_since(&self, t: &str, cutoff: i64) -> (r: usize)
        ensures
            r == self@.events.filter(event_of_type_after(t@, cutoff as int)).len(),
    {
        let ghost pred = event_of_type_after(t@, cutoff as int);
        let ghost all = self@.events;
        let mut n: usize = 0;
        let mut i: usize = 0;
        while i < self.events.len()
            invariant
                i <= self.events.len(),
                all == events_view(self.events@),
                n == all.take(i as int).filter(pred).len(),
                n <= i,
            decreases self.events.len() - i,
        {
            proof {
                reveal(Seq::filter);
                assert(all.take(i + 1).drop_last() =~= all.take(i as int));
            }
            let e = &self.events[i];
            if e.timestamp > cutoff && str_eq(e.event_type.as_str(), t) {
                n = n + 1;
            }
            i = i + 1;
        }
        assert(all.take(self.events.len() as int) =~= all);
        n
    }
}

/// An event that was logged is listed by every later query whose window
/// reaches back past it.
pub proof fn law_logged_event_listed(
    old: Seq<VadEventView>,
    e: VadEventView,
    new: Seq<VadEventView>,
    cutoff: int,
)
    requires
        logged_in_order(old, e, new),
        e.timestamp > cutoff,
    ensures
        new.filter(event_after(cutoff)).reverse().contains(e),
{
    let p = choose|p: int|
        0 <= p <= old.len() && new == old.insert(p, e) && (forall|j: int|
            0 <= j < p ==> old[j].timestamp <= e.timestamp) && (forall|j: int|
            p <= j < old.len() ==> old[j].timestamp > e.timestamp);
    assert(new[p] == e);
    new.lemma_filter_contains(event_after(cutoff), p);
    let f = new.filter(event_after(cutoff));
    let k = choose|k: int| 0 <= k < f.len() && f[k] == e;
    assert(f.reverse()[f.len() - 1 - k] == e);
}

} // verus!
