//! The metrics store: all-time counters and a rolling one-hour window.
//!
//! Every completed request is recorded once against its normalized endpoint
//! path and final status code. The store keeps all-time totals plus a ring
//! of 60 one-minute buckets that together approximate the trailing hour at
//! bucket granularity.
//!
//! Time enters every operation as a plain millisecond reading taken by the
//! caller, so the whole store is verified for any monotone sequence of
//! readings; the convenience methods that read the clock themselves clamp
//! the reading to keep it monotone.

use vstd::prelude::*;
use crate::clock::clock_ms;
use crate::counts::{CountMap, map_of, spec_bump};
use crate::{spec_is_success, spec_is_failure, is_success, is_failure};

verus! {

/// Number of buckets in the rolling window ring, one per minute.
pub const ROLLING_WINDOW_BUCKETS: usize = 60;

/// Length of one bucket's span in milliseconds.
pub const BUCKET_DURATION_MS: u64 = 60_000;

/// Length of the rolling window in milliseconds.
pub const WINDOW_MS: u64 = 3_600_000;

/// One recorded request: its normalized endpoint, final status code, and
/// the time it was recorded.
pub ghost struct Event {
    pub endpoint: Seq<char>,
    pub status: u16,
    pub time: u64,
}

/// The mathematical content of one time bucket.
pub ghost struct BucketModel {
    pub start: Option<u64>,
    pub requests: u64,
    pub successes: u64,
    pub failures: u64,
    pub hits: Map<Seq<char>, nat>,
}

/// The start time of a bucket, 0 when it was never used.
pub open spec fn bstart(b: BucketModel) -> u64 {
    match b.start {
        Some(s) => s,
        None => 0,
    }
}

/// A bucket that was never used is all zeros, and every per-bucket hit
/// counter was created by a recorded hit: at least 1, at most the bucket's
/// request count.
pub open spec fn bucket_wf(b: BucketModel) -> bool {
    &&& (b.start is None ==> b.requests == 0 && b.successes == 0 && b.failures == 0 && b.hits
        == Map::<Seq<char>, nat>::empty())
    &&& b.successes <= b.requests
    &&& b.failures <= b.requests
    &&& forall|k: Seq<char>| b.hits.contains_key(k) ==> 1 <= b.hits[k] <= b.requests
}

/// A map's count at a key, 0 when the key is absent.
pub open spec fn count_at(m: Map<Seq<char>, nat>, k: Seq<char>) -> nat {
    if m.contains_key(k) {
        m[k]
    } else {
        0
    }
}

/// One key's hit count in one bucket, 0 when the bucket never saw it.
pub open spec fn hit_at(b: BucketModel, k: Seq<char>) -> nat {
    count_at(b.hits, k)
}

/// One key's hit count summed over all buckets, window or not.
pub open spec fn sum_hits_at(bs: Seq<BucketModel>, k: Seq<char>) -> nat
    decreases bs.len(),
{
    if bs.len() == 0 {
        0
    } else {
        sum_hits_at(bs.drop_last(), k) + hit_at(bs.last(), k)
    }
}

/// A bucket is expired when it was never used or a full bucket span has
/// passed since it started; `duration_since` saturates, so a start in the
/// future never counts as expired.
pub open spec fn spec_bucket_expired(b: BucketModel, now: u64) -> bool {
    match b.start {
        None => true,
        Some(s) => now >= s && now - s >= BUCKET_DURATION_MS,
    }
}

/// A bucket belongs to the rolling window when it has started and less than
/// a window's length has passed since its start.
pub open spec fn spec_bucket_within(b: BucketModel, now: u64, window: u64) -> bool {
    match b.start {
        None => false,
        Some(s) => (if now >= s {
            now - s
        } else {
            0
        }) < window,
    }
}

/// One time bucket of the rolling window.
pub struct TimeBucket {
    /// When this bucket started accumulating; `None` if never used.
    pub start_time: Option<u64>,
    /// Requests recorded in this bucket.
    pub requests: u64,
    /// Success responses (2xx) recorded in this bucket.
    pub successes: u64,
    /// Failure responses (4xx/5xx) recorded in this bucket.
    pub failures: u64,
    /// Per-endpoint hit counters of this bucket.
    pub endpoint_hits: CountMap,
}

impl TimeBucket {
    /// The bucket's per-endpoint counters have unique keys.
    pub open spec fn wf(&self) -> bool {
        self.endpoint_hits.wf()
    }

    /// The bucket's mathematical content.
    pub open spec fn view(&self) -> BucketModel {
        BucketModel {
            start: self.start_time,
            requests: self.requests,
            successes: self.successes,
            failures: self.failures,
            hits: self.endpoint_hits@,
        }
    }

    /// Creates a never-used bucket.
    pub fn new() -> (r: Self)
        ensures
            r.wf(),
            r@ == (BucketModel {
                start: None::<u64>,
                requests: 0,
                successes: 0,
                failures: 0,
                hits: Map::<Seq<char>, nat>::empty(),
            }),
    {
        TimeBucket {
            start_time: None,
            requests: 0,
            successes: 0,
            failures: 0,
            endpoint_hits: CountMap::new(),
        }
    }

    /// Clears the bucket and restarts it at the given time.
    pub fn reset(&mut self, start_time: u64)
        ensures
            final(self).wf(),
            final(self)@ == (BucketModel {
                start: Some(start_time),
                requests: 0,
                successes: 0,
                failures: 0,
                hits: Map::<Seq<char>, nat>::empty(),
            }),
    {
        self.start_time = Some(start_time);
        self.requests = 0;
        self.successes = 0;
        self.failures = 0;
        self.endpoint_hits = CountMap::new();
    }

    /// Whether the bucket is expired at the given time and the ring must
    /// advance before recording.
    pub fn is_expired(&self, now: u64) -> (r: bool)
        ensures
            r == spec_bucket_expired(self@, now),
    {
        match self.start_time {
            Some(start) => now >= start && now - start >= BUCKET_DURATION_MS,
            None => true,
        }
    }

    /// Counts one request in this bucket under its status classification.
    pub fn record(&mut self, endpoint: &str, status_code: u16)
        requires
            old(self).wf(),
            bucket_wf(old(self)@),
            old(self)@.requests < u64::MAX,
        ensures
            final(self).wf(),
            final(self)@ == spec_bucket_bump(old(self)@, endpoint@, status_code),
    {
        self.requests = self.requests + 1;
        if is_success(status_code) {
            self.successes = self.successes + 1;
        }
        if is_failure(status_code) {
            self.failures = self.failures + 1;
        }
        self.endpoint_hits.increment(endpoint);
    }

    /// Whether the bucket still belongs to a rolling window of the given
    /// length at the given time.
    pub fn is_within_window(&self, now: u64, window: u64) -> (r: bool)
        ensures
            r == spec_bucket_within(self@, now, window),
    {
        match self.start_time {
            Some(start) => {
                let elapsed = if now >= start {
                    now - start
                } else {
                    0
                };
                elapsed < window
            },
            None => false,
        }
    }
}

/// Whether an event's status counts as a success (2xx).
pub open spec fn ev_success(e: Event) -> bool {
    spec_is_success(e.status)
}

/// Whether an event's status counts as a failure (4xx/5xx).
pub open spec fn ev_failure(e: Event) -> bool {
    spec_is_failure(e.status)
}

/// Whether an event's status is informational or a redirect (1xx/3xx):
/// counted in the request total but in neither outcome counter.
pub open spec fn ev_other(e: Event) -> bool {
    !ev_success(e) && !ev_failure(e)
}

/// How many events of a history satisfy a predicate.
pub open spec fn count_events(events: Seq<Event>, p: spec_fn(Event) -> bool) -> nat
    decreases events.len(),
{
    if events.len() == 0 {
        0
    } else {
        count_events(events.drop_last(), p) + (if p(events.last()) {
            1nat
        } else {
            0
        })
    }
}

/// The per-endpoint hit counts a history accumulates.
pub open spec fn hits_of(events: Seq<Event>) -> Map<Seq<char>, nat>
    decreases events.len(),
{
    if events.len() == 0 {
        Map::empty()
    } else {
        spec_bump(hits_of(events.drop_last()), events.last().endpoint)
    }
}

/// The total of the buckets' request counters, window or not.
pub open spec fn sum_requests(bs: Seq<BucketModel>) -> nat
    decreases bs.len(),
{
    if bs.len() == 0 {
        0
    } else {
        sum_requests(bs.drop_last()) + bs.last().requests as nat
    }
}

/// The total over the buckets inside the window of a chosen counter.
pub open spec fn sum_rolling(bs: Seq<BucketModel>, now: u64, f: spec_fn(BucketModel) -> nat) -> nat
    decreases bs.len(),
{
    if bs.len() == 0 {
        0
    } else {
        sum_rolling(bs.drop_last(), now, f) + (if spec_bucket_within(bs.last(), now, WINDOW_MS) {
            f(bs.last())
        } else {
            0
        })
    }
}

/// The merged per-endpoint hit counts of the buckets inside the window.
pub open spec fn rolling_hits(bs: Seq<BucketModel>, now: u64) -> Map<Seq<char>, nat>
    decreases bs.len(),
{
    if bs.len() == 0 {
        Map::empty()
    } else {
        let rest = rolling_hits(bs.drop_last(), now);
        if spec_bucket_within(bs.last(), now, WINDOW_MS) {
            spec_map_add(rest, bs.last().hits)
        } else {
            rest
        }
    }
}

/// Merges two count maps, adding the counts of shared keys.
pub open spec fn spec_map_add(a: Map<Seq<char>, nat>, b: Map<Seq<char>, nat>) -> Map<
    Seq<char>,
    nat,
> {
    Map::new(
        |k: Seq<char>| a.contains_key(k) || b.contains_key(k),
        |k: Seq<char>|
            (if a.contains_key(k) {
                a[k]
            } else {
                0
            }) + (if b.contains_key(k) {
                b[k]
            } else {
                0
            }),
    )
}

/// The position `k` steps behind `current` on the 60-slot ring.
pub open spec fn ring_pos(current: int, k: int) -> int
    recommends
        0 <= current < 60,
        0 <= k < 60,
{
    if current >= k {
        current - k
    } else {
        current + 60 - k
    }
}

/// The mathematical state of the metrics store.
pub ghost struct MetricsModel {
    /// All-time request count.
    pub total_requests: u64,
    /// All-time success count (2xx).
    pub total_successes: u64,
    /// All-time failure count (4xx/5xx).
    pub total_failures: u64,
    /// All-time per-endpoint hit counts.
    pub hits: Map<Seq<char>, nat>,
    /// The rolling window ring.
    pub buckets: Seq<BucketModel>,
    /// The ring slot currently being written.
    pub current: int,
    /// The largest time reading any operation has seen.
    pub last_time: u64,
    /// Every request ever recorded, in order.
    pub events: Seq<Event>,
    /// Requests whose bucket was reused and dropped from the ring.
    pub lost: nat,
}

impl MetricsModel {
    /// The time of the first recorded request, 0 before any.
    pub open spec fn first_time(self) -> u64 {
        if self.events.len() > 0 {
            self.events[0].time
        } else {
            0
        }
    }

    /// Buckets behind the current one started at least one bucket span
    /// earlier per step behind, so a full circle spans at least the window.
    pub open spec fn ring_ordered(self) -> bool {
        self.buckets[self.current].start is Some ==> forall|k: int|
            1 <= k < 60 ==> (#[trigger] self.buckets[ring_pos(self.current, k)].start is Some
                ==> bstart(self.buckets[ring_pos(self.current, k)]) + k * (
            BUCKET_DURATION_MS as int) <= bstart(self.buckets[self.current]))
    }

    /// The store's invariant: the counters agree with the event history,
    /// the ring is well formed and ordered, no rolling count was lost
    /// before a window's length had passed, and all times are bracketed by
    /// the first and latest reading.
    pub open spec fn wf(self) -> bool {
        &&& self.buckets.len() == 60
        &&& 0 <= self.current < 60
        &&& self.total_requests as nat == self.events.len()
        &&& self.total_successes as nat == count_events(self.events, |e: Event| ev_success(e))
        &&& self.total_failures as nat == count_events(self.events, |e: Event| ev_failure(e))
        &&& self.hits == hits_of(self.events)
        &&& forall|i: int|
            0 <= i < self.events.len() ==> self.first_time() <= #[trigger] self.events[i].time
                <= self.last_time
        &&& forall|i: int| 0 <= i < 60 ==> bucket_wf(#[trigger] self.buckets[i])
        &&& forall|i: int|
            0 <= i < 60 && (#[trigger] self.buckets[i].start) is Some ==> self.events.len() > 0
                && self.first_time() <= bstart(self.buckets[i]) <= self.last_time
        &&& (self.buckets[self.current].start is None ==> forall|i: int|
            0 <= i < 60 ==> (#[trigger] self.buckets[i].start) is None)
        &&& self.ring_ordered()
        &&& sum_requests(self.buckets) + self.lost == self.total_requests
        &&& forall|k: Seq<char>| #[trigger] sum_hits_at(self.buckets, k) <= count_at(self.hits, k)
        &&& (self.lost > 0 ==> self.last_time >= self.first_time() + WINDOW_MS)
    }
}

/// The ring after the expiry check: unchanged while the current bucket is
/// live, else advanced one slot with that slot reset to start now; the
/// requests of the reused slot are dropped from the rolling window.
pub open spec fn spec_rotate(m: MetricsModel, now: u64) -> MetricsModel {
    if spec_bucket_expired(m.buckets[m.current], now) {
        let nc = if m.current == 59 {
            0
        } else {
            m.current + 1
        };
        let reset = BucketModel {
            start: Some(now),
            requests: 0,
            successes: 0,
            failures: 0,
            hits: Map::<Seq<char>, nat>::empty(),
        };
        MetricsModel {
            current: nc,
            buckets: m.buckets.update(nc, reset),
            lost: m.lost + m.buckets[nc].requests as nat,
            ..m
        }
    } else {
        m
    }
}

/// The store after recording one request: all-time counters and hit map
/// updated by the status classification, the event appended, the latest
/// time reading advanced, and the (rotated) current bucket incremented.
pub open spec fn spec_record(m: MetricsModel, endpoint: Seq<char>, status: u16, now: u64) -> MetricsModel {
    let e = Event { endpoint, status, time: now };
    let m1 = MetricsModel {
        total_requests: (m.total_requests + 1) as u64,
        total_successes: if spec_is_success(status) {
            (m.total_successes + 1) as u64
        } else {
            m.total_successes
        },
        total_failures: if spec_is_failure(status) {
            (m.total_failures + 1) as u64
        } else {
            m.total_failures
        },
        hits: spec_bump(m.hits, endpoint),
        last_time: now,
        events: m.events.push(e),
        ..m
    };
    let m2 = spec_rotate(m1, now);
    let b = m2.buckets[m2.current];
    let b2 = BucketModel {
        start: b.start,
        requests: (b.requests + 1) as u64,
        successes: if spec_is_success(status) {
            (b.successes + 1) as u64
        } else {
            b.successes
        },
        failures: if spec_is_failure(status) {
            (b.failures + 1) as u64
        } else {
            b.failures
        },
        hits: spec_bump(b.hits, endpoint),
    };
    MetricsModel { buckets: m2.buckets.update(m2.current, b2), ..m2 }
}

/// The current bucket after one request lands in it.
pub open spec fn spec_bucket_bump(b: BucketModel, endpoint: Seq<char>, status: u16) -> BucketModel {
    BucketModel {
        start: b.start,
        requests: (b.requests + 1) as u64,
        successes: if spec_is_success(status) {
            (b.successes + 1) as u64
        } else {
            b.successes
        },
        failures: if spec_is_failure(status) {
            (b.failures + 1) as u64
        } else {
            b.failures
        },
        hits: spec_bump(b.hits, endpoint),
    }
}

/// The success predicate on events, as a first-class function.
pub open spec fn succ_pred() -> spec_fn(Event) -> bool {
    |e: Event| ev_success(e)
}

/// The failure predicate on events, as a first-class function.
pub open spec fn fail_pred() -> spec_fn(Event) -> bool {
    |e: Event| ev_failure(e)
}

/// The informational-or-redirect predicate on events.
pub open spec fn other_pred() -> spec_fn(Event) -> bool {
    |e: Event| ev_other(e)
}

proof fn lemma_count_push(events: Seq<Event>, p: spec_fn(Event) -> bool, e: Event)
    ensures
        count_events(events.push(e), p) == count_events(events, p) + (if p(e) {
            1nat
        } else {
            0
        }),
{
    assert(events.push(e).drop_last() =~= events);
    assert(events.push(e).last() == e);
}

proof fn lemma_count_le_len(events: Seq<Event>, p: spec_fn(Event) -> bool)
    ensures
        count_events(events, p) <= events.len(),
    decreases events.len(),
{
    if events.len() > 0 {
        lemma_count_le_len(events.drop_last(), p);
    }
}

proof fn lemma_hits_of_push(events: Seq<Event>, e: Event)
    ensures
        hits_of(events.push(e)) == spec_bump(hits_of(events), e.endpoint),
{
    assert(events.push(e).drop_last() =~= events);
    assert(events.push(e).last() == e);
}

proof fn lemma_hits_le_len(events: Seq<Event>, k: Seq<char>)
    ensures
        hits_of(events).contains_key(k) ==> hits_of(events)[k] <= events.len(),
    decreases events.len(),
{
    if events.len() > 0 {
        lemma_hits_le_len(events.drop_last(), k);
    }
}

proof fn lemma_sum_update(bs: Seq<BucketModel>, i: int, b: BucketModel)
    requires
        0 <= i < bs.len(),
    ensures
        sum_requests(bs.update(i, b)) == sum_requests(bs) - bs[i].requests + b.requests,
    decreases bs.len(),
{
    let t = bs.update(i, b);
    if i == bs.len() - 1 {
        assert(t.drop_last() =~= bs.drop_last());
    } else {
        assert(t.drop_last() =~= bs.drop_last().update(i, b));
        assert(t.last() == bs.last());
        lemma_sum_update(bs.drop_last(), i, b);
    }
}

proof fn lemma_sum_ge_element(bs: Seq<BucketModel>, i: int)
    requires
        0 <= i < bs.len(),
    ensures
        bs[i].requests <= sum_requests(bs),
    decreases bs.len(),
{
    if i == bs.len() - 1 {
    } else {
        lemma_sum_ge_element(bs.drop_last(), i);
    }
}

proof fn lemma_sum_hits_update(bs: Seq<BucketModel>, i: int, b: BucketModel, k: Seq<char>)
    requires
        0 <= i < bs.len(),
    ensures
        sum_hits_at(bs.update(i, b), k) == sum_hits_at(bs, k) - hit_at(bs[i], k) + hit_at(b, k),
    decreases bs.len(),
{
    let t = bs.update(i, b);
    if i == bs.len() - 1 {
        assert(t.drop_last() =~= bs.drop_last());
    } else {
        assert(t.drop_last() =~= bs.drop_last().update(i, b));
        assert(t.last() == bs.last());
        lemma_sum_hits_update(bs.drop_last(), i, b, k);
    }
}

proof fn lemma_sum_hits_zero(bs: Seq<BucketModel>, k: Seq<char>)
    requires
        forall|i: int| 0 <= i < bs.len() ==> (#[trigger] bs[i]).hits == Map::<Seq<char>, nat>::empty(),
    ensures
        sum_hits_at(bs, k) == 0,
    decreases bs.len(),
{
    if bs.len() > 0 {
        lemma_sum_hits_zero(bs.drop_last(), k);
    }
}

proof fn lemma_ring_shift(c: int, k: int)
    requires
        0 <= c < 60,
        1 <= k < 60,
    ensures
        ring_pos(if c == 59 {
            0
        } else {
            c + 1
        }, k) == ring_pos(c, k - 1),
        ring_pos(if c == 59 {
            0
        } else {
            c + 1
        }, k) != (if c == 59 {
            0int
        } else {
            c + 1
        }),
{
}

/// Recording preserves the store's invariant for any monotone time reading.
proof fn lemma_record_preserves_wf(m: MetricsModel, endpoint: Seq<char>, status: u16, now: u64)
    requires
        m.wf(),
        now >= m.last_time,
        m.total_requests < u64::MAX,
    ensures
        spec_record(m, endpoint, status, now).wf(),
{
    let e = Event { endpoint, status, time: now };
    let f = spec_record(m, endpoint, status, now);
    let c = m.current;
    let expired = spec_bucket_expired(m.buckets[c], now);
    let nc: int = if !expired {
        c
    } else if c == 59 {
        0
    } else {
        c + 1
    };

    // All-time counters against the extended history.
    lemma_count_push(m.events, succ_pred(), e);
    lemma_count_push(m.events, fail_pred(), e);
    lemma_count_le_len(m.events, succ_pred());
    lemma_count_le_len(m.events, fail_pred());
    lemma_hits_of_push(m.events, e);
    assert(count_events(m.events, |ev: Event| ev_success(ev)) == count_events(
        m.events,
        succ_pred(),
    ));
    assert(count_events(m.events, |ev: Event| ev_failure(ev)) == count_events(
        m.events,
        fail_pred(),
    ));
    assert(count_events(f.events, |ev: Event| ev_success(ev)) == count_events(
        f.events,
        succ_pred(),
    ));
    assert(count_events(f.events, |ev: Event| ev_failure(ev)) == count_events(
        f.events,
        fail_pred(),
    ));
    assert(f.total_requests as nat == f.events.len());
    assert(f.total_successes as nat == count_events(f.events, succ_pred()));
    assert(f.total_failures as nat == count_events(f.events, fail_pred()));
    assert(f.hits == hits_of(f.events));

    // Times are bracketed by the (stable) first reading and the new latest.
    assert(f.events[0] == if m.events.len() > 0 {
        m.events[0]
    } else {
        e
    });
    assert(f.first_time() == if m.events.len() > 0 {
        m.first_time()
    } else {
        now
    });
    assert forall|i: int| 0 <= i < f.events.len() implies f.first_time()
        <= #[trigger] f.events[i].time <= f.last_time by {
        if i < m.events.len() {
            assert(f.events[i] == m.events[i]);
        }
    }

    // The ring after rotation and the bump of the (new) current bucket.
    let bnc = m.buckets[nc];
    let reset = BucketModel {
        start: Some(now),
        requests: 0,
        successes: 0,
        failures: 0,
        hits: Map::<Seq<char>, nat>::empty(),
    };
    let mid: Seq<BucketModel> = if expired {
        m.buckets.update(nc, reset)
    } else {
        m.buckets
    };
    assert(f.current == nc);
    assert(f.buckets =~= mid.update(nc, spec_bucket_bump(mid[nc], endpoint, status)));
    assert(f.lost == if expired {
        m.lost + bnc.requests as nat
    } else {
        m.lost
    });

    // The bumped bucket's counters stay within a fresh or live bucket.
    lemma_sum_ge_element(m.buckets, nc);
    assert(mid[nc].requests < u64::MAX);
    assert(bucket_wf(mid[nc]));
    assert(mid[nc].start is Some);
    let bumped = spec_bucket_bump(mid[nc], endpoint, status);
    assert forall|k: Seq<char>| bumped.hits.contains_key(k) implies 1 <= bumped.hits[k]
        <= bumped.requests by {
        if k != endpoint {
            assert(mid[nc].hits.contains_key(k) && bumped.hits[k] == mid[nc].hits[k]);
        }
    }
    assert(bucket_wf(bumped));
    assert forall|i: int| 0 <= i < 60 implies bucket_wf(#[trigger] f.buckets[i]) by {
        if i != nc {
            assert(f.buckets[i] == m.buckets[i]);
        }
    }

    // Start times of all buckets stay bracketed.
    assert forall|i: int|
        0 <= i < 60 && (#[trigger] f.buckets[i].start) is Some implies f.events.len() > 0
        && f.first_time() <= bstart(f.buckets[i]) <= f.last_time by {
        if i != nc {
            assert(f.buckets[i] == m.buckets[i]);
        } else {
            if expired {
                assert(bstart(f.buckets[i]) == now);
            } else {
                assert(f.buckets[i].start == m.buckets[i].start);
            }
        }
    }

    // The new current bucket has started, so the all-empty clause is vacuous.
    assert(f.buckets[f.current].start is Some);

    // Ring ordering.
    if expired {
        assert(bstart(f.buckets[f.current]) == now);
        assert forall|k: int|
            1 <= k < 60 && (#[trigger] f.buckets[ring_pos(nc, k)].start) is Some implies bstart(
            f.buckets[ring_pos(nc, k)],
        ) + k * (BUCKET_DURATION_MS as int) <= now by {
            lemma_ring_shift(c, k);
            let p = ring_pos(c, k - 1);
            assert(p != nc);
            assert(f.buckets[p] == m.buckets[p]);
            assert(m.buckets[p].start is Some);
            assert(m.events.len() > 0);
            if m.buckets[c].start is None {
                assert(m.buckets[p].start is None);
                assert(false);
            }
            let s0 = bstart(m.buckets[c]);
            assert(now >= s0 + BUCKET_DURATION_MS);
            if k == 1 {
                assert(p == c);
            } else {
                assert(1 <= k - 1 < 60);
                assert(bstart(m.buckets[ring_pos(c, k - 1)]) + (k - 1) * (
                BUCKET_DURATION_MS as int) <= s0);
            }
        }
        assert(f.ring_ordered());
    } else {
        assert(m.buckets[c].start is Some);
        assert(f.buckets[c].start == m.buckets[c].start);
        assert forall|k: int|
            1 <= k < 60 && (#[trigger] f.buckets[ring_pos(c, k)].start) is Some implies bstart(
            f.buckets[ring_pos(c, k)],
        ) + k * (BUCKET_DURATION_MS as int) <= bstart(f.buckets[c]) by {
            let p = ring_pos(c, k);
            assert(p != c);
            assert(f.buckets[p] == m.buckets[p]);
            assert(m.ring_ordered());
            assert(bstart(m.buckets[p]) + k * (BUCKET_DURATION_MS as int) <= bstart(m.buckets[c]));
        }
        assert(f.ring_ordered());
    }

    // The rolling sum and the lost counter balance the total.
    if expired {
        lemma_sum_update(m.buckets, nc, reset);
        lemma_sum_update(mid, nc, bumped);
    } else {
        lemma_sum_update(m.buckets, nc, bumped);
    }
    assert(sum_requests(f.buckets) + f.lost == f.total_requests);

    // Each key's hit sum over the buckets stays below its all-time count:
    // the record adds one hit to both sides and a reset only drops hits.
    assert forall|k: Seq<char>| #[trigger] sum_hits_at(f.buckets, k) <= count_at(f.hits, k) by {
        if expired {
            lemma_sum_hits_update(m.buckets, nc, reset, k);
        }
        lemma_sum_hits_update(mid, nc, bumped, k);
        assert(hit_at(bumped, k) == hit_at(mid[nc], k) + (if k == endpoint {
            1nat
        } else {
            0
        }));
        assert(count_at(f.hits, k) == count_at(m.hits, k) + (if k == endpoint {
            1nat
        } else {
            0
        }));
        assert(sum_hits_at(m.buckets, k) <= count_at(m.hits, k));
    }

    // A lost count implies a full window has passed.
    if f.lost > 0 {
        assert(f.events.len() > 0);
        if expired && bnc.requests > 0 {
            assert(bnc.start is Some);
            assert(m.events.len() > 0);
            if m.buckets[c].start is None {
                assert(false);
            }
            let s0 = bstart(m.buckets[c]);
            assert(ring_pos(c, 59) == nc);
            assert(m.ring_ordered());
            assert(bstart(bnc) + 59 * (BUCKET_DURATION_MS as int) <= s0);
            assert(now >= s0 + BUCKET_DURATION_MS);
            assert(now >= bstart(bnc) + WINDOW_MS);
            assert(bstart(bnc) >= m.first_time());
            assert(f.last_time >= f.first_time() + WINDOW_MS);
        } else {
            assert(m.lost > 0);
            assert(m.events.len() > 0);
            assert(f.first_time() == m.first_time());
            assert(f.last_time >= m.last_time);
        }
    }

    assert(f.wf());
}

/// The store of a freshly started server: all counters zero, every bucket
/// unused, no history.
pub open spec fn spec_init_metrics() -> MetricsModel {
    MetricsModel {
        total_requests: 0,
        total_successes: 0,
        total_failures: 0,
        hits: Map::<Seq<char>, nat>::empty(),
        buckets: Seq::new(
            60,
            |i: int|
                BucketModel {
                    start: None::<u64>,
                    requests: 0,
                    successes: 0,
                    failures: 0,
                    hits: Map::<Seq<char>, nat>::empty(),
                },
        ),
        current: 0,
        last_time: 0,
        events: Seq::empty(),
        lost: 0,
    }
}

/// Thread-unaware core of the metrics store. One instance lives for the
/// process lifetime behind the caller's mutual exclusion; every mutation
/// happens through `record_request`, every read through the getters or
/// `snapshot`.
pub struct Metrics {
    total_requests: u64,
    total_successes: u64,
    total_failures: u64,
    endpoint_hits: CountMap,
    rolling_buckets: Vec<TimeBucket>,
    current_bucket_idx: usize,
    last_time: u64,
    events: Ghost<Seq<Event>>,
    lost: Ghost<nat>,
}

impl Metrics {
    /// The store's mathematical state.
    pub closed spec fn view(&self) -> MetricsModel {
        MetricsModel {
            total_requests: self.total_requests,
            total_successes: self.total_successes,
            total_failures: self.total_failures,
            hits: self.endpoint_hits@,
            buckets: self.rolling_buckets@.map_values(|b: TimeBucket| b@),
            current: self.current_bucket_idx as int,
            last_time: self.last_time,
            events: self.events@,
            lost: self.lost@,
        }
    }

    /// The counter maps behind the store have unique keys.
    pub closed spec fn maps_wf(&self) -> bool {
        &&& self.endpoint_hits.wf()
        &&& forall|i: int|
            0 <= i < self.rolling_buckets@.len() ==> (#[trigger] self.rolling_buckets@[i]).wf()
    }

    /// The store is well formed: its representation maps are sound and its
    /// mathematical state satisfies the invariant.
    pub open spec fn wf(&self) -> bool {
        &&& self.maps_wf()
        &&& self@.wf()
    }

    /// Creates a new store with all counters at zero.
    pub fn new() -> (r: Self)
        ensures
            r.wf(),
            r@ == spec_init_metrics(),
    {
        let mut buckets: Vec<TimeBucket> = Vec::new();
        let mut i: usize = 0;
        while i < ROLLING_WINDOW_BUCKETS
            invariant
                i <= 60,
                buckets@.len() == i,
                forall|j: int| 0 <= j < i ==> (#[trigger] buckets@[j]).wf(),
                forall|j: int|
                    0 <= j < i ==> (#[trigger] buckets@[j])@ == (BucketModel {
                        start: None::<u64>,
                        requests: 0,
                        successes: 0,
                        failures: 0,
                        hits: Map::<Seq<char>, nat>::empty(),
                    }),
            decreases 60 - i,
        {
            buckets.push(TimeBucket::new());
            i = i + 1;
        }
        let r = Metrics {
            total_requests: 0,
            total_successes: 0,
            total_failures: 0,
            endpoint_hits: CountMap::new(),
            rolling_buckets: buckets,
            current_bucket_idx: 0,
            last_time: 0,
            events: Ghost(Seq::empty()),
            lost: Ghost(0nat),
        };
        proof {
            assert(r@.buckets =~= spec_init_metrics().buckets);
            assert(r@ == spec_init_metrics());
            assert(r@.buckets[0].start is None);
            assert forall|i2: int| 0 <= i2 < 60 implies bucket_wf(#[trigger] r@.buckets[i2]) by {}
            assert(sum_requests(r@.buckets) == 0) by {
                lemma_sum_zero(r@.buckets);
            }
            assert forall|k: Seq<char>| #[trigger] sum_hits_at(r@.buckets, k) <= count_at(
                r@.hits,
                k,
            ) by {
                lemma_sum_hits_zero(r@.buckets, k);
            }
            assert(r@.wf());
        }
        r
    }

    /// Records one completed request at the given time reading, which must
    /// not lag behind any earlier reading the store has seen. The caller
    /// classifies nothing: the store counts the status code itself.
    pub fn record_request_at(&mut self, endpoint: &str, status_code: u16, now: u64)
        requires
            old(self).wf(),
            now >= old(self)@.last_time,
            old(self)@.total_requests < u64::MAX,
        ensures
            final(self).wf(),
            final(self)@ == spec_record(old(self)@, endpoint@, status_code, now),
    {
        proof {
            lemma_record_preserves_wf(old(self)@, endpoint@, status_code, now);
            lemma_count_le_len(self.events@, succ_pred());
            lemma_count_le_len(self.events@, fail_pred());
            lemma_hits_le_len(self.events@, endpoint@);
        }
        let ghost m = self@;
        let ghost ev = Event { endpoint: endpoint@, status: status_code, time: now };

        // All-time counters.
        self.total_requests = self.total_requests + 1;
        if is_success(status_code) {
            self.total_successes = self.total_successes + 1;
        } else if is_failure(status_code) {
            self.total_failures = self.total_failures + 1;
        }
        self.endpoint_hits.increment(endpoint);
        self.last_time = now;
        proof {
            self.events@ = m.events.push(ev);
        }

        // Rolling window: rotate if the current bucket expired, then record
        // into the (new) current bucket.
        let expired = self.rolling_buckets[self.current_bucket_idx].is_expired(now);
        if expired {
            let nc = if self.current_bucket_idx == 59 {
                0
            } else {
                self.current_bucket_idx + 1
            };
            proof {
                self.lost@ = m.lost + self@.buckets[nc as int].requests as nat;
            }
            self.current_bucket_idx = nc;
            let b = &mut self.rolling_buckets[nc];
            b.reset(now);
        }
        let ci = self.current_bucket_idx;
        proof {
            let m2 = spec_rotate(
                MetricsModel {
                    total_requests: (m.total_requests + 1) as u64,
                    total_successes: if spec_is_success(status_code) {
                        (m.total_successes + 1) as u64
                    } else {
                        m.total_successes
                    },
                    total_failures: if spec_is_failure(status_code) {
                        (m.total_failures + 1) as u64
                    } else {
                        m.total_failures
                    },
                    hits: spec_bump(m.hits, endpoint@),
                    last_time: now,
                    events: m.events.push(ev),
                    ..m
                },
                now,
            );
            assert(self@.buckets =~= m2.buckets);
            assert(self@ == m2);
            if !spec_bucket_expired(m.buckets[m.current], now) {
                lemma_sum_ge_element(m.buckets, m.current);
            }
            assert(self@.buckets[ci as int].requests < u64::MAX);
            assert(bucket_wf(self@.buckets[ci as int]));
        }
        let b = &mut self.rolling_buckets[ci];
        b.record(endpoint, status_code);
        proof {
            assert(self@.buckets =~= spec_record(m, endpoint@, status_code, now).buckets);
            assert(self@ == spec_record(m, endpoint@, status_code, now));
        }
    }

    /// A clock reading clamped so it never lags the store's latest time.
    fn clamped_now(&self) -> (now: u64)
        ensures
            now >= self@.last_time,
    {
        let reading = clock_ms();
        if reading >= self.last_time {
            reading
        } else {
            self.last_time
        }
    }

    /// Returns the all-time total request count.
    pub fn get_total_requests(&self) -> (r: u64)
        ensures
            r == self@.total_requests,
    {
        self.total_requests
    }

    /// Returns the all-time success count.
    pub fn get_total_successes(&self) -> (r: u64)
        ensures
            r == self@.total_successes,
    {
        self.total_successes
    }

    /// Returns the all-time failure count.
    pub fn get_total_failures(&self) -> (r: u64)
        ensures
            r == self@.total_failures,
    {
        self.total_failures
    }

    /// Returns a copy of the all-time per-endpoint hit counts.
    pub fn get_endpoint_hits(&self) -> (r: CountMap)
        requires
            self.wf(),
        ensures
            r.wf(),
            r@ == self@.hits,
    {
        self.endpoint_hits.duplicate()
    }

    /// Sums one counter over the buckets that lie inside the rolling window
    /// at the given time.
    pub fn sum_rolling_window(&self, now: u64, which: StatKind) -> (r: u64)
        requires
            self.wf(),
        ensures
            r as nat == sum_rolling(self@.buckets, now, stat_fn(which)),
    {
        let n = self.rolling_buckets.len();
        proof {
            assert(n == 60);
        }
        let mut acc: u64 = 0;
        let mut i: usize = 0;
        while i < n
            invariant
                self.wf(),
                n == 60,
                n == self.rolling_buckets@.len(),
                i <= n,
                acc as nat == sum_rolling(self@.buckets.subrange(0, i as int), now, stat_fn(which)),
            decreases n - i,
        {
            let b = &self.rolling_buckets[i];
            proof {
                assert(b@ == self@.buckets[i as int]);
                assert(bucket_wf(self@.buckets[i as int]));
            }
            if b.is_within_window(now, WINDOW_MS) {
                let v: u64 = match which {
                    StatKind::Requests => b.requests,
                    StatKind::Successes => b.successes,
                    StatKind::Failures => b.failures,
                };
                proof {
                    assert(v as nat == stat_fn(which)(b@));
                    assert(v <= b@.requests);
                    assert forall|j: int|
                        0 <= j < self@.buckets.subrange(0, i as int).len() implies stat_fn(which)(
                        #[trigger] self@.buckets.subrange(0, i as int)[j],
                    ) <= self@.buckets.subrange(0, i as int)[j].requests as nat by {
                        assert(self@.buckets.subrange(0, i as int)[j] == self@.buckets[j]);
                        assert(bucket_wf(self@.buckets[j]));
                    }
                    lemma_rolling_le_sum(
                        self@.buckets.subrange(0, i as int),
                        now,
                        stat_fn(which),
                    );
                    lemma_sum_step(self@.buckets, i as int);
                    lemma_sum_prefix_le(self@.buckets, i as int + 1);
                    assert(acc + v <= sum_requests(self@.buckets));
                    assert(sum_requests(self@.buckets) <= self@.total_requests);
                }
                acc = acc + v;
            }
            proof {
                lemma_roll_step(self@.buckets, i as int, now, stat_fn(which));
            }
            i = i + 1;
        }
        proof {
            assert(self@.buckets.subrange(0, n as int) =~= self@.buckets);
        }
        acc
    }

    /// Returns the request count over the trailing window at a given time.
    pub fn get_last_hour_requests_at(&self, now: u64) -> (r: u64)
        requires
            self.wf(),
        ensures
            r as nat == sum_rolling(self@.buckets, now, req_of()),
    {
        self.sum_rolling_window(now, StatKind::Requests)
    }

    /// Returns the success count over the trailing window at a given time.
    pub fn get_last_hour_successes_at(&self, now: u64) -> (r: u64)
        requires
            self.wf(),
        ensures
            r as nat == sum_rolling(self@.buckets, now, succ_of()),
    {
        self.sum_rolling_window(now, StatKind::Successes)
    }

    /// Returns the failure count over the trailing window at a given time.
    pub fn get_last_hour_failures_at(&self, now: u64) -> (r: u64)
        requires
            self.wf(),
        ensures
            r as nat == sum_rolling(self@.buckets, now, fail_of()),
    {
        self.sum_rolling_window(now, StatKind::Failures)
    }

    /// Returns the request count for the last hour, against the real clock.
    pub fn get_last_hour_requests(&self) -> (r: u64)
        requires
            self.wf(),
        ensures
            exists|now: u64|
                now >= self@.last_time && r as nat == sum_rolling(self@.buckets, now, req_of()),
    {
        let now = self.clamped_now();
        self.get_last_hour_requests_at(now)
    }

    /// Returns the success count for the last hour, against the real clock.
    pub fn get_last_hour_successes(&self) -> (r: u64)
        requires
            self.wf(),
        ensures
            exists|now: u64|
                now >= self@.last_time && r as nat == sum_rolling(self@.buckets, now, succ_of()),
    {
        let now = self.clamped_now();
        self.get_last_hour_successes_at(now)
    }

    /// Returns the failure count for the last hour, against the real clock.
    pub fn get_last_hour_failures(&self) -> (r: u64)
        requires
            self.wf(),
        ensures
            exists|now: u64|
                now >= self@.last_time && r as nat == sum_rolling(self@.buckets, now, fail_of()),
    {
        let now = self.clamped_now();
        self.get_last_hour_failures_at(now)
    }

    /// Merges the per-endpoint hit counts of the buckets inside the rolling
    /// window at a given time. The result is dominated by the all-time hit
    /// map: its keys are all-time keys and its counts never exceed theirs.
    pub fn get_last_hour_endpoint_hits_at(&self, now: u64) -> (r: CountMap)
        requires
            self.wf(),
        ensures
            r.wf(),
            r@ == rolling_hits(self@.buckets, now),
            forall|k: Seq<char>| #[trigger] r@.contains_key(k) ==> self@.hits.contains_key(k)
                && r@[k] <= self@.hits[k],
    {
        proof {
            lemma_rolling_hits_dominated(self@, now);
        }
        let n = self.rolling_buckets.len();
        proof {
            assert(n == 60);
        }
        let mut acc = CountMap::new();
        let mut i: usize = 0;
        while i < n
            invariant
                self.wf(),
                n == 60,
                n == self.rolling_buckets@.len(),
                i <= n,
                acc.wf(),
                acc@ == rolling_hits(self@.buckets.subrange(0, i as int), now),
                forall|k: Seq<char>|
                    acc@.contains_key(k) ==> acc@[k] <= sum_rolling(
                        self@.buckets.subrange(0, i as int),
                        now,
                        req_of(),
                    ),
            decreases n - i,
        {
            let b = &self.rolling_buckets[i];
            proof {
                assert(b@ == self@.buckets[i as int]);
                assert(bucket_wf(b@));
                assert(b.wf());
            }
            if b.is_within_window(now, WINDOW_MS) {
                let ghost acc0 = acc@;
                let ghost roll0 = sum_rolling(self@.buckets.subrange(0, i as int), now, req_of());
                let ghost entries = b.endpoint_hits.entries_seq();
                proof {
                    b.endpoint_hits.lemma_view_entries();
                    assert forall|x: int|
                        0 <= x < self@.buckets.subrange(0, i as int).len() implies req_of()(
                        #[trigger] self@.buckets.subrange(0, i as int)[x],
                    ) <= self@.buckets.subrange(0, i as int)[x].requests as nat by {
                        assert(self@.buckets.subrange(0, i as int)[x] == self@.buckets[x]);
                    }
                    lemma_rolling_le_sum(self@.buckets.subrange(0, i as int), now, req_of());
                    lemma_sum_step(self@.buckets, i as int);
                    lemma_sum_prefix_le(self@.buckets, i as int + 1);
                    assert(sum_rolling(self@.buckets.subrange(0, i as int), now, req_of())
                        + b@.requests <= sum_requests(self@.buckets));
                    assert(sum_requests(self@.buckets) <= self@.total_requests);
                }
                let m = b.endpoint_hits.num_entries();
                let mut j: usize = 0;
                while j < m
                    invariant
                        self.wf(),
                        b.wf(),
                        bucket_wf(b@),
                        b@.hits == map_of(entries),
                        entries == b.endpoint_hits.entries_seq(),
                        m == entries.len(),
                        j <= m,
                        acc.wf(),
                        acc@ == spec_map_add(acc0, map_of(entries.subrange(0, j as int))),
                        forall|k: Seq<char>| acc0.contains_key(k) ==> acc0[k] <= roll0,
                        roll0 + b@.requests <= u64::MAX,
                        b@.requests as nat == stat_fn(StatKind::Requests)(b@),
                    decreases m - j,
                {
                    let (key, v) = b.endpoint_hits.entry_at(j);
                    proof {
                        let pfx = entries.subrange(0, j as int);
                        crate::counts::lemma_map_of_contains(pfx, key@);
                        assert forall|x: int| 0 <= x < pfx.len() implies pfx[x].0@ != key@ by {
                            assert(pfx[x] == entries[x]);
                            assert(entries[x].0@ != entries[j as int].0@);
                        }
                        assert(!map_of(pfx).contains_key(key@));
                        crate::counts::lemma_map_of_get(entries, j as int);
                        assert(v as nat == map_of(entries)[key@]);
                        assert(v as nat <= b@.requests as nat);
                        if acc@.contains_key(key@) {
                            assert(acc@[key@] == (if acc0.contains_key(key@) {
                                acc0[key@]
                            } else {
                                0
                            }) + (if map_of(pfx).contains_key(key@) {
                                map_of(pfx)[key@]
                            } else {
                                0
                            }));
                            assert(acc@[key@] <= roll0);
                            assert(acc@[key@] + v <= u64::MAX);
                        }
                    }
                    acc.add(key.as_str(), v);
                    proof {
                        let pfx = entries.subrange(0, j as int);
                        let pfx2 = entries.subrange(0, j as int + 1);
                        assert(pfx2.drop_last() =~= pfx);
                        assert(pfx2.last() == entries[j as int]);
                        assert(map_of(pfx2) == map_of(pfx).insert(key@, v as nat));
                        assert(acc@ =~= spec_map_add(acc0, map_of(pfx2)));
                    }
                    j = j + 1;
                }
                proof {
                    assert(entries.subrange(0, m as int) =~= entries);
                    assert(acc@ == spec_map_add(acc0, b@.hits));
                    lemma_rolling_hits_step(self@.buckets, i as int, now);
                    assert(acc@ == rolling_hits(self@.buckets.subrange(0, i as int + 1), now));
                    lemma_roll_step(self@.buckets, i as int, now, req_of());
                    assert forall|k: Seq<char>| acc@.contains_key(k) implies acc@[k]
                        <= sum_rolling(
                        self@.buckets.subrange(0, i as int + 1),
                        now,
                        req_of(),
                    ) by {
                        assert(acc@[k] == (if acc0.contains_key(k) {
                            acc0[k]
                        } else {
                            0
                        }) + (if b@.hits.contains_key(k) {
                            b@.hits[k]
                        } else {
                            0
                        }));
                    }
                }
            } else {
                proof {
                    lemma_rolling_hits_step(self@.buckets, i as int, now);
                    lemma_roll_step(self@.buckets, i as int, now, req_of());
                }
            }
            i = i + 1;
        }
        proof {
            assert(self@.buckets.subrange(0, n as int) =~= self@.buckets);
        }
        acc
    }

    /// Returns the per-endpoint hit counts for the last hour, against the
    /// real clock; dominated by the all-time hit map whatever the reading.
    pub fn get_last_hour_endpoint_hits(&self) -> (r: CountMap)
        requires
            self.wf(),
        ensures
            r.wf(),
            exists|now: u64| now >= self@.last_time && r@ == rolling_hits(self@.buckets, now),
            forall|k: Seq<char>| #[trigger] r@.contains_key(k) ==> self@.hits.contains_key(k)
                && r@[k] <= self@.hits[k],
    {
        let now = self.clamped_now();
        self.get_last_hour_endpoint_hits_at(now)
    }

    /// Takes a snapshot of all metrics at the given time reading: the
    /// all-time counters and hit map, and the rolling-hour sums and merged
    /// hit map over the buckets inside the window.
    pub fn snapshot_at(&self, now: u64) -> (r: MetricsSnapshot)
        requires
            self.wf(),
        ensures
            r.all_time.total_requests == self@.total_requests,
            r.all_time.successes == self@.total_successes,
            r.all_time.failures == self@.total_failures,
            r.all_time.endpoint_hits.wf(),
            r.all_time.endpoint_hits@ == self@.hits,
            r.last_hour.total_requests as nat == sum_rolling(self@.buckets, now, req_of()),
            r.last_hour.successes as nat == sum_rolling(self@.buckets, now, succ_of()),
            r.last_hour.failures as nat == sum_rolling(self@.buckets, now, fail_of()),
            r.last_hour.endpoint_hits.wf(),
            r.last_hour.endpoint_hits@ == rolling_hits(self@.buckets, now),
            forall|k: Seq<char>| #[trigger] r.last_hour.endpoint_hits@.contains_key(k)
                ==> r.all_time.endpoint_hits@.contains_key(k) && r.last_hour.endpoint_hits@[k]
                <= r.all_time.endpoint_hits@[k],
    {
        MetricsSnapshot {
            all_time: AllTimeMetrics {
                total_requests: self.get_total_requests(),
                successes: self.get_total_successes(),
                failures: self.get_total_failures(),
                endpoint_hits: self.get_endpoint_hits(),
            },
            last_hour: LastHourMetrics {
                total_requests: self.get_last_hour_requests_at(now),
                successes: self.get_last_hour_successes_at(now),
                failures: self.get_last_hour_failures_at(now),
                endpoint_hits: self.get_last_hour_endpoint_hits_at(now),
            },
        }
    }

    /// Takes a snapshot against the real clock; every rolling field is read
    /// at one and the same clamped reading.
    pub fn snapshot(&self) -> (r: MetricsSnapshot)
        requires
            self.wf(),
        ensures
            r.all_time.total_requests == self@.total_requests,
            r.all_time.successes == self@.total_successes,
            r.all_time.failures == self@.total_failures,
            r.all_time.endpoint_hits.wf(),
            r.all_time.endpoint_hits@ == self@.hits,
            r.last_hour.endpoint_hits.wf(),
            exists|now: u64|
                {
                    &&& now >= self@.last_time
                    &&& r.last_hour.total_requests as nat == sum_rolling(
                        self@.buckets,
                        now,
                        req_of(),
                    )
                    &&& r.last_hour.successes as nat == sum_rolling(self@.buckets, now, succ_of())
                    &&& r.last_hour.failures as nat == sum_rolling(self@.buckets, now, fail_of())
                    &&& r.last_hour.endpoint_hits@ == rolling_hits(self@.buckets, now)
                },
            forall|k: Seq<char>| #[trigger] r.last_hour.endpoint_hits@.contains_key(k)
                ==> r.all_time.endpoint_hits@.contains_key(k) && r.last_hour.endpoint_hits@[k]
                <= r.all_time.endpoint_hits@[k],
    {
        let now = self.clamped_now();
        self.snapshot_at(now)
    }

    /// Records one completed request against the real clock. The reading is
    /// clamped so the store's own time never moves backwards.
    pub fn record_request(&mut self, endpoint: &str, status_code: u16)
        requires
            old(self).wf(),
            old(self)@.total_requests < u64::MAX,
        ensures
            final(self).wf(),
            exists|now: u64|
                now >= old(self)@.last_time && final(self)@ == spec_record(
                    old(self)@,
                    endpoint@,
                    status_code,
                    now,
                ),
    {
        let reading = clock_ms();
        let now = if reading >= self.last_time {
            reading
        } else {
            self.last_time
        };
        proof {
            assert(self@.last_time == self.last_time);
        }
        self.record_request_at(endpoint, status_code, now);
    }
}

/// The request counter of a bucket, as the rolling window sums it.
pub open spec fn req_of() -> spec_fn(BucketModel) -> nat {
    |b: BucketModel| b.requests as nat
}

/// The success counter of a bucket, as the rolling window sums it.
pub open spec fn succ_of() -> spec_fn(BucketModel) -> nat {
    |b: BucketModel| b.successes as nat
}

/// The failure counter of a bucket, as the rolling window sums it.
pub open spec fn fail_of() -> spec_fn(BucketModel) -> nat {
    |b: BucketModel| b.failures as nat
}

/// Which of a bucket's counters a rolling-window sum reads.
#[derive(Clone, Copy, PartialEq, Eq, Structural, Debug)]
pub enum StatKind {
    Requests,
    Successes,
    Failures,
}

/// The counter selector a stat kind denotes.
pub open spec fn stat_fn(which: StatKind) -> spec_fn(BucketModel) -> nat {
    match which {
        StatKind::Requests => req_of(),
        StatKind::Successes => succ_of(),
        StatKind::Failures => fail_of(),
    }
}

proof fn lemma_sum_step(bs: Seq<BucketModel>, i: int)
    requires
        0 <= i < bs.len(),
    ensures
        sum_requests(bs.subrange(0, i + 1)) == sum_requests(bs.subrange(0, i))
            + bs[i].requests as nat,
{
    assert(bs.subrange(0, i + 1).drop_last() =~= bs.subrange(0, i));
    assert(bs.subrange(0, i + 1).last() == bs[i]);
}

proof fn lemma_sum_prefix_le(bs: Seq<BucketModel>, i: int)
    requires
        0 <= i <= bs.len(),
    ensures
        sum_requests(bs.subrange(0, i)) <= sum_requests(bs),
    decreases bs.len() - i,
{
    if i < bs.len() {
        lemma_sum_step(bs, i);
        lemma_sum_prefix_le(bs, i + 1);
    } else {
        assert(bs.subrange(0, i) =~= bs);
    }
}

proof fn lemma_roll_step(bs: Seq<BucketModel>, i: int, now: u64, f: spec_fn(BucketModel) -> nat)
    requires
        0 <= i < bs.len(),
    ensures
        sum_rolling(bs.subrange(0, i + 1), now, f) == sum_rolling(bs.subrange(0, i), now, f) + (
        if spec_bucket_within(bs[i], now, WINDOW_MS) {
            f(bs[i])
        } else {
            0
        }),
{
    assert(bs.subrange(0, i + 1).drop_last() =~= bs.subrange(0, i));
    assert(bs.subrange(0, i + 1).last() == bs[i]);
}

proof fn lemma_rolling_le_sum(bs: Seq<BucketModel>, now: u64, f: spec_fn(BucketModel) -> nat)
    requires
        forall|j: int| 0 <= j < bs.len() ==> f(#[trigger] bs[j]) <= bs[j].requests as nat,
    ensures
        sum_rolling(bs, now, f) <= sum_requests(bs),
    decreases bs.len(),
{
    if bs.len() > 0 {
        assert(forall|j: int|
            0 <= j < bs.drop_last().len() ==> #[trigger] bs.drop_last()[j] == bs[j]);
        lemma_rolling_le_sum(bs.drop_last(), now, f);
        assert(bs.last() == bs[bs.len() - 1]);
    }
}

proof fn lemma_rolling_hits_step(bs: Seq<BucketModel>, i: int, now: u64)
    requires
        0 <= i < bs.len(),
    ensures
        rolling_hits(bs.subrange(0, i + 1), now) == if spec_bucket_within(bs[i], now, WINDOW_MS) {
            spec_map_add(rolling_hits(bs.subrange(0, i), now), bs[i].hits)
        } else {
            rolling_hits(bs.subrange(0, i), now)
        },
{
    assert(bs.subrange(0, i + 1).drop_last() =~= bs.subrange(0, i));
    assert(bs.subrange(0, i + 1).last() == bs[i]);
}

/// All-time statistics since server start.
pub struct AllTimeMetrics {
    /// Total request count.
    pub total_requests: u64,
    /// Success response count (2xx).
    pub successes: u64,
    /// Failure response count (4xx/5xx).
    pub failures: u64,
    /// Per-endpoint hit counts.
    pub endpoint_hits: CountMap,
}

/// Rolling statistics for the trailing hour.
pub struct LastHourMetrics {
    /// Request count in the last hour.
    pub total_requests: u64,
    /// Success response count (2xx) in the last hour.
    pub successes: u64,
    /// Failure response count (4xx/5xx) in the last hour.
    pub failures: u64,
    /// Per-endpoint hit counts in the last hour.
    pub endpoint_hits: CountMap,
}

/// A consistent snapshot of all metrics: the all-time counters and the
/// rolling-hour aggregation, both taken against one time reading.
pub struct MetricsSnapshot {
    /// All-time metrics since server start.
    pub all_time: AllTimeMetrics,
    /// Rolling metrics for the last hour.
    pub last_hour: LastHourMetrics,
}

proof fn lemma_sum_zero(bs: Seq<BucketModel>)
    requires
        forall|i: int| 0 <= i < bs.len() ==> (#[trigger] bs[i]).requests == 0,
    ensures
        sum_requests(bs) == 0,
    decreases bs.len(),
{
    if bs.len() > 0 {
        lemma_sum_zero(bs.drop_last());
    }
}

proof fn lemma_count_partition(events: Seq<Event>)
    ensures
        count_events(events, succ_pred()) + count_events(events, fail_pred()) + count_events(
            events,
            other_pred(),
        ) == events.len(),
    decreases events.len(),
{
    if events.len() > 0 {
        lemma_count_partition(events.drop_last());
    }
}

/// Law: for all requests, the total request count equals the success count
/// plus the failure count plus the count of informational or redirect
/// responses (1xx/3xx). No recorded request is dropped or double-counted by
/// the status classification.
pub proof fn lemma_request_accounting(m: MetricsModel)
    requires
        m.wf(),
    ensures
        m.total_requests == m.total_successes + m.total_failures + count_events(
            m.events,
            other_pred(),
        ),
{
    lemma_count_partition(m.events);
    assert(count_events(m.events, |e: Event| ev_success(e)) == count_events(
        m.events,
        succ_pred(),
    ));
    assert(count_events(m.events, |e: Event| ev_failure(e)) == count_events(
        m.events,
        fail_pred(),
    ));
}

proof fn lemma_rolling_eq_sum(bs: Seq<BucketModel>, now: u64)
    requires
        forall|j: int|
            0 <= j < bs.len() ==> spec_bucket_within(#[trigger] bs[j], now, WINDOW_MS) || bs[j].requests
                == 0,
    ensures
        sum_rolling(bs, now, req_of()) == sum_requests(bs),
    decreases bs.len(),
{
    if bs.len() > 0 {
        assert(forall|j: int|
            0 <= j < bs.drop_last().len() ==> #[trigger] bs.drop_last()[j] == bs[j]);
        lemma_rolling_eq_sum(bs.drop_last(), now);
        assert(bs.last() == bs[bs.len() - 1]);
    }
}

/// Law: at any instant at or after the store's latest recorded time, the
/// rolling-hour sum of requests over the window's buckets never exceeds the
/// all-time total, and equals it while less than one window length has
/// passed since the first recorded request.
pub proof fn lemma_rolling_window_bound(m: MetricsModel, now: u64)
    requires
        m.wf(),
        now >= m.last_time,
    ensures
        sum_rolling(m.buckets, now, req_of()) <= m.total_requests,
        m.events.len() > 0 && now < m.first_time() + WINDOW_MS ==> sum_rolling(
            m.buckets,
            now,
            req_of(),
        ) == m.total_requests,
{
    assert forall|j: int|
        0 <= j < m.buckets.len() implies req_of()(#[trigger] m.buckets[j])
        <= m.buckets[j].requests as nat by {}
    lemma_rolling_le_sum(m.buckets, now, req_of());
    if m.events.len() > 0 && now < m.first_time() + WINDOW_MS {
        assert(m.lost == 0);
        assert forall|j: int|
            0 <= j < m.buckets.len() implies spec_bucket_within(
            #[trigger] m.buckets[j],
            now,
            WINDOW_MS,
        ) || m.buckets[j].requests == 0 by {
            if m.buckets[j].start is Some {
                assert(m.first_time() <= bstart(m.buckets[j]) <= m.last_time);
            } else {
                assert(bucket_wf(m.buckets[j]));
            }
        }
        lemma_rolling_eq_sum(m.buckets, now);
    }
}

proof fn lemma_rolling_hits_le_colsum(bs: Seq<BucketModel>, now: u64, k: Seq<char>)
    requires
        forall|j: int| 0 <= j < bs.len() ==> bucket_wf(#[trigger] bs[j]),
    ensures
        count_at(rolling_hits(bs, now), k) <= sum_hits_at(bs, k),
        rolling_hits(bs, now).contains_key(k) ==> sum_hits_at(bs, k) >= 1,
    decreases bs.len(),
{
    if bs.len() > 0 {
        assert(forall|j: int|
            0 <= j < bs.drop_last().len() ==> #[trigger] bs.drop_last()[j] == bs[j]);
        lemma_rolling_hits_le_colsum(bs.drop_last(), now, k);
        assert(bs.last() == bs[bs.len() - 1]);
        assert(bucket_wf(bs.last()));
    }
}

/// Law: the rolling-hour endpoint hit map is dominated by the all-time
/// one, at any instant: every key it holds is a key of the all-time map,
/// and its count never exceeds the all-time count for that key.
pub proof fn lemma_rolling_hits_dominated(m: MetricsModel, now: u64)
    requires
        m.wf(),
    ensures
        forall|k: Seq<char>| #[trigger] rolling_hits(m.buckets, now).contains_key(k)
            ==> m.hits.contains_key(k) && rolling_hits(m.buckets, now)[k] <= m.hits[k],
{
    assert forall|k: Seq<char>| #[trigger] rolling_hits(m.buckets, now).contains_key(k)
        implies m.hits.contains_key(k) && rolling_hits(m.buckets, now)[k] <= m.hits[k] by {
        lemma_rolling_hits_le_colsum(m.buckets, now, k);
        assert(sum_hits_at(m.buckets, k) <= count_at(m.hits, k));
        assert(count_at(m.hits, k) >= 1);
        assert(m.hits.contains_key(k));
        assert(count_at(rolling_hits(m.buckets, now), k) == rolling_hits(m.buckets, now)[k]);
    }
}

/// The all-time half of the store's state: what the rolling window cannot
/// influence.
pub ghost struct AllTimeModel {
    pub total_requests: u64,
    pub total_successes: u64,
    pub total_failures: u64,
    pub hits: Map<Seq<char>, nat>,
}

/// The all-time projection of the store's state.
pub open spec fn all_time_of(m: MetricsModel) -> AllTimeModel {
    AllTimeModel {
        total_requests: m.total_requests,
        total_successes: m.total_successes,
        total_failures: m.total_failures,
        hits: m.hits,
    }
}

proof fn lemma_bump_commutes(h: Map<Seq<char>, nat>, a: Seq<char>, b: Seq<char>)
    ensures
        spec_bump(spec_bump(h, a), b) == spec_bump(spec_bump(h, b), a),
{
    if a == b {
        assert(spec_bump(spec_bump(h, a), b) =~= spec_bump(spec_bump(h, b), a));
    } else {
        assert(spec_bump(spec_bump(h, a), b) =~= spec_bump(spec_bump(h, b), a));
    }
}

/// Law: recording is commutative on the all-time statistics. Two records
/// land in the same final totals and endpoint hit counts in either order,
/// so replaying one set of `record` calls in any interleaving yields the
/// same all-time counters.
pub proof fn lemma_record_commutes(
    m: MetricsModel,
    ep1: Seq<char>,
    st1: u16,
    t1: u64,
    ep2: Seq<char>,
    st2: u16,
    t2: u64,
)
    ensures
        all_time_of(spec_record(spec_record(m, ep1, st1, t1), ep2, st2, t2)) == all_time_of(
            spec_record(spec_record(m, ep2, st2, t2), ep1, st1, t1),
        ),
{
    lemma_bump_commutes(m.hits, ep1, ep2);
}

/// The store after replaying a sequence of record calls, oldest first;
/// each event carries one call's endpoint, status and time reading.
pub open spec fn replay(m: MetricsModel, calls: Seq<Event>) -> MetricsModel
    decreases calls.len(),
{
    if calls.len() == 0 {
        m
    } else {
        let c = calls.last();
        spec_record(replay(m, calls.drop_last()), c.endpoint, c.status, c.time)
    }
}

proof fn lemma_record_all_time_congruence(m1: MetricsModel, m2: MetricsModel, c: Event)
    requires
        all_time_of(m1) == all_time_of(m2),
    ensures
        all_time_of(spec_record(m1, c.endpoint, c.status, c.time)) == all_time_of(
            spec_record(m2, c.endpoint, c.status, c.time),
        ),
{
}

proof fn lemma_swap_adjacent(m: MetricsModel, s: Seq<Event>, j: int)
    requires
        0 <= j,
        j + 1 < s.len(),
    ensures
        all_time_of(replay(m, s)) == all_time_of(
            replay(m, s.update(j, s[j + 1]).update(j + 1, s[j])),
        ),
    decreases s.len(),
{
    let t = s.update(j, s[j + 1]).update(j + 1, s[j]);
    if j + 1 == s.len() - 1 {
        reveal_with_fuel(replay, 3);
        let p = s.drop_last().drop_last();
        assert(t.drop_last().drop_last() =~= p);
        assert(t.drop_last().last() == s[j + 1]);
        assert(s.drop_last().last() == s[j]);
        assert(t.last() == s[j]);
        assert(s.last() == s[j + 1]);
        let c1 = s[j];
        let c2 = s[j + 1];
        assert(replay(m, s) == spec_record(
            spec_record(replay(m, p), c1.endpoint, c1.status, c1.time),
            c2.endpoint,
            c2.status,
            c2.time,
        ));
        assert(replay(m, t) == spec_record(
            spec_record(replay(m, p), c2.endpoint, c2.status, c2.time),
            c1.endpoint,
            c1.status,
            c1.time,
        ));
        lemma_record_commutes(
            replay(m, p),
            s[j].endpoint,
            s[j].status,
            s[j].time,
            s[j + 1].endpoint,
            s[j + 1].status,
            s[j + 1].time,
        );
    } else {
        lemma_swap_adjacent(m, s.drop_last(), j);
        assert(t.drop_last() =~= s.drop_last().update(j, s[j + 1]).update(j + 1, s[j]));
        assert(t.last() == s.last());
        lemma_record_all_time_congruence(
            replay(m, s.drop_last().update(j, s[j + 1]).update(j + 1, s[j])),
            replay(m, t.drop_last()),
            s.last(),
        );
        lemma_record_all_time_congruence(
            replay(m, s.drop_last()),
            replay(m, s.drop_last().update(j, s[j + 1]).update(j + 1, s[j])),
            s.last(),
        );
    }
}

proof fn lemma_move_to_end(m: MetricsModel, s: Seq<Event>, j: int)
    requires
        0 <= j < s.len(),
    ensures
        all_time_of(replay(m, s)) == all_time_of(replay(m, s.remove(j).push(s[j]))),
    decreases s.len() - j,
{
    if j == s.len() - 1 {
        assert(s.remove(j).push(s[j]) =~= s);
    } else {
        let t = s.update(j, s[j + 1]).update(j + 1, s[j]);
        lemma_swap_adjacent(m, s, j);
        lemma_move_to_end(m, t, j + 1);
        assert(t.remove(j + 1).push(t[j + 1]) =~= s.remove(j).push(s[j]));
    }
}

/// Law: replaying one and the same multiset of record calls, in any order,
/// yields the same all-time statistics. Together with the pairwise
/// commutation above, this is the interleaving-independence of the
/// all-time counters: however concurrent recorders are scheduled, the
/// final totals and endpoint hits agree.
pub proof fn lemma_replay_permutation(m: MetricsModel, s1: Seq<Event>, s2: Seq<Event>)
    requires
        s1.to_multiset() == s2.to_multiset(),
    ensures
        all_time_of(replay(m, s1)) == all_time_of(replay(m, s2)),
    decreases s1.len(),
{
    broadcast use vstd::seq_lib::group_to_multiset_ensures;

    if s1.len() == 0 {
        assert(s2.to_multiset().len() == 0);
        assert(s2.len() == 0);
    } else {
        let c = s1.last();
        assert(s1.contains(c));
        assert(s2.to_multiset().count(c) > 0);
        assert(s2.contains(c));
        let j = choose|j: int| 0 <= j < s2.len() && s2[j] == c;
        lemma_move_to_end(m, s2, j);
        let s2r = s2.remove(j);
        assert(s1.drop_last() =~= s1.remove(s1.len() - 1));
        assert(s1.remove(s1.len() - 1).to_multiset() =~= s1.to_multiset().remove(c));
        assert(s2r.to_multiset() =~= s2.to_multiset().remove(c));
        lemma_replay_permutation(m, s1.drop_last(), s2r);
        assert(s2r.push(c).drop_last() =~= s2r);
        assert(s2r.push(c).last() == c);
        lemma_record_all_time_congruence(replay(m, s1.drop_last()), replay(m, s2r), c);
        assert(all_time_of(replay(m, s2r.push(c))) == all_time_of(replay(m, s2)));
    }
}

} // verus!
