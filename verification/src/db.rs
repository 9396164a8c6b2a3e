//! The event store and the aggregation engine.
//!
//! The store is an append-only log of per-interface traffic deltas with
//! store-assigned, monotonically nondecreasing timestamps. The aggregation
//! engine buckets stored events into calendar periods (hour/day/week/month)
//! or rolling recency windows, summing the byte deltas per bucket. Sums are
//! kept in integer bytes; converting to a display unit is the presentation
//! layer's concern, so that a row's total can be derived exactly as
//! `rx + tx`.

use vstd::prelude::*;
use crate::calendar;

verus! {

/// One persisted traffic event: a per-interface delta together with the
/// timestamp (seconds since the Unix epoch) the store assigned when the row
/// was appended.
pub struct TrafficEvent {
    pub interface: String,
    pub rx_bytes: u64,
    pub tx_bytes: u64,
    pub timestamp: u64,
}

/// Append-only store of traffic events; the single source of truth for the
/// aggregation queries.
pub struct EventStore {
    events: Vec<TrafficEvent>,
    initialized: bool,
    last_timestamp: u64,
}

impl View for EventStore {
    type V = Seq<TrafficEvent>;

    closed spec fn view(&self) -> Seq<TrafficEvent> {
        self.events@
    }
}

impl EventStore {
    /// Well-formedness: timestamps are nondecreasing in insertion order and
    /// never ahead of the stored high-water mark, and the row count stays
    /// far enough below `usize::MAX` that no aggregate sum can exceed
    /// `u128`.
    pub closed spec fn wf(self) -> bool {
        &&& forall|i: int, j: int|
            #![trigger self.events@[i], self.events@[j]]
            0 <= i <= j < self.events@.len() ==> self.events@[i].timestamp
                <= self.events@[j].timestamp
        &&& forall|i: int|
            0 <= i < self.events@.len() ==> (#[trigger] self.events@[i]).timestamp
                <= self.last_timestamp
        &&& self.events@.len() <= 0x4000_0000_0000_0000
    }

    pub closed spec fn is_initialized(self) -> bool {
        self.initialized
    }

    /// The high-water mark of assigned timestamps.
    pub closed spec fn last_ts(self) -> u64 {
        self.last_timestamp
    }

    pub fn new() -> (s: Self)
        ensures
            s.wf(),
            s@ =~= Seq::<TrafficEvent>::empty(),
            !s.is_initialized(),
            s.last_ts() == 0,
    {
        EventStore { events: Vec::new(), initialized: false, last_timestamp: 0 }
    }

    /// Number of rows appended so far.
    pub fn event_count(&self) -> (n: usize)
        ensures
            n == self@.len(),
    {
        self.events.len()
    }
}

/// Relies on `std::time::SystemTime::now`, reduced to whole seconds since
/// the Unix epoch (zero if the clock reads before the epoch). The value
/// depends on the machine's clock, so nothing is promised of it.
#[verifier::external_body]
fn now_unix_secs() -> u64 {
    match std::time::SystemTime::now().duration_since(std::time::UNIX_EPOCH) {
        Ok(d) => d.as_secs(),
        Err(_) => 0,
    }
}

/// Idempotently prepare the store for appends. Calling it any number of
/// times never fails and never alters existing rows.
pub fn init_db(store: &mut EventStore)
    requires
        old(store).wf(),
    ensures
        final(store).wf(),
        final(store)@ == old(store)@,
        final(store).is_initialized(),
        final(store).last_ts() == old(store).last_ts(),
{
    store.initialized = true;
}

/// Append one delta row. The timestamp is assigned by the store, never by
/// the caller, and never moves backwards.
pub fn save_delta(store: &mut EventStore, interface: &str, rx_delta: u64, tx_delta: u64)
    requires
        old(store).wf(),
        old(store).is_initialized(),
        old(store)@.len() < 0x4000_0000_0000_0000,
    ensures
        final(store).wf(),
        final(store).is_initialized(),
        final(store)@.len() == old(store)@.len() + 1,
        final(store)@ == old(store)@.push(final(store)@.last()),
        final(store)@.last().interface@ == interface@,
        final(store)@.last().rx_bytes == rx_delta,
        final(store)@.last().tx_bytes == tx_delta,
        final(store)@.last().timestamp >= old(store).last_ts(),
        final(store).last_ts() == final(store)@.last().timestamp,
{
    let now = now_unix_secs();
    let ts: u64 = if now > store.last_timestamp {
        now
    } else {
        store.last_timestamp
    };
    let ev = TrafficEvent {
        interface: interface.to_owned(),
        rx_bytes: rx_delta,
        tx_bytes: tx_delta,
        timestamp: ts,
    };
    store.last_timestamp = ts;
    store.events.push(ev);
}

/// Replay one row of a durable copy of the log, with its original
/// timestamp. Rows must be replayed in nondecreasing timestamp order, which
/// is how an append-only log stores them.
pub fn load_event(store: &mut EventStore, interface: &str, rx_bytes: u64, tx_bytes: u64, ts: u64)
    requires
        old(store).wf(),
        old(store).is_initialized(),
        old(store)@.len() < 0x4000_0000_0000_0000,
        ts >= old(store).last_ts(),
    ensures
        final(store).wf(),
        final(store).is_initialized(),
        final(store)@.len() == old(store)@.len() + 1,
        final(store)@ == old(store)@.push(final(store)@.last()),
        final(store)@.last().interface@ == interface@,
        final(store)@.last().rx_bytes == rx_bytes,
        final(store)@.last().tx_bytes == tx_bytes,
        final(store)@.last().timestamp == ts,
        final(store).last_ts() == ts,
{
    let ev = TrafficEvent {
        interface: interface.to_owned(),
        rx_bytes,
        tx_bytes,
        timestamp: ts,
    };
    store.last_timestamp = ts;
    store.events.push(ev);
}

/// The timestamp high-water mark, for replaying a durable log in order.
pub fn last_timestamp(store: &EventStore) -> (ts: u64)
    ensures
        ts == store.last_ts(),
{
    store.last_timestamp
}

/// Start of a recency window of `since_minutes` minutes ending at `now`,
/// floored at the epoch.
pub open spec fn spec_window_start(now: u64, since_minutes: u32) -> u64 {
    if now >= since_minutes as u64 * 60 {
        (now - since_minutes as u64 * 60) as u64
    } else {
        0
    }
}

fn window_start(now: u64, since_minutes: u32) -> (r: u64)
    ensures
        r == spec_window_start(now, since_minutes),
{
    let span: u64 = (since_minutes as u64) * 60;
    if now >= span {
        now - span
    } else {
        0
    }
}

/// Sum of received bytes over the events at or after `cutoff`.
pub open spec fn window_rx(events: Seq<TrafficEvent>, cutoff: u64) -> int
    decreases events.len(),
{
    if events.len() == 0 {
        0
    } else {
        window_rx(events.drop_last(), cutoff) + if events.last().timestamp >= cutoff {
            events.last().rx_bytes as int
        } else {
            0
        }
    }
}

/// Sum of transmitted bytes over the events at or after `cutoff`.
pub open spec fn window_tx(events: Seq<TrafficEvent>, cutoff: u64) -> int
    decreases events.len(),
{
    if events.len() == 0 {
        0
    } else {
        window_tx(events.drop_last(), cutoff) + if events.last().timestamp >= cutoff {
            events.last().tx_bytes as int
        } else {
            0
        }
    }
}

proof fn lemma_window_sums_bound(events: Seq<TrafficEvent>, cutoff: u64)
    ensures
        0 <= window_rx(events, cutoff) <= events.len() * 0xffff_ffff_ffff_ffff,
        0 <= window_tx(events, cutoff) <= events.len() * 0xffff_ffff_ffff_ffff,
    decreases events.len(),
{
    if events.len() == 0 {
    } else {
        lemma_window_sums_bound(events.drop_last(), cutoff);
        assert((events.len() - 1) * 0xffff_ffff_ffff_ffff + 0xffff_ffff_ffff_ffff == events.len()
            * 0xffff_ffff_ffff_ffff) by (nonlinear_arith);
    }
}

proof fn lemma_window_sums_zero(events: Seq<TrafficEvent>, cutoff: u64)
    requires
        forall|i: int| 0 <= i < events.len() ==> (#[trigger] events[i]).timestamp < cutoff,
    ensures
        window_rx(events, cutoff) == 0,
        window_tx(events, cutoff) == 0,
    decreases events.len(),
{
    if events.len() == 0 {
    } else {
        assert(events.last() == events[events.len() - 1]);
        lemma_window_sums_zero(events.drop_last(), cutoff);
    }
}

/// Total received and transmitted bytes over the recency window of
/// `since_minutes` minutes ending at `now`, as `(rx, tx, total)` with the
/// total derived from the two sums. A window with no events yields zeroes,
/// never an error.
pub fn recent_totals_at(store: &EventStore, since_minutes: u32, now: u64) -> (r: (u128, u128, u128))
    requires
        store.wf(),
    ensures
        r.0 == window_rx(store@, spec_window_start(now, since_minutes)),
        r.1 == window_tx(store@, spec_window_start(now, since_minutes)),
        r.2 == r.0 + r.1,
        (forall|i: int|
            0 <= i < store@.len() ==> (#[trigger] store@[i]).timestamp < spec_window_start(
                now,
                since_minutes,
            )) ==> r == (0u128, 0u128, 0u128),
{
    let cutoff = window_start(now, since_minutes);
    let n = store.events.len();
    let mut rx: u128 = 0;
    let mut tx: u128 = 0;
    let mut i: usize = 0;
    while i < n
        invariant
            store.wf(),
            n == store@.len(),
            i <= n,
            rx == window_rx(store@.take(i as int), cutoff),
            tx == window_tx(store@.take(i as int), cutoff),
            cutoff == spec_window_start(now, since_minutes),
        decreases n - i,
    {
        proof {
            assert(store@.take(i + 1).drop_last() =~= store@.take(i as int));
            assert(store@.take(i + 1).last() == store@[i as int]);
            lemma_window_sums_bound(store@.take(i as int), cutoff);
            assert(store@.take(i as int).len() == i);
        }
        let ev = &store.events[i];
        if ev.timestamp >= cutoff {
            rx = rx + ev.rx_bytes as u128;
            tx = tx + ev.tx_bytes as u128;
        }
        i += 1;
    }
    proof {
        assert(store@.take(n as int) =~= store@);
        if forall|j: int|
            0 <= j < store@.len() ==> (#[trigger] store@[j]).timestamp < spec_window_start(
                now,
                since_minutes,
            ) {
            lemma_window_sums_zero(store@, cutoff);
        }
        lemma_window_sums_bound(store@, cutoff);
    }
    (rx, tx, rx + tx)
}

/// `recent_totals_at` against the wall clock: the cutoff is computed from
/// the clock's current reading, so the result is exact for some such
/// instant.
pub fn recent_totals(store: &EventStore, since_minutes: u32) -> (r: (u128, u128, u128))
    requires
        store.wf(),
    ensures
        exists|now: u64|
            r.0 == window_rx(store@, #[trigger] spec_window_start(now, since_minutes)) && r.1
                == window_tx(store@, spec_window_start(now, since_minutes)),
        r.2 == r.0 + r.1,
{
    let now = now_unix_secs();
    let r = recent_totals_at(store, since_minutes, now);
    proof {
        assert(r.0 == window_rx(store@, spec_window_start(now, since_minutes)));
    }
    r
}

/// The calendar period kinds of the historical views.
#[derive(Clone, Copy)]
pub enum PeriodKind {
    Hour,
    Day,
    Week,
    Month,
}

/// Bucket key of the period of `kind` containing `ts`.
pub open spec fn spec_bucket_key(kind: PeriodKind, ts: u64) -> int {
    match kind {
        PeriodKind::Hour => calendar::spec_hour_key(ts),
        PeriodKind::Day => calendar::spec_day_key(ts),
        PeriodKind::Week => calendar::spec_week_key(ts),
        PeriodKind::Month => calendar::spec_month_key(ts),
    }
}

fn bucket_key(kind: PeriodKind, ts: u64) -> (r: u64)
    ensures
        r as int == spec_bucket_key(kind, ts),
{
    match kind {
        PeriodKind::Hour => calendar::hour_key(ts),
        PeriodKind::Day => calendar::day_key(ts),
        PeriodKind::Week => calendar::week_key(ts),
        PeriodKind::Month => calendar::month_key(ts),
    }
}

/// Whether an event falls in the bucket `key` of `kind`, restricted to
/// events at or after `cutoff`.
pub open spec fn event_in_bucket(e: TrafficEvent, kind: PeriodKind, key: int, cutoff: u64) -> bool {
    e.timestamp >= cutoff && spec_bucket_key(kind, e.timestamp) == key
}

/// Sum of received bytes over the events in bucket `key`.
pub open spec fn bucket_rx(events: Seq<TrafficEvent>, kind: PeriodKind, key: int, cutoff: u64) -> int
    decreases events.len(),
{
    if events.len() == 0 {
        0
    } else {
        bucket_rx(events.drop_last(), kind, key, cutoff) + if event_in_bucket(
            events.last(),
            kind,
            key,
            cutoff,
        ) {
            events.last().rx_bytes as int
        } else {
            0
        }
    }
}

/// Sum of transmitted bytes over the events in bucket `key`.
pub open spec fn bucket_tx(events: Seq<TrafficEvent>, kind: PeriodKind, key: int, cutoff: u64) -> int
    decreases events.len(),
{
    if events.len() == 0 {
        0
    } else {
        bucket_tx(events.drop_last(), kind, key, cutoff) + if event_in_bucket(
            events.last(),
            kind,
            key,
            cutoff,
        ) {
            events.last().tx_bytes as int
        } else {
            0
        }
    }
}

/// The set of bucket keys populated by the events at or after `cutoff`.
pub open spec fn bucket_keys(events: Seq<TrafficEvent>, kind: PeriodKind, cutoff: u64) -> Set<int>
    decreases events.len(),
{
    if events.len() == 0 {
        Set::empty()
    } else if events.last().timestamp >= cutoff {
        bucket_keys(events.drop_last(), kind, cutoff).insert(
            spec_bucket_key(kind, events.last().timestamp),
        )
    } else {
        bucket_keys(events.drop_last(), kind, cutoff)
    }
}

proof fn lemma_bucket_keys_finite(events: Seq<TrafficEvent>, kind: PeriodKind, cutoff: u64)
    ensures
        bucket_keys(events, kind, cutoff).finite(),
    decreases events.len(),
{
    if events.len() == 0 {
    } else {
        lemma_bucket_keys_finite(events.drop_last(), kind, cutoff);
    }
}

proof fn lemma_bucket_sums_bound(events: Seq<TrafficEvent>, kind: PeriodKind, key: int, cutoff: u64)
    ensures
        0 <= bucket_rx(events, kind, key, cutoff) <= events.len() * 0xffff_ffff_ffff_ffff,
        0 <= bucket_tx(events, kind, key, cutoff) <= events.len() * 0xffff_ffff_ffff_ffff,
    decreases events.len(),
{
    if events.len() == 0 {
    } else {
        lemma_bucket_sums_bound(events.drop_last(), kind, key, cutoff);
        assert((events.len() - 1) * 0xffff_ffff_ffff_ffff + 0xffff_ffff_ffff_ffff == events.len()
            * 0xffff_ffff_ffff_ffff) by (nonlinear_arith);
    }
}

proof fn lemma_bucket_sums_absent(events: Seq<TrafficEvent>, kind: PeriodKind, key: int, cutoff: u64)
    requires
        !bucket_keys(events, kind, cutoff).contains(key),
    ensures
        bucket_rx(events, kind, key, cutoff) == 0,
        bucket_tx(events, kind, key, cutoff) == 0,
    decreases events.len(),
{
    if events.len() == 0 {
    } else {
        lemma_bucket_sums_absent(events.drop_last(), kind, key, cutoff);
    }
}

/// One period bucket row: `period` is the bucket key (ordered like the
/// periods themselves), the sums are in bytes, and the total is derived
/// from the two sums, never summed independently.
#[derive(Clone, Copy, Debug)]
pub struct PeriodRow {
    pub period: u64,
    pub rx_bytes: u128,
    pub tx_bytes: u128,
    pub total_bytes: u128,
}

/// The row states exactly the sums of its bucket over `events`.
pub open spec fn period_row_ok(
    row: PeriodRow,
    events: Seq<TrafficEvent>,
    kind: PeriodKind,
    cutoff: u64,
) -> bool {
    &&& bucket_keys(events, kind, cutoff).contains(row.period as int)
    &&& row.rx_bytes == bucket_rx(events, kind, row.period as int, cutoff)
    &&& row.tx_bytes == bucket_tx(events, kind, row.period as int, cutoff)
    &&& row.total_bytes == row.rx_bytes + row.tx_bytes
}

pub open spec fn row_has_key(rows: Seq<PeriodRow>, key: int) -> bool {
    exists|i: int| 0 <= i < rows.len() && (#[trigger] rows[i]).period == key
}

pub open spec fn rows_all_above(rows: Seq<PeriodRow>, key: int) -> bool {
    forall|i: int| 0 <= i < rows.len() ==> (#[trigger] rows[i]).period > key
}

/// The full contract of a bucketed query: every row is exact for its
/// bucket, rows come in strictly descending period order, the row count is
/// the number of populated buckets capped at `limit`, and when the cap
/// bites only the most recent buckets are kept.
pub open spec fn period_rows_ok(
    rows: Seq<PeriodRow>,
    events: Seq<TrafficEvent>,
    kind: PeriodKind,
    cutoff: u64,
    limit: u32,
) -> bool {
    &&& forall|i: int|
        0 <= i < rows.len() ==> period_row_ok(#[trigger] rows[i], events, kind, cutoff)
    &&& forall|i: int, j: int|
        #![trigger rows[i], rows[j]]
        0 <= i < j < rows.len() ==> rows[i].period > rows[j].period
    &&& rows.len() == vstd::math::min(limit as int, bucket_keys(events, kind, cutoff).len() as int)
    &&& forall|key: int|
        #[trigger] bucket_keys(events, kind, cutoff).contains(key) && !row_has_key(rows, key)
            ==> rows_all_above(rows, key)
}

/// Group the events at or after `cutoff` into buckets of `kind`, one row
/// per populated bucket, in strictly descending key order.
#[verifier::loop_isolation(false)]
fn group_by_bucket(events: &Vec<TrafficEvent>, kind: PeriodKind, cutoff: u64) -> (rows: Vec<
    PeriodRow,
>)
    requires
        events@.len() <= 0x4000_0000_0000_0000,
    ensures
        forall|i: int|
            0 <= i < rows@.len() ==> period_row_ok(#[trigger] rows@[i], events@, kind, cutoff),
        forall|i: int, j: int|
            #![trigger rows@[i], rows@[j]]
            0 <= i < j < rows@.len() ==> rows@[i].period > rows@[j].period,
        forall|key: int|
            #[trigger] bucket_keys(events@, kind, cutoff).contains(key) ==> row_has_key(
                rows@,
                key,
            ),
        rows@.len() == bucket_keys(events@, kind, cutoff).len(),
{
    let mut rows: Vec<PeriodRow> = Vec::new();
    let mut idx: usize = 0;
    while idx < events.len()
        invariant
            idx <= events@.len(),
            forall|i: int|
                0 <= i < rows@.len() ==> period_row_ok(
                    #[trigger] rows@[i],
                    events@.take(idx as int),
                    kind,
                    cutoff,
                ),
            forall|i: int, j: int|
                #![trigger rows@[i], rows@[j]]
                0 <= i < j < rows@.len() ==> rows@[i].period > rows@[j].period,
            forall|key: int|
                #[trigger] bucket_keys(events@.take(idx as int), kind, cutoff).contains(key)
                    ==> row_has_key(rows@, key),
            rows@.len() == bucket_keys(events@.take(idx as int), kind, cutoff).len(),
        decreases events@.len() - idx,
    {
        let ghost prefix = events@.take(idx as int);
        let ghost prefix1 = events@.take(idx + 1);
        proof {
            assert(prefix1.drop_last() =~= prefix);
            assert(prefix1.last() == events@[idx as int]);
            lemma_bucket_keys_finite(prefix, kind, cutoff);
        }
        let e = &events[idx];
        if e.timestamp >= cutoff {
            let key = bucket_key(kind, e.timestamp);
            let ghost k = key as int;
            let mut j: usize = 0;
            while j < rows.len() && rows[j].period > key
                invariant
                    j <= rows@.len(),
                    forall|i: int| 0 <= i < j ==> (#[trigger] rows@[i]).period > key,
                decreases rows@.len() - j,
            {
                j += 1;
            }
            if j < rows.len() && rows[j].period == key {
                // The bucket already has a row: fold this event in.
                let row = rows[j];
                proof {
                    lemma_bucket_sums_bound(prefix, kind, k, cutoff);
                }
                let new_row = PeriodRow {
                    period: row.period,
                    rx_bytes: row.rx_bytes + e.rx_bytes as u128,
                    tx_bytes: row.tx_bytes + e.tx_bytes as u128,
                    total_bytes: (row.rx_bytes + e.rx_bytes as u128) + (row.tx_bytes
                        + e.tx_bytes as u128),
                };
                let ghost old_rows = rows@;
                rows.set(j, new_row);
                proof {
                    assert(bucket_keys(prefix1, kind, cutoff) =~= bucket_keys(
                        prefix,
                        kind,
                        cutoff,
                    ).insert(k));
                    assert forall|i: int| 0 <= i < rows@.len() implies period_row_ok(
                        #[trigger] rows@[i],
                        prefix1,
                        kind,
                        cutoff,
                    ) by {
                        if i != j {
                            assert(rows@[i].period != key);
                        }
                    }
                    assert forall|key2: int|
                        #[trigger] bucket_keys(prefix1, kind, cutoff).contains(key2) implies
                        row_has_key(rows@, key2) by {
                        if key2 == k {
                            assert(rows@[j as int].period == key2);
                        } else {
                            let wi = choose|wi: int|
                                0 <= wi < old_rows.len() && (#[trigger] old_rows[wi]).period
                                    == key2;
                            assert(rows@[wi].period == key2);
                        }
                    }
                }
            } else {
                // A new bucket: every row seen so far is either above or
                // below its key, so the key is not grouped yet.
                proof {
                    assert forall|i: int| 0 <= i < rows@.len() implies (#[trigger] rows@[i]).period
                        != key by {
                        if i > j {
                            assert(rows@[j as int].period > rows@[i].period);
                        }
                    }
                    assert(!row_has_key(rows@, k));
                    assert(!bucket_keys(prefix, kind, cutoff).contains(k));
                    lemma_bucket_sums_absent(prefix, kind, k, cutoff);
                }
                let new_row = PeriodRow {
                    period: key,
                    rx_bytes: e.rx_bytes as u128,
                    tx_bytes: e.tx_bytes as u128,
                    total_bytes: e.rx_bytes as u128 + e.tx_bytes as u128,
                };
                let ghost old_rows = rows@;
                rows.insert(j, new_row);
                proof {
                    old_rows.insert_ensures(j as int, new_row);
                    assert(bucket_keys(prefix1, kind, cutoff) =~= bucket_keys(
                        prefix,
                        kind,
                        cutoff,
                    ).insert(k));
                    assert forall|i: int| 0 <= i < rows@.len() implies period_row_ok(
                        #[trigger] rows@[i],
                        prefix1,
                        kind,
                        cutoff,
                    ) by {
                        if i < j {
                            assert(rows@[i] == old_rows[i]);
                            assert(rows@[i].period != key);
                        } else if i == j {
                            assert(rows@[i] == new_row);
                        } else {
                            assert(rows@[i] == old_rows[i - 1]);
                            assert(old_rows[i - 1].period != key);
                        }
                    }
                    assert forall|i: int, j2: int|
                        #![trigger rows@[i], rows@[j2]]
                        0 <= i < j2 < rows@.len() implies rows@[i].period > rows@[j2].period by {
                        if j2 < j {
                        } else if i == j && j2 > j {
                            assert(rows@[j2] == old_rows[j2 - 1]);
                            assert(old_rows[j as int].period < key);
                        } else if j2 == j && i < j {
                            assert(rows@[i] == old_rows[i]);
                        }
                    }
                    assert forall|key2: int|
                        #[trigger] bucket_keys(prefix1, kind, cutoff).contains(key2) implies
                        row_has_key(rows@, key2) by {
                        if key2 == k {
                            assert(rows@[j as int].period == key2);
                        } else {
                            let wi = choose|wi: int|
                                0 <= wi < old_rows.len() && (#[trigger] old_rows[wi]).period
                                    == key2;
                            if wi < j {
                                assert(rows@[wi].period == key2);
                            } else {
                                assert(rows@[wi + 1].period == key2);
                            }
                        }
                    }
                }
            }
        } else {
            proof {
                assert(bucket_keys(prefix1, kind, cutoff) =~= bucket_keys(prefix, kind, cutoff));
            }
        }
        idx += 1;
    }
    proof {
        assert(events@.take(events@.len() as int) =~= events@);
    }
    rows
}

/// Keep the first `limit` rows of a descending, complete grouping; when the
/// cap bites, every dropped bucket key is below every kept one.
fn limit_rows(
    rows: Vec<PeriodRow>,
    limit: u32,
    Ghost(events): Ghost<Seq<TrafficEvent>>,
    Ghost(kind): Ghost<PeriodKind>,
    Ghost(cutoff): Ghost<u64>,
) -> (out: Vec<PeriodRow>)
    requires
        forall|i: int|
            0 <= i < rows@.len() ==> period_row_ok(#[trigger] rows@[i], events, kind, cutoff),
        forall|i: int, j: int|
            #![trigger rows@[i], rows@[j]]
            0 <= i < j < rows@.len() ==> rows@[i].period > rows@[j].period,
        forall|key: int|
            #[trigger] bucket_keys(events, kind, cutoff).contains(key) ==> row_has_key(
                rows@,
                key,
            ),
        rows@.len() == bucket_keys(events, kind, cutoff).len(),
    ensures
        period_rows_ok(out@, events, kind, cutoff, limit),
{
    let ghost full = rows@;
    let mut out = rows;
    if out.len() > limit as usize {
        out.truncate(limit as usize);
        proof {
            assert(out@ =~= full.take(limit as int));
            assert forall|key: int|
                #[trigger] bucket_keys(events, kind, cutoff).contains(key) && !row_has_key(
                    out@,
                    key,
                ) implies rows_all_above(out@, key) by {
                let p = choose|p: int| 0 <= p < full.len() && (#[trigger] full[p]).period == key;
                if p < limit as int {
                    assert(out@[p].period == key);
                } else {
                    assert forall|i: int| 0 <= i < out@.len() implies (#[trigger] out@[i]).period
                        > key by {
                        assert(full[i].period > full[p].period);
                    }
                }
            }
        }
    }
    out
}

/// Hourly usage is restricted to the last seven days before `now`.
pub open spec fn spec_hour_window_start(now: u64) -> u64 {
    if now >= 604800 {
        (now - 604800) as u64
    } else {
        0
    }
}

/// Usage per hour over the seven days before `now`, most recent first,
/// capped at `limit` rows.
pub fn usage_by_hour_at(store: &EventStore, limit: u32, now: u64) -> (rows: Vec<PeriodRow>)
    requires
        store.wf(),
    ensures
        period_rows_ok(rows@, store@, PeriodKind::Hour, spec_hour_window_start(now), limit),
{
    let cutoff: u64 = if now >= 604800 {
        now - 604800
    } else {
        0
    };
    let all = group_by_bucket(&store.events, PeriodKind::Hour, cutoff);
    limit_rows(all, limit, Ghost(store@), Ghost(PeriodKind::Hour), Ghost(cutoff))
}

/// `usage_by_hour_at` against the wall clock.
pub fn usage_by_hour(store: &EventStore, limit: u32) -> (rows: Vec<PeriodRow>)
    requires
        store.wf(),
    ensures
        exists|now: u64|
            period_rows_ok(rows@, store@, PeriodKind::Hour, #[trigger] spec_hour_window_start(now), limit),
{
    let now = now_unix_secs();
    let rows = usage_by_hour_at(store, limit, now);
    proof {
        assert(period_rows_ok(rows@, store@, PeriodKind::Hour, spec_hour_window_start(now), limit));
    }
    rows
}

/// Usage per calendar day over all history, most recent first, capped at
/// `limit` rows.
pub fn usage_by_day(store: &EventStore, limit: u32) -> (rows: Vec<PeriodRow>)
    requires
        store.wf(),
    ensures
        period_rows_ok(rows@, store@, PeriodKind::Day, 0, limit),
{
    let all = group_by_bucket(&store.events, PeriodKind::Day, 0);
    limit_rows(all, limit, Ghost(store@), Ghost(PeriodKind::Day), Ghost(0u64))
}

/// Usage per week over all history, most recent first, capped at `limit`
/// rows.
pub fn usage_by_week(store: &EventStore, limit: u32) -> (rows: Vec<PeriodRow>)
    requires
        store.wf(),
    ensures
        period_rows_ok(rows@, store@, PeriodKind::Week, 0, limit),
{
    let all = group_by_bucket(&store.events, PeriodKind::Week, 0);
    limit_rows(all, limit, Ghost(store@), Ghost(PeriodKind::Week), Ghost(0u64))
}

/// Usage per calendar month over all history, most recent first, capped at
/// `limit` rows.
pub fn usage_by_month(store: &EventStore, limit: u32) -> (rows: Vec<PeriodRow>)
    requires
        store.wf(),
    ensures
        period_rows_ok(rows@, store@, PeriodKind::Month, 0, limit),
{
    let all = group_by_bucket(&store.events, PeriodKind::Month, 0);
    limit_rows(all, limit, Ghost(store@), Ghost(PeriodKind::Month), Ghost(0u64))
}

/// Whether an event belongs to `name` and falls at or after `cutoff`.
pub open spec fn event_for_interface(e: TrafficEvent, name: Seq<char>, cutoff: u64) -> bool {
    e.timestamp >= cutoff && e.interface@ == name
}

/// Sum of received bytes for one interface over the window.
pub open spec fn interface_rx(events: Seq<TrafficEvent>, name: Seq<char>, cutoff: u64) -> int
    decreases events.len(),
{
    if events.len() == 0 {
        0
    } else {
        interface_rx(events.drop_last(), name, cutoff) + if event_for_interface(
            events.last(),
            name,
            cutoff,
        ) {
            events.last().rx_bytes as int
        } else {
            0
        }
    }
}

/// Sum of transmitted bytes for one interface over the window.
pub open spec fn interface_tx(events: Seq<TrafficEvent>, name: Seq<char>, cutoff: u64) -> int
    decreases events.len(),
{
    if events.len() == 0 {
        0
    } else {
        interface_tx(events.drop_last(), name, cutoff) + if event_for_interface(
            events.last(),
            name,
            cutoff,
        ) {
            events.last().tx_bytes as int
        } else {
            0
        }
    }
}

/// The set of interface names with at least one event in the window.
pub open spec fn window_interfaces(events: Seq<TrafficEvent>, cutoff: u64) -> Set<Seq<char>>
    decreases events.len(),
{
    if events.len() == 0 {
        Set::empty()
    } else if events.last().timestamp >= cutoff {
        window_interfaces(events.drop_last(), cutoff).insert(events.last().interface@)
    } else {
        window_interfaces(events.drop_last(), cutoff)
    }
}

proof fn lemma_window_interfaces_finite(events: Seq<TrafficEvent>, cutoff: u64)
    ensures
        window_interfaces(events, cutoff).finite(),
    decreases events.len(),
{
    if events.len() == 0 {
    } else {
        lemma_window_interfaces_finite(events.drop_last(), cutoff);
    }
}

proof fn lemma_interface_sums_bound(events: Seq<TrafficEvent>, name: Seq<char>, cutoff: u64)
    ensures
        0 <= interface_rx(events, name, cutoff) <= events.len() * 0xffff_ffff_ffff_ffff,
        0 <= interface_tx(events, name, cutoff) <= events.len() * 0xffff_ffff_ffff_ffff,
    decreases events.len(),
{
    if events.len() == 0 {
    } else {
        lemma_interface_sums_bound(events.drop_last(), name, cutoff);
        assert((events.len() - 1) * 0xffff_ffff_ffff_ffff + 0xffff_ffff_ffff_ffff == events.len()
            * 0xffff_ffff_ffff_ffff) by (nonlinear_arith);
    }
}

proof fn lemma_interface_sums_absent(events: Seq<TrafficEvent>, name: Seq<char>, cutoff: u64)
    requires
        !window_interfaces(events, cutoff).contains(name),
    ensures
        interface_rx(events, name, cutoff) == 0,
        interface_tx(events, name, cutoff) == 0,
    decreases events.len(),
{
    if events.len() == 0 {
    } else {
        lemma_interface_sums_absent(events.drop_last(), name, cutoff);
    }
}

proof fn lemma_window_interfaces_empty(events: Seq<TrafficEvent>, cutoff: u64)
    requires
        forall|i: int| 0 <= i < events.len() ==> (#[trigger] events[i]).timestamp < cutoff,
    ensures
        window_interfaces(events, cutoff) =~= Set::<Seq<char>>::empty(),
    decreases events.len(),
{
    if events.len() == 0 {
    } else {
        assert(events.last() == events[events.len() - 1]);
        lemma_window_interfaces_empty(events.drop_last(), cutoff);
    }
}

/// One live-view row: per-interface sums in bytes over a recency window,
/// with the total derived from the two sums.
#[derive(Clone, Debug)]
pub struct LiveInterfaceRow {
    pub interface: String,
    pub rx_bytes: u128,
    pub tx_bytes: u128,
    pub total_bytes: u128,
}

/// The row states exactly the sums of its interface over `events`.
pub open spec fn live_row_ok(row: LiveInterfaceRow, events: Seq<TrafficEvent>, cutoff: u64) -> bool {
    &&& window_interfaces(events, cutoff).contains(row.interface@)
    &&& row.rx_bytes == interface_rx(events, row.interface@, cutoff)
    &&& row.tx_bytes == interface_tx(events, row.interface@, cutoff)
    &&& row.total_bytes == row.rx_bytes + row.tx_bytes
}

pub open spec fn row_has_interface(rows: Seq<LiveInterfaceRow>, name: Seq<char>) -> bool {
    exists|i: int| 0 <= i < rows.len() && (#[trigger] rows[i]).interface@ == name
}

/// The full contract of the live view: one exact row per interface seen in
/// the window, in non-increasing order of total bytes.
pub open spec fn live_rows_ok(
    rows: Seq<LiveInterfaceRow>,
    events: Seq<TrafficEvent>,
    cutoff: u64,
) -> bool {
    &&& forall|i: int| 0 <= i < rows.len() ==> live_row_ok(#[trigger] rows[i], events, cutoff)
    &&& forall|i: int, j: int|
        #![trigger rows[i], rows[j]]
        0 <= i < j < rows.len() ==> rows[i].total_bytes >= rows[j].total_bytes
    &&& forall|name: Seq<char>|
        #[trigger] window_interfaces(events, cutoff).contains(name) ==> row_has_interface(
            rows,
            name,
        )
    &&& rows.len() == window_interfaces(events, cutoff).len()
}

fn find_interface(rows: &Vec<LiveInterfaceRow>, name: &String) -> (r: Option<usize>)
    ensures
        match r {
            Some(f) => 0 <= f < rows@.len() && rows@[f as int].interface@ == name@,
            None => forall|i: int|
                0 <= i < rows@.len() ==> (#[trigger] rows@[i]).interface@ != name@,
        },
{
    let mut f: usize = 0;
    while f < rows.len()
        invariant
            f <= rows@.len(),
            forall|i: int| 0 <= i < f ==> (#[trigger] rows@[i]).interface@ != name@,
        decreases rows@.len() - f,
    {
        if rows[f].interface == *name {
            return Some(f);
        }
        f += 1;
    }
    None
}

/// Group the events at or after `cutoff` by interface, one exact row per
/// interface, in first-seen order.
#[verifier::loop_isolation(false)]
fn group_by_interface(events: &Vec<TrafficEvent>, cutoff: u64) -> (rows: Vec<LiveInterfaceRow>)
    requires
        events@.len() <= 0x4000_0000_0000_0000,
    ensures
        forall|i: int|
            0 <= i < rows@.len() ==> live_row_ok(#[trigger] rows@[i], events@, cutoff),
        forall|i: int, j: int|
            #![trigger rows@[i], rows@[j]]
            0 <= i < j < rows@.len() ==> rows@[i].interface@ != rows@[j].interface@,
        forall|name: Seq<char>|
            #[trigger] window_interfaces(events@, cutoff).contains(name) ==> row_has_interface(
                rows@,
                name,
            ),
        rows@.len() == window_interfaces(events@, cutoff).len(),
{
    let mut rows: Vec<LiveInterfaceRow> = Vec::new();
    let mut idx: usize = 0;
    while idx < events.len()
        invariant
            idx <= events@.len(),
            forall|i: int|
                0 <= i < rows@.len() ==> live_row_ok(
                    #[trigger] rows@[i],
                    events@.take(idx as int),
                    cutoff,
                ),
            forall|i: int, j: int|
                #![trigger rows@[i], rows@[j]]
                0 <= i < j < rows@.len() ==> rows@[i].interface@ != rows@[j].interface@,
            forall|name: Seq<char>|
                #[trigger] window_interfaces(events@.take(idx as int), cutoff).contains(name)
                    ==> row_has_interface(rows@, name),
            rows@.len() == window_interfaces(events@.take(idx as int), cutoff).len(),
        decreases events@.len() - idx,
    {
        let ghost prefix = events@.take(idx as int);
        let ghost prefix1 = events@.take(idx + 1);
        proof {
            assert(prefix1.drop_last() =~= prefix);
            assert(prefix1.last() == events@[idx as int]);
            lemma_window_interfaces_finite(prefix, cutoff);
        }
        let e = &events[idx];
        if e.timestamp >= cutoff {
            let ghost nm = e.interface@;
            match find_interface(&rows, &e.interface) {
                Some(f) => {
                    proof {
                        lemma_interface_sums_bound(prefix, nm, cutoff);
                    }
                    let row_ref = &rows[f];
                    let new_row = LiveInterfaceRow {
                        interface: row_ref.interface.clone(),
                        rx_bytes: row_ref.rx_bytes + e.rx_bytes as u128,
                        tx_bytes: row_ref.tx_bytes + e.tx_bytes as u128,
                        total_bytes: (row_ref.rx_bytes + e.rx_bytes as u128) + (row_ref.tx_bytes
                            + e.tx_bytes as u128),
                    };
                    let ghost old_rows = rows@;
                    rows.set(f, new_row);
                    proof {
                        assert(window_interfaces(prefix1, cutoff) =~= window_interfaces(
                            prefix,
                            cutoff,
                        ).insert(nm));
                        assert forall|i: int| 0 <= i < rows@.len() implies live_row_ok(
                            #[trigger] rows@[i],
                            prefix1,
                            cutoff,
                        ) by {
                            if i != f {
                                assert(rows@[i].interface@ != nm);
                            }
                        }
                        assert forall|name: Seq<char>|
                            #[trigger] window_interfaces(prefix1, cutoff).contains(name) implies
                            row_has_interface(rows@, name) by {
                            if name == nm {
                                assert(rows@[f as int].interface@ == name);
                            } else {
                                let wi = choose|wi: int|
                                    0 <= wi < old_rows.len() && (#[trigger] old_rows[wi]).interface@
                                        == name;
                                assert(rows@[wi].interface@ == name);
                            }
                        }
                    }
                },
                None => {
                    proof {
                        assert(!row_has_interface(rows@, nm));
                        assert(!window_interfaces(prefix, cutoff).contains(nm));
                        lemma_interface_sums_absent(prefix, nm, cutoff);
                    }
                    let new_row = LiveInterfaceRow {
                        interface: e.interface.clone(),
                        rx_bytes: e.rx_bytes as u128,
                        tx_bytes: e.tx_bytes as u128,
                        total_bytes: e.rx_bytes as u128 + e.tx_bytes as u128,
                    };
                    let ghost old_rows = rows@;
                    rows.push(new_row);
                    proof {
                        assert(window_interfaces(prefix1, cutoff) =~= window_interfaces(
                            prefix,
                            cutoff,
                        ).insert(nm));
                        assert(rows@[old_rows.len() as int] == new_row);
                        assert forall|i: int| 0 <= i < rows@.len() implies live_row_ok(
                            #[trigger] rows@[i],
                            prefix1,
                            cutoff,
                        ) by {
                            if i < old_rows.len() {
                                assert(rows@[i] == old_rows[i]);
                                assert(rows@[i].interface@ != nm);
                            }
                        }
                        assert forall|name: Seq<char>|
                            #[trigger] window_interfaces(prefix1, cutoff).contains(name) implies
                            row_has_interface(rows@, name) by {
                            if name == nm {
                                assert(rows@[old_rows.len() as int].interface@ == name);
                            } else {
                                let wi = choose|wi: int|
                                    0 <= wi < old_rows.len() && (#[trigger] old_rows[wi]).interface@
                                        == name;
                                assert(rows@[wi].interface@ == name);
                            }
                        }
                    }
                },
            }
        } else {
            proof {
                assert(window_interfaces(prefix1, cutoff) =~= window_interfaces(prefix, cutoff));
            }
        }
        idx += 1;
    }
    proof {
        assert(events@.take(events@.len() as int) =~= events@);
    }
    rows
}

/// Order grouped live rows by non-increasing total, keeping each row's
/// exactness, one row per interface, and completeness.
#[verifier::loop_isolation(false)]
fn sort_live_rows(
    rows: Vec<LiveInterfaceRow>,
    Ghost(events): Ghost<Seq<TrafficEvent>>,
    Ghost(cutoff): Ghost<u64>,
) -> (out: Vec<LiveInterfaceRow>)
    requires
        forall|i: int|
            0 <= i < rows@.len() ==> live_row_ok(#[trigger] rows@[i], events, cutoff),
        forall|i: int, j: int|
            #![trigger rows@[i], rows@[j]]
            0 <= i < j < rows@.len() ==> rows@[i].interface@ != rows@[j].interface@,
        forall|name: Seq<char>|
            #[trigger] window_interfaces(events, cutoff).contains(name) ==> row_has_interface(
                rows@,
                name,
            ),
        rows@.len() == window_interfaces(events, cutoff).len(),
    ensures
        live_rows_ok(out@, events, cutoff),
{
    let mut src = rows;
    let mut out: Vec<LiveInterfaceRow> = Vec::new();
    while src.len() > 0
        invariant
            forall|i: int| 0 <= i < out@.len() ==> live_row_ok(#[trigger] out@[i], events, cutoff),
            forall|i: int| 0 <= i < src@.len() ==> live_row_ok(#[trigger] src@[i], events, cutoff),
            forall|i: int, j: int|
                #![trigger out@[i], out@[j]]
                0 <= i < j < out@.len() ==> out@[i].total_bytes >= out@[j].total_bytes,
            forall|i: int, j: int|
                #![trigger out@[i], out@[j]]
                0 <= i < j < out@.len() ==> out@[i].interface@ != out@[j].interface@,
            forall|i: int, j: int|
                #![trigger src@[i], src@[j]]
                0 <= i < j < src@.len() ==> src@[i].interface@ != src@[j].interface@,
            forall|i: int, j: int|
                #![trigger out@[i], src@[j]]
                0 <= i < out@.len() && 0 <= j < src@.len() ==> out@[i].interface@
                    != src@[j].interface@,
            forall|name: Seq<char>|
                #[trigger] window_interfaces(events, cutoff).contains(name) ==> row_has_interface(
                    out@,
                    name,
                ) || row_has_interface(src@, name),
            out@.len() + src@.len() == window_interfaces(events, cutoff).len(),
        decreases src@.len(),
    {
        let ghost old_src = src@;
        let r = src.remove(0);
        proof {
            assert(src@ =~= old_src.subrange(1, old_src.len() as int));
        }
        let mut j: usize = 0;
        while j < out.len() && out[j].total_bytes >= r.total_bytes
            invariant
                j <= out@.len(),
                forall|i: int| 0 <= i < j ==> (#[trigger] out@[i]).total_bytes >= r.total_bytes,
            decreases out@.len() - j,
        {
            j += 1;
        }
        let ghost old_out = out@;
        out.insert(j, r);
        proof {
            old_out.insert_ensures(j as int, r);
            assert forall|i: int, j2: int|
                #![trigger out@[i], out@[j2]]
                0 <= i < j2 < out@.len() implies out@[i].total_bytes >= out@[j2].total_bytes by {
                if i < j as int && j2 == j as int {
                    assert(out@[i] == old_out[i]);
                } else if i == j as int && j2 > j as int {
                    assert(out@[j2] == old_out[j2 - 1]);
                    assert(old_out[j as int].total_bytes < r.total_bytes);
                    assert(old_out[j2 - 1].total_bytes <= old_out[j as int].total_bytes);
                }
            }
            assert forall|name: Seq<char>|
                #[trigger] window_interfaces(events, cutoff).contains(name) implies
                row_has_interface(out@, name) || row_has_interface(src@, name) by {
                if row_has_interface(old_out, name) {
                    let wi = choose|wi: int|
                        0 <= wi < old_out.len() && (#[trigger] old_out[wi]).interface@ == name;
                    if wi < j as int {
                        assert(out@[wi].interface@ == name);
                    } else {
                        assert(out@[wi + 1].interface@ == name);
                    }
                } else if row_has_interface(old_src, name) {
                    let wi = choose|wi: int|
                        0 <= wi < old_src.len() && (#[trigger] old_src[wi]).interface@ == name;
                    if wi == 0 {
                        assert(out@[j as int].interface@ == name);
                    } else {
                        assert(src@[wi - 1].interface@ == name);
                    }
                }
            }
        }
    }
    out
}

/// Per-interface usage over the recency window of `since_minutes` minutes
/// ending at `now`, one row per interface seen in the window, ordered by
/// non-increasing total. An empty window yields an empty list, never an
/// error.
pub fn recent_by_interface_at(store: &EventStore, since_minutes: u32, now: u64) -> (rows: Vec<
    LiveInterfaceRow,
>)
    requires
        store.wf(),
    ensures
        live_rows_ok(rows@, store@, spec_window_start(now, since_minutes)),
        (forall|i: int|
            0 <= i < store@.len() ==> (#[trigger] store@[i]).timestamp < spec_window_start(
                now,
                since_minutes,
            )) ==> rows@.len() == 0,
{
    let cutoff = window_start(now, since_minutes);
    let grouped = group_by_interface(&store.events, cutoff);
    let rows = sort_live_rows(grouped, Ghost(store@), Ghost(cutoff));
    proof {
        if forall|i: int|
            0 <= i < store@.len() ==> (#[trigger] store@[i]).timestamp < spec_window_start(
                now,
                since_minutes,
            ) {
            lemma_window_interfaces_empty(store@, cutoff);
        }
    }
    rows
}

/// `recent_by_interface_at` against the wall clock.
pub fn recent_by_interface(store: &EventStore, since_minutes: u32) -> (rows: Vec<LiveInterfaceRow>)
    requires
        store.wf(),
    ensures
        exists|now: u64|
            live_rows_ok(rows@, store@, #[trigger] spec_window_start(now, since_minutes)),
{
    let now = now_unix_secs();
    let rows = recent_by_interface_at(store, since_minutes, now);
    proof {
        assert(live_rows_ok(rows@, store@, spec_window_start(now, since_minutes)));
    }
    rows
}

} // verus!
