use vstd::prelude::*;
use crate::CalendarMonth;
use crate::event::{RideEvent, RideKind};

verus! {

/// The larger of two values, the merge rule every aggregate uses.
pub open spec fn max_of(a: int, b: int) -> int {
    if a >= b {
        a
    } else {
        b
    }
}

/// A stored value, counting an absent key as zero.
pub open spec fn stored_or_zero(m: Map<CalendarMonth, int>, k: CalendarMonth) -> int {
    if m.dom().contains(k) {
        m[k]
    } else {
        0
    }
}

/// Max-merges one value into a month-keyed aggregate map: never overwrite
/// with a smaller value, never sum.
pub open spec fn merge_month(m: Map<CalendarMonth, int>, k: CalendarMonth, v: int) -> Map<
    CalendarMonth,
    int,
> {
    m.insert(k, max_of(stored_or_zero(m, k), v))
}

/// The scan state of one device: the running and maximum contiguous
/// distances, the month being accumulated, and the monthly maxima already
/// flushed.
pub struct ScanState {
    pub in_trip: bool,
    pub curr: int,
    pub curr_yearly: int,
    pub max_month: int,
    pub max_yearly: int,
    pub month: Option<CalendarMonth>,
    pub monthly: Map<CalendarMonth, int>,
}

pub open spec fn init_state() -> ScanState {
    ScanState {
        in_trip: false,
        curr: 0,
        curr_yearly: 0,
        max_month: 0,
        max_yearly: 0,
        month: None,
        monthly: Map::empty(),
    }
}

/// The month-boundary flush: entering a month other than the one being
/// accumulated closes the open trip into the old month's maximum, merges
/// that maximum into the aggregates, and restarts the monthly accumulators.
/// The yearly accumulators run across month boundaries.
pub open spec fn enter_month(st: ScanState, m: CalendarMonth) -> ScanState {
    match st.month {
        None => ScanState { month: Some(m), ..st },
        Some(cur) => if m == cur {
            st
        } else {
            ScanState {
                month: Some(m),
                monthly: merge_month(
                    st.monthly,
                    cur,
                    if st.in_trip {
                        max_of(st.max_month, st.curr)
                    } else {
                        st.max_month
                    },
                ),
                curr: 0,
                max_month: 0,
                ..st
            }
        },
    }
}

/// One event's effect after the boundary flush: charging closes the open
/// trip segment, a trip extends it, anything else is transparent.
pub open spec fn apply_kind(st: ScanState, ev: RideEvent) -> ScanState {
    match ev.kind {
        RideKind::Charging => if st.in_trip {
            ScanState {
                in_trip: false,
                max_month: max_of(st.max_month, st.curr),
                max_yearly: max_of(st.max_yearly, st.curr_yearly),
                curr: 0,
                curr_yearly: 0,
                ..st
            }
        } else {
            ScanState { in_trip: false, ..st }
        },
        RideKind::Trip => ScanState {
            in_trip: true,
            curr: st.curr + ev.distance,
            curr_yearly: st.curr_yearly + ev.distance,
            ..st
        },
        RideKind::Other => st,
    }
}

/// One event's whole effect: an event that fails the year gate or the month
/// filter is invisible, it mutates nothing.
pub open spec fn step(st: ScanState, ev: RideEvent, filter: Option<CalendarMonth>) -> ScanState {
    if ev.month.passes(filter) {
        apply_kind(enter_month(st, ev.month), ev)
    } else {
        st
    }
}

/// The scan state after a whole event sequence.
pub open spec fn scan(events: Seq<RideEvent>, filter: Option<CalendarMonth>) -> ScanState
    decreases events.len(),
{
    if events.len() == 0 {
        init_state()
    } else {
        step(scan(events.drop_last(), filter), events.last(), filter)
    }
}

/// The end-of-stream flush: a trip still open is folded into the maxima
/// without an event to close it, and the last month's maximum is merged.
pub open spec fn finish_scan(st: ScanState) -> ScanState {
    let closed = if st.in_trip {
        ScanState {
            max_month: max_of(st.max_month, st.curr),
            max_yearly: max_of(st.max_yearly, st.curr_yearly),
            ..st
        }
    } else {
        st
    };
    match closed.month {
        None => closed,
        Some(cur) => ScanState {
            monthly: merge_month(closed.monthly, cur, closed.max_month),
            ..closed
        },
    }
}

/// The monthly maxima of one device: one entry per distinct month that
/// survived the year gate and the month filter.
pub open spec fn device_monthly(events: Seq<RideEvent>, filter: Option<CalendarMonth>) -> Map<
    CalendarMonth,
    int,
> {
    finish_scan(scan(events, filter)).monthly
}

/// The yearly maximum one device's events produce: the largest contiguous
/// distance anywhere inside the tracked years, zero when nothing qualified.
pub open spec fn device_yearly(events: Seq<RideEvent>, filter: Option<CalendarMonth>) -> int {
    finish_scan(scan(events, filter)).max_yearly
}

/// The sum of every event's distance, the bound the accumulators stay under.
pub open spec fn sum_dist(events: Seq<RideEvent>) -> int
    decreases events.len(),
{
    if events.len() == 0 {
        0
    } else {
        sum_dist(events.drop_last()) + events.last().distance
    }
}

proof fn lemma_sum_dist_prefix(events: Seq<RideEvent>, n: int)
    requires
        0 <= n <= events.len(),
    ensures
        0 <= sum_dist(events.take(n)) <= sum_dist(events),
    decreases events.len(),
{
    if events.len() == 0 {
        assert(events.take(n) =~= events);
    } else if n == events.len() {
        assert(events.take(n) =~= events);
        lemma_sum_dist_prefix(events.drop_last(), events.len() - 1);
    } else {
        assert(events.drop_last().take(n) =~= events.take(n));
        lemma_sum_dist_prefix(events.drop_last(), n);
    }
}

/// Every accumulator and every flushed value stays within the sum of the
/// distances scanned so far.
pub open spec fn state_bounded(st: ScanState, bound: int) -> bool {
    &&& 0 <= st.curr <= bound
    &&& 0 <= st.curr_yearly <= bound
    &&& 0 <= st.max_month <= bound
    &&& 0 <= st.max_yearly <= bound
    &&& forall|m: CalendarMonth|
        st.monthly.dom().contains(m) ==> 0 <= #[trigger] st.monthly[m] <= bound
}

proof fn lemma_scan_bounded(events: Seq<RideEvent>, filter: Option<CalendarMonth>)
    ensures
        state_bounded(scan(events, filter), sum_dist(events)),
    decreases events.len(),
{
    if events.len() > 0 {
        lemma_scan_bounded(events.drop_last(), filter);
        let st = scan(events.drop_last(), filter);
        let b = sum_dist(events.drop_last());
        let ev = events.last();
        assert(state_bounded(st, b));
        assert(sum_dist(events) == b + ev.distance);
        assert(state_bounded(scan(events, filter), sum_dist(events)));
    }
}

/// One monthly aggregate of one device: the largest contiguous distance a
/// trip reached inside this month.
#[derive(Clone, Copy, PartialEq, Eq, Structural, Debug)]
pub struct MonthlyRange {
    pub month: CalendarMonth,
    pub max_distance: u64,
}

/// The value a list of monthly aggregates holds for a month, if any.
pub open spec fn month_val(s: Seq<MonthlyRange>, m: CalendarMonth) -> Option<int>
    decreases s.len(),
{
    if s.len() == 0 {
        None
    } else if s.last().month == m {
        Some(s.last().max_distance as int)
    } else {
        month_val(s.drop_last(), m)
    }
}

pub open spec fn months_unique(s: Seq<MonthlyRange>) -> bool {
    forall|i: int, j: int| 0 <= i < j < s.len() ==> s[i].month != s[j].month
}

/// A list of monthly aggregates agrees pointwise with a month-keyed map.
pub open spec fn represents(s: Seq<MonthlyRange>, m: Map<CalendarMonth, int>) -> bool {
    forall|k: CalendarMonth|
        #[trigger] month_val(s, k) == if m.dom().contains(k) {
            Some(m[k])
        } else {
            None::<int>
        }
}

proof fn lemma_month_val_push(s: Seq<MonthlyRange>, e: MonthlyRange, k: CalendarMonth)
    ensures
        month_val(s.push(e), k) == if e.month == k {
            Some(e.max_distance as int)
        } else {
            month_val(s, k)
        },
{
    assert(s.push(e).drop_last() =~= s);
    assert(s.push(e).last() == e);
}

proof fn lemma_month_val_update(s: Seq<MonthlyRange>, i: int, e: MonthlyRange, k: CalendarMonth)
    requires
        0 <= i < s.len(),
        s[i].month == e.month,
        months_unique(s),
    ensures
        month_val(s.update(i, e), k) == if e.month == k {
            Some(e.max_distance as int)
        } else {
            month_val(s, k)
        },
    decreases s.len(),
{
    let s2 = s.update(i, e);
    if i == s.len() - 1 {
        assert(s2.drop_last() =~= s.drop_last());
        assert(s2.last() == e);
        if e.month != k && s.last().month == k {
            assert(s[i].month == s.last().month);
        }
        if e.month != k {
            lemma_month_val_not_present(s.drop_last(), k);
        }
    } else {
        assert(s2.drop_last() =~= s.drop_last().update(i, e));
        assert(s2.last() == s.last());
        lemma_month_val_update(s.drop_last(), i, e, k);
    }
}

/// A month none of the entries carries has no value.
pub proof fn lemma_month_val_not_present(s: Seq<MonthlyRange>, k: CalendarMonth)
    ensures
        (forall|i: int| 0 <= i < s.len() ==> s[i].month != k) ==> month_val(s, k) is None,
        month_val(s, k) is Some ==> exists|i: int| 0 <= i < s.len() && s[i].month == k,
    decreases s.len(),
{
    if s.len() > 0 {
        lemma_month_val_not_present(s.drop_last(), k);
        if s.last().month != k {
            assert(forall|i: int| 0 <= i < s.len() - 1 ==> s.drop_last()[i] == s[i]);
        } else {
            assert(s[s.len() - 1].month == k);
        }
    }
}

/// Max-merges one month's value into a list of monthly aggregates.
fn upsert_month(out: &mut Vec<MonthlyRange>, m: CalendarMonth, v: u64)
    requires
        months_unique(old(out)@),
    ensures
        months_unique(final(out)@),
        forall|k: CalendarMonth|
            #[trigger] month_val(final(out)@, k) == if k == m {
                Some(max_of(
                    match month_val(old(out)@, k) {
                        Some(x) => x,
                        None => 0,
                    },
                    v as int,
                ))
            } else {
                month_val(old(out)@, k)
            },
{
    let n = out.len();
    let mut i: usize = 0;
    while i < n
        invariant
            0 <= i <= n,
            n == out.len(),
            out@ == old(out)@,
            months_unique(out@),
            forall|j: int| 0 <= j < i ==> out@[j].month != m,
        decreases n - i,
    {
        if out[i].month == m {
            let existing = out[i].max_distance;
            let merged = if existing >= v {
                existing
            } else {
                v
            };
            let entry = MonthlyRange { month: m, max_distance: merged };
            out.set(i, entry);
            proof {
                lemma_month_val_seen(old(out)@, i as int);
                assert forall|k: CalendarMonth|
                    #[trigger] month_val(out@, k) == if k == m {
                        Some(max_of(
                            match month_val(old(out)@, k) {
                                Some(x) => x,
                                None => 0,
                            },
                            v as int,
                        ))
                    } else {
                        month_val(old(out)@, k)
                    } by {
                    lemma_month_val_update(old(out)@, i as int, entry, k);
                };
            }
            return ;
        }
        i = i + 1;
    }
    let entry = MonthlyRange { month: m, max_distance: v };
    out.push(entry);
    proof {
        assert forall|k: CalendarMonth|
            #[trigger] month_val(out@, k) == if k == m {
                Some(max_of(
                    match month_val(old(out)@, k) {
                        Some(x) => x,
                        None => 0,
                    },
                    v as int,
                ))
            } else {
                month_val(old(out)@, k)
            } by {
            lemma_month_val_push(old(out)@, entry, k);
            if k == m {
                lemma_month_val_not_present(old(out)@, k);
            }
        };
        assert(months_unique(out@)) by {
            lemma_month_val_not_present(old(out)@, m);
        };
    }
}

/// The entry holding a month determines that month's value.
pub proof fn lemma_month_val_seen(s: Seq<MonthlyRange>, i: int)
    requires
        0 <= i < s.len(),
        months_unique(s),
    ensures
        month_val(s, s[i].month) == Some(s[i].max_distance as int),
    decreases s.len(),
{
    if i == s.len() - 1 {
    } else {
        assert(s.drop_last()[i] == s[i]);
        lemma_month_val_seen(s.drop_last(), i);
    }
}

/// Scans one device's time-ordered events and returns its monthly maxima,
/// one entry per distinct qualifying month, and its yearly maximum.
pub fn segment_device(events: &Vec<RideEvent>, filter: Option<CalendarMonth>) -> (r: (
    Vec<MonthlyRange>,
    u64,
))
    requires
        sum_dist(events@) <= u64::MAX,
    ensures
        months_unique(r.0@),
        represents(r.0@, device_monthly(events@, filter)),
        r.1 == device_yearly(events@, filter),
{
    let ghost full = events@;
    let mut out: Vec<MonthlyRange> = Vec::new();
    let mut curr: u64 = 0;
    let mut curr_yearly: u64 = 0;
    let mut max_month: u64 = 0;
    let mut max_yearly: u64 = 0;
    let mut in_trip: bool = false;
    let mut current_month: Option<CalendarMonth> = None;
    let mut i: usize = 0;
    while i < events.len()
        invariant
            0 <= i <= events.len(),
            full == events@,
            sum_dist(full) <= u64::MAX,
            months_unique(out@),
            ({
                let st = scan(full.take(i as int), filter);
                &&& st.in_trip == in_trip
                &&& st.curr == curr as int
                &&& st.curr_yearly == curr_yearly as int
                &&& st.max_month == max_month as int
                &&& st.max_yearly == max_yearly as int
                &&& st.month == current_month
                &&& represents(out@, st.monthly)
            }),
        decreases events.len() - i,
    {
        let ghost st = scan(full.take(i as int), filter);
        proof {
            assert(full.take(i + 1).drop_last() =~= full.take(i as int));
            assert(full.take(i + 1).last() == full[i as int]);
            lemma_sum_dist_prefix(full, i as int);
            lemma_sum_dist_prefix(full, i + 1);
            lemma_scan_bounded(full.take(i as int), filter);
            assert(sum_dist(full.take(i + 1)) == sum_dist(full.take(i as int))
                + full[i as int].distance);
        }
        let ev = events[i];
        if ev.passes_filter(filter) {
            // Month-boundary flush.
            match current_month {
                None => {
                    current_month = Some(ev.month);
                },
                Some(cur) => {
                    if !(ev.month == cur) {
                        let closing = if in_trip && curr > max_month {
                            curr
                        } else {
                            max_month
                        };
                        upsert_month(&mut out, cur, closing);
                        curr = 0;
                        max_month = 0;
                        current_month = Some(ev.month);
                    }
                },
            }
            proof {
                let stb = enter_month(st, full[i as int].month);
                assert(stb.in_trip == in_trip && stb.curr == curr as int && stb.max_month
                    == max_month as int && stb.month == current_month);
                assert(represents(out@, stb.monthly));
            }
            // Event-kind handling.
            match ev.kind {
                RideKind::Charging => {
                    if in_trip {
                        if curr > max_month {
                            max_month = curr;
                        }
                        if curr_yearly > max_yearly {
                            max_yearly = curr_yearly;
                        }
                        curr = 0;
                        curr_yearly = 0;
                    }
                    in_trip = false;
                },
                RideKind::Trip => {
                    in_trip = true;
                    proof {
                        lemma_scan_bounded(full.take(i + 1), filter);
                    }
                    curr = curr + ev.distance;
                    curr_yearly = curr_yearly + ev.distance;
                },
                RideKind::Other => {},
            }
        }
        i = i + 1;
    }
    proof {
        assert(full.take(events@.len() as int) =~= full);
    }
    // End-of-stream flush.
    if in_trip && curr > max_month {
        max_month = curr;
    }
    if in_trip && curr_yearly > max_yearly {
        max_yearly = curr_yearly;
    }
    match current_month {
        None => {},
        Some(cur) => {
            upsert_month(&mut out, cur, max_month);
        },
    }
    (out, max_yearly)
}

impl RideEvent {
    /// Whether this event survives the year gate and the month filter.
    pub fn passes_filter(&self, filter: Option<CalendarMonth>) -> (r: bool)
        ensures
            r == self.month.passes(filter),
    {
        if !self.month.in_tracked_years() {
            return false;
        }
        match filter {
            None => true,
            Some(f) => self.month == f,
        }
    }
}


/// The distance one event contributes to a trip segment.
pub open spec fn trip_dist(ev: RideEvent) -> int {
    if ev.kind is Trip {
        ev.distance as int
    } else {
        0
    }
}

/// The contiguous distance of the events from `i` through `j`.
pub open spec fn trip_sum(events: Seq<RideEvent>, i: int, j: int) -> int
    decreases j - i + 1,
{
    if i > j {
        0
    } else {
        trip_sum(events, i, j - 1) + trip_dist(events[j])
    }
}

proof fn lemma_trip_sum_nonneg(events: Seq<RideEvent>, i: int, j: int)
    ensures
        trip_sum(events, i, j) >= 0,
    decreases j - i + 1,
{
    if i <= j {
        lemma_trip_sum_nonneg(events, i, j - 1);
    }
}

/// The events from `i` through `j` form one charging-free run wholly inside
/// one month, every event of it visible under the year gate and the month
/// filter: a trip segment (with its transparent events) wholly contained in
/// that month.
pub open spec fn month_run(
    events: Seq<RideEvent>,
    filter: Option<CalendarMonth>,
    i: int,
    j: int,
) -> bool {
    &&& 0 <= i <= j < events.len()
    &&& forall|k: int| i <= k <= j ==> (#[trigger] events[k]).month == events[i].month
    &&& forall|k: int| i <= k <= j ==> (#[trigger] events[k]).month.passes(filter)
    &&& forall|k: int| i <= k <= j ==> (#[trigger] events[k]).kind != RideKind::Charging
}

/// No later visible event up to position `n` has closed the run ending at
/// `j`: every event still visible under the year gate and the month filter
/// stays in month `m` and is not a charging event.
spec fn open_after(
    events: Seq<RideEvent>,
    filter: Option<CalendarMonth>,
    m: CalendarMonth,
    j: int,
    n: int,
) -> bool {
    forall|k: int|
        j < k < n ==> ((#[trigger] events[k]).month.passes(filter) ==> events[k].month == m
            && events[k].kind != RideKind::Charging)
}

/// What the scan guarantees for one run after `n` events: while the run is
/// open its distance sits in the running accumulator; once closed, in the
/// month maximum or in the flushed aggregate.
spec fn run_claim(
    events: Seq<RideEvent>,
    filter: Option<CalendarMonth>,
    i: int,
    j: int,
    n: int,
) -> bool {
    let st = scan(events.take(n), filter);
    let m = events[i].month;
    let s = trip_sum(events, i, j);
    if open_after(events, filter, m, j, n) {
        st.month == Some(m) && s <= st.curr && (s > 0 ==> st.in_trip)
    } else {
        (st.month == Some(m) && s <= st.max_month) || (st.monthly.dom().contains(m) && s
            <= st.monthly[m])
    }
}

proof fn lemma_run(events: Seq<RideEvent>, filter: Option<CalendarMonth>, i: int, j: int, n: int)
    requires
        month_run(events, filter, i, j),
        j < n <= events.len(),
    ensures
        run_claim(events, filter, i, j, n),
    decreases n,
{
    let m = events[i].month;
    let s = trip_sum(events, i, j);
    let stp = scan(events.take(n - 1), filter);
    let st = scan(events.take(n), filter);
    let e = events[n - 1];
    assert(events.take(n).drop_last() =~= events.take(n - 1));
    assert(events.take(n).last() == e);
    lemma_scan_bounded(events.take(n - 1), filter);
    lemma_trip_sum_nonneg(events, i, j);
    lemma_trip_sum_nonneg(events, i, j - 1);
    if n == j + 1 {
        assert(e == events[j]);
        assert(open_after(events, filter, m, j, n));
        if i == j {
            assert(trip_sum(events, i, j) == trip_dist(events[j]));
        } else {
            lemma_run(events, filter, i, j - 1, n - 1);
            assert(open_after(events, filter, m, j - 1, n - 1));
            assert(trip_sum(events, i, j) == trip_sum(events, i, j - 1) + trip_dist(events[j]));
        }
    } else {
        lemma_run(events, filter, i, j, n - 1);
        if open_after(events, filter, m, j, n - 1) {
            if !e.month.passes(filter) {
                assert forall|k: int|
                    j < k < n implies ((#[trigger] events[k]).month.passes(filter)
                    ==> events[k].month == m && events[k].kind != RideKind::Charging) by {
                    if k < n - 1 {
                        assert(open_after(events, filter, m, j, n - 1));
                    }
                };
                assert(open_after(events, filter, m, j, n));
            } else if e.month == m && e.kind != RideKind::Charging {
                assert forall|k: int|
                    j < k < n implies ((#[trigger] events[k]).month.passes(filter)
                    ==> events[k].month == m && events[k].kind != RideKind::Charging) by {
                    if k < n - 1 {
                        assert(open_after(events, filter, m, j, n - 1));
                    }
                };
                assert(open_after(events, filter, m, j, n));
            } else {
                // The event closes the run: charging in the same month folds
                // it into the month maximum, a month change flushes it into
                // the aggregate map.
                if open_after(events, filter, m, j, n) {
                    assert((#[trigger] events[n - 1]).month.passes(filter) ==> events[n - 1].month
                        == m && events[n - 1].kind != RideKind::Charging);
                    assert(false);
                }
                assert(run_claim(events, filter, i, j, n));
            }
        } else {
            if open_after(events, filter, m, j, n) {
                assert forall|k: int|
                    j < k < n - 1 implies ((#[trigger] events[k]).month.passes(filter)
                    ==> events[k].month == m && events[k].kind != RideKind::Charging) by {
                    assert(open_after(events, filter, m, j, n));
                };
                assert(false);
            }
            if stp.month == Some(m) && s <= stp.max_month {
                assert(run_claim(events, filter, i, j, n));
            } else {
                assert(stp.monthly.dom().contains(m) && s <= stp.monthly[m]);
                assert(run_claim(events, filter, i, j, n));
            }
        }
    }
}

/// No trip segment wholly contained in one month is ever lost: the monthly
/// maximum for that month is at least the segment's contiguous distance.
pub proof fn lemma_segment_not_lost(
    events: Seq<RideEvent>,
    filter: Option<CalendarMonth>,
    i: int,
    j: int,
)
    requires
        month_run(events, filter, i, j),
    ensures
        device_monthly(events, filter).dom().contains(events[i].month),
        trip_sum(events, i, j) <= device_monthly(events, filter)[events[i].month],
{
    lemma_run(events, filter, i, j, events.len() as int);
    assert(events.take(events.len() as int) =~= events);
    lemma_scan_bounded(events, filter);
    lemma_trip_sum_nonneg(events, i, j);
}

/// Events outside the tracked years, removed.
pub open spec fn drop_unqualified(events: Seq<RideEvent>) -> Seq<RideEvent>
    decreases events.len(),
{
    if events.len() == 0 {
        Seq::empty()
    } else if events.last().month.qualifies() {
        drop_unqualified(events.drop_last()).push(events.last())
    } else {
        drop_unqualified(events.drop_last())
    }
}

proof fn lemma_scan_gate(events: Seq<RideEvent>, filter: Option<CalendarMonth>)
    ensures
        scan(drop_unqualified(events), filter) == scan(events, filter),
    decreases events.len(),
{
    if events.len() > 0 {
        lemma_scan_gate(events.drop_last(), filter);
        let e = events.last();
        if e.month.qualifies() {
            let dq = drop_unqualified(events);
            assert(dq.drop_last() =~= drop_unqualified(events.drop_last()));
            assert(dq.last() == e);
        }
    }
}

/// The year gate: events outside the tracked years never affect any output.
pub proof fn lemma_year_gate(events: Seq<RideEvent>, filter: Option<CalendarMonth>)
    ensures
        device_monthly(drop_unqualified(events), filter) == device_monthly(events, filter),
        device_yearly(drop_unqualified(events), filter) == device_yearly(events, filter),
{
    lemma_scan_gate(events, filter);
}

proof fn lemma_scan_filter_month(events: Seq<RideEvent>, m: CalendarMonth)
    ensures
        scan(events, Some(m)).month is Some ==> scan(events, Some(m)).month->0 == m,
        forall|m2: CalendarMonth|
            #[trigger] scan(events, Some(m)).monthly.dom().contains(m2) ==> m2 == m,
    decreases events.len(),
{
    if events.len() > 0 {
        lemma_scan_filter_month(events.drop_last(), m);
    }
}

/// The month filter: with a filter supplied, no month but the filtered one
/// can appear among the monthly aggregates.
pub proof fn lemma_month_filter(events: Seq<RideEvent>, m: CalendarMonth)
    ensures
        forall|m2: CalendarMonth|
            #[trigger] device_monthly(events, Some(m)).dom().contains(m2) ==> m2 == m,
{
    lemma_scan_filter_month(events, m);
}


proof fn lemma_sum_dist_len_bound(events: Seq<RideEvent>)
    ensures
        sum_dist(events) <= events.len() * 0xffff_ffff_ffff_ffff,
    decreases events.len(),
{
    if events.len() > 0 {
        lemma_sum_dist_len_bound(events.drop_last());
        assert((events.len() - 1) * 0xffff_ffff_ffff_ffff + 0xffff_ffff_ffff_ffff == events.len()
            * 0xffff_ffff_ffff_ffff) by (nonlinear_arith);
    }
}

/// Whether the distances of a batch can be accumulated without leaving the
/// value range; the scan requires it, and a caller checks it here first.
pub fn total_distance_fits(events: &Vec<RideEvent>) -> (r: bool)
    ensures
        r == (sum_dist(events@) <= u64::MAX),
{
    let mut acc: u128 = 0;
    let mut i: usize = 0;
    while i < events.len()
        invariant
            0 <= i <= events.len(),
            acc == sum_dist(events@.take(i as int)),
            acc <= (i as int) * 0xffff_ffff_ffff_ffff,
        decreases events.len() - i,
    {
        proof {
            assert(events@.take(i + 1).drop_last() =~= events@.take(i as int));
            assert(events@.take(i + 1).last() == events@[i as int]);
            assert((i as int) * 0xffff_ffff_ffff_ffff + 0xffff_ffff_ffff_ffff == (i + 1)
                * 0xffff_ffff_ffff_ffff) by (nonlinear_arith);
            assert((i + 1) * 0xffff_ffff_ffff_ffff <= 0x1_0000_0000_0000_0000
                * 0xffff_ffff_ffff_ffff) by (nonlinear_arith)
                requires i + 1 <= 0x1_0000_0000_0000_0000;
        }
        acc = acc + events[i].distance as u128;
        i = i + 1;
    }
    proof {
        assert(events@.take(events@.len() as int) =~= events@);
    }
    acc <= u64::MAX as u128
}


} // verus!
