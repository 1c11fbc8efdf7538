use vstd::prelude::*;
use crate::CalendarMonth;
use crate::event::RideEvent;
use crate::segment::{
    device_monthly, device_yearly, max_of, month_val, months_unique, represents, segment_device,
    sum_dist,
};

verus! {

/// Compares two byte strings.
pub fn bytes_eq(a: &[u8], b: &[u8]) -> (r: bool)
    ensures
        r == (a@ == b@),
{
    if a.len() != b.len() {
        proof {
            if a@ == b@ {
                assert(a@.len() == b@.len());
            }
        }
        return false;
    }
    let mut i: usize = 0;
    while i < a.len()
        invariant
            0 <= i <= a.len(),
            a.len() == b.len(),
            forall|k: int| 0 <= k < i ==> a@[k] == b@[k],
        decreases a.len() - i,
    {
        if a[i] != b[i] {
            proof {
                if a@ == b@ {
                    assert(a@[i as int] == b@[i as int]);
                }
            }
            return false;
        }
        i = i + 1;
    }
    proof {
        assert(a@ =~= b@);
    }
    true
}

/// One persisted monthly aggregate: the largest contiguous distance one
/// device reached inside one month.
#[derive(Clone, Debug)]
pub struct MonthlyEntry {
    pub device: Vec<u8>,
    pub month: CalendarMonth,
    pub max_distance: u64,
}

/// One device's yearly aggregate: the largest contiguous distance it
/// reached anywhere inside the tracked years.
#[derive(Clone, Debug)]
pub struct YearlyEntry {
    pub device: Vec<u8>,
    pub max_distance: u64,
}

/// The value a list of monthly entries holds for a `(device, month)` key.
pub open spec fn monthly_val(s: Seq<MonthlyEntry>, dev: Seq<u8>, m: CalendarMonth) -> Option<int>
    decreases s.len(),
{
    if s.len() == 0 {
        None
    } else if s.last().device@ == dev && s.last().month == m {
        Some(s.last().max_distance as int)
    } else {
        monthly_val(s.drop_last(), dev, m)
    }
}

/// The value a list of yearly entries holds for a device.
pub open spec fn yearly_val(s: Seq<YearlyEntry>, dev: Seq<u8>) -> Option<int>
    decreases s.len(),
{
    if s.len() == 0 {
        None
    } else if s.last().device@ == dev {
        Some(s.last().max_distance as int)
    } else {
        yearly_val(s.drop_last(), dev)
    }
}

pub open spec fn monthly_keys_unique(s: Seq<MonthlyEntry>) -> bool {
    forall|i: int, j: int|
        0 <= i < j < s.len() ==> !(#[trigger] s[i].device@ == #[trigger] s[j].device@ && s[i].month
            == s[j].month)
}

pub open spec fn yearly_keys_unique(s: Seq<YearlyEntry>) -> bool {
    forall|i: int, j: int| 0 <= i < j < s.len() ==> #[trigger] s[i].device@ != #[trigger] s[j].device@
}

/// The map a list of monthly entries represents.
pub open spec fn monthly_map(s: Seq<MonthlyEntry>) -> Map<(Seq<u8>, CalendarMonth), int> {
    Map::new(
        |k: (Seq<u8>, CalendarMonth)| monthly_val(s, k.0, k.1) is Some,
        |k: (Seq<u8>, CalendarMonth)| monthly_val(s, k.0, k.1).unwrap(),
    )
}

/// The map a list of yearly entries represents.
pub open spec fn yearly_map(s: Seq<YearlyEntry>) -> Map<Seq<u8>, int> {
    Map::new(|k: Seq<u8>| yearly_val(s, k) is Some, |k: Seq<u8>| yearly_val(s, k).unwrap())
}

/// A stored value, counting an absent key as zero.
pub open spec fn key_or_zero<K>(m: Map<K, int>, k: K) -> int {
    if m.dom().contains(k) {
        m[k]
    } else {
        0
    }
}

/// The store's sole mutation: set the key to the larger of the stored value
/// (zero when absent) and the candidate.
pub open spec fn key_upsert<K>(m: Map<K, int>, k: K, v: int) -> Map<K, int> {
    m.insert(k, max_of(key_or_zero(m, k), v))
}

/// Merging the same value twice leaves the same store as merging it once.
pub proof fn lemma_upsert_idempotent<K>(m: Map<K, int>, k: K, v: int)
    ensures
        key_upsert(key_upsert(m, k, v), k, v) == key_upsert(m, k, v),
{
    assert(key_upsert(key_upsert(m, k, v), k, v) =~= key_upsert(m, k, v));
}

/// Merging two values at one key keeps the larger, in either call order.
pub proof fn lemma_upsert_monotonic<K>(m: Map<K, int>, k: K, a: int, b: int)
    ensures
        key_upsert(key_upsert(m, k, a), k, b) == key_upsert(key_upsert(m, k, b), k, a),
        key_upsert(key_upsert(m, k, a), k, b)[k] == max_of(key_or_zero(m, k), max_of(a, b)),
{
    assert(key_upsert(key_upsert(m, k, a), k, b) =~= key_upsert(key_upsert(m, k, b), k, a));
}

/// The in-memory aggregate store of one invocation: the monthly maxima of
/// every processed device, and their yearly maxima, max-merged on key
/// collision.
#[derive(Debug)]
pub struct AggregateStore {
    pub monthly: Vec<MonthlyEntry>,
    pub yearly: Vec<YearlyEntry>,
}

impl AggregateStore {
    /// Each key appears at most once.
    pub open spec fn wf(self) -> bool {
        monthly_keys_unique(self.monthly@) && yearly_keys_unique(self.yearly@)
    }

    pub open spec fn monthly_view(self) -> Map<(Seq<u8>, CalendarMonth), int> {
        monthly_map(self.monthly@)
    }

    pub open spec fn yearly_view(self) -> Map<Seq<u8>, int> {
        yearly_map(self.yearly@)
    }

    pub fn new() -> (r: AggregateStore)
        ensures
            r.wf(),
            r.monthly_view() == Map::<(Seq<u8>, CalendarMonth), int>::empty(),
            r.yearly_view() == Map::<Seq<u8>, int>::empty(),
            r.monthly@.len() == 0,
            r.yearly@.len() == 0,
    {
        let r = AggregateStore { monthly: Vec::new(), yearly: Vec::new() };
        proof {
            assert(r.monthly_view() =~= Map::<(Seq<u8>, CalendarMonth), int>::empty());
            assert(r.yearly_view() =~= Map::<Seq<u8>, int>::empty());
        }
        r
    }

    /// Max-merges one monthly aggregate into the store.
    pub fn upsert_monthly(&mut self, device: &Vec<u8>, month: CalendarMonth, v: u64)
        requires
            old(self).wf(),
        ensures
            final(self).wf(),
            final(self).monthly_view() == key_upsert(
                old(self).monthly_view(),
                (device@, month),
                v as int,
            ),
            final(self).yearly@ == old(self).yearly@,
    {
        let n = self.monthly.len();
        let mut i: usize = 0;
        while i < n
            invariant
                0 <= i <= n,
                n == self.monthly.len(),
                *self == *old(self),
                old(self).wf(),
                forall|j: int|
                    0 <= j < i ==> !(#[trigger] self.monthly@[j].device@ == device@
                        && self.monthly@[j].month == month),
            decreases n - i,
        {
            let hit = {
                let e = &self.monthly[i];
                bytes_eq(e.device.as_slice(), device.as_slice()) && e.month == month
            };
            if hit {
                let existing = self.monthly[i].max_distance;
                let merged = if existing >= v {
                    existing
                } else {
                    v
                };
                let entry = MonthlyEntry { device: device.clone(), month, max_distance: merged };
                let ghost ge = entry;
                proof {
                    lemma_monthly_val_seen(self.monthly@, i as int, device@, month);
                }
                self.monthly.set(i, entry);
                proof {
                    assert forall|d2: Seq<u8>, m2: CalendarMonth|
                        #[trigger] monthly_val(self.monthly@, d2, m2) == if d2 == device@ && m2
                            == month {
                            Some(max_of(key_or_zero(old(self).monthly_view(), (device@, month)), v as int))
                        } else {
                            monthly_val(old(self).monthly@, d2, m2)
                        } by {
                        lemma_monthly_val_update(old(self).monthly@, i as int, ge, d2, m2);
                    };
                    assert(monthly_keys_unique(self.monthly@));
                    assert((*self).monthly_view() =~= key_upsert(
                        old(self).monthly_view(),
                        (device@, month),
                        v as int,
                    ));
                }
                return ;
            }
            i = i + 1;
        }
        let entry = MonthlyEntry { device: device.clone(), month, max_distance: v };
        self.monthly.push(entry);
        proof {
            assert(self.monthly@.drop_last() =~= old(self).monthly@);
            assert forall|d2: Seq<u8>, m2: CalendarMonth|
                #[trigger] monthly_val(self.monthly@, d2, m2) == if d2 == device@ && m2 == month {
                    Some(v as int)
                } else {
                    monthly_val(old(self).monthly@, d2, m2)
                } by {};
            lemma_monthly_val_absent(old(self).monthly@, device@, month);
            assert(monthly_val(old(self).monthly@, device@, month) is None);
            assert(key_or_zero(old(self).monthly_view(), (device@, month)) == 0);
            assert(monthly_val(self.monthly@, device@, month) == Some(v as int));
            assert(monthly_keys_unique(self.monthly@)) by {
                assert forall|i2: int, j2: int| 0 <= i2 < j2 < self.monthly@.len() implies !(
                #[trigger] self.monthly@[i2].device@ == #[trigger] self.monthly@[j2].device@
                    && self.monthly@[i2].month == self.monthly@[j2].month) by {
                    if j2 == self.monthly@.len() - 1 {
                        assert(self.monthly@[i2] == old(self).monthly@[i2]);
                    }
                };
            };
            assert((*self).monthly_view() =~= key_upsert(
                old(self).monthly_view(),
                (device@, month),
                v as int,
            ));
        }
    }

    /// Max-merges one yearly aggregate into the store.
    pub fn upsert_yearly(&mut self, device: &Vec<u8>, v: u64)
        requires
            old(self).wf(),
        ensures
            final(self).wf(),
            final(self).yearly_view() == key_upsert(old(self).yearly_view(), device@, v as int),
            final(self).monthly@ == old(self).monthly@,
    {
        let n = self.yearly.len();
        let mut i: usize = 0;
        while i < n
            invariant
                0 <= i <= n,
                n == self.yearly.len(),
                *self == *old(self),
                old(self).wf(),
                forall|j: int| 0 <= j < i ==> #[trigger] self.yearly@[j].device@ != device@,
            decreases n - i,
        {
            if bytes_eq(self.yearly[i].device.as_slice(), device.as_slice()) {
                let existing = self.yearly[i].max_distance;
                let merged = if existing >= v {
                    existing
                } else {
                    v
                };
                let entry = YearlyEntry { device: device.clone(), max_distance: merged };
                let ghost ge = entry;
                proof {
                    lemma_yearly_val_seen(self.yearly@, i as int, device@);
                }
                self.yearly.set(i, entry);
                proof {
                    assert forall|d2: Seq<u8>|
                        #[trigger] yearly_val(self.yearly@, d2) == if d2 == device@ {
                            Some(max_of(key_or_zero(old(self).yearly_view(), device@), v as int))
                        } else {
                            yearly_val(old(self).yearly@, d2)
                        } by {
                        lemma_yearly_val_update(old(self).yearly@, i as int, ge, d2);
                    };
                    assert(yearly_keys_unique(self.yearly@));
                    assert((*self).yearly_view() =~= key_upsert(
                        old(self).yearly_view(),
                        device@,
                        v as int,
                    ));
                }
                return ;
            }
            i = i + 1;
        }
        let entry = YearlyEntry { device: device.clone(), max_distance: v };
        self.yearly.push(entry);
        proof {
            assert(self.yearly@.drop_last() =~= old(self).yearly@);
            lemma_yearly_val_absent(old(self).yearly@, device@);
            assert(yearly_keys_unique(self.yearly@)) by {
                assert forall|i2: int, j2: int| 0 <= i2 < j2 < self.yearly@.len() implies #[trigger] self.yearly@[i2].device@ != #[trigger] self.yearly@[j2].device@ by {
                    if j2 == self.yearly@.len() - 1 {
                        assert(self.yearly@[i2] == old(self).yearly@[i2]);
                    }
                };
            };
            assert((*self).yearly_view() =~= key_upsert(
                old(self).yearly_view(),
                device@,
                v as int,
            ));
        }
    }
}

/// Max-merging every monthly maximum of one device into the store's map.
pub open spec fn merge_device(
    m: Map<(Seq<u8>, CalendarMonth), int>,
    dev: Seq<u8>,
    dm: Map<CalendarMonth, int>,
) -> Map<(Seq<u8>, CalendarMonth), int> {
    Map::new(
        |k: (Seq<u8>, CalendarMonth)| m.dom().contains(k) || (k.0 == dev && dm.dom().contains(k.1)),
        |k: (Seq<u8>, CalendarMonth)|
            if k.0 == dev && dm.dom().contains(k.1) {
                max_of(key_or_zero(m, k), dm[k.1])
            } else {
                m[k]
            },
    )
}

/// The store after the first `n` aggregates of one device were merged.
spec fn merge_device_part(
    m: Map<(Seq<u8>, CalendarMonth), int>,
    dev: Seq<u8>,
    dm: Map<CalendarMonth, int>,
    entries: Seq<crate::segment::MonthlyRange>,
    n: int,
) -> Map<(Seq<u8>, CalendarMonth), int> {
    Map::new(
        |k: (Seq<u8>, CalendarMonth)|
            m.dom().contains(k) || (k.0 == dev && month_val(entries.take(n), k.1) is Some),
        |k: (Seq<u8>, CalendarMonth)|
            if k.0 == dev && month_val(entries.take(n), k.1) is Some {
                max_of(key_or_zero(m, k), dm[k.1])
            } else {
                m[k]
            },
    )
}

/// Scans one device's events and max-merges its monthly and yearly maxima
/// into the store, as the driver does for each configured device in turn.
pub fn process_device(
    store: &mut AggregateStore,
    device: &Vec<u8>,
    events: &Vec<RideEvent>,
    filter: Option<CalendarMonth>,
)
    requires
        old(store).wf(),
        sum_dist(events@) <= u64::MAX,
    ensures
        final(store).wf(),
        final(store).monthly_view() == merge_device(
            old(store).monthly_view(),
            device@,
            device_monthly(events@, filter),
        ),
        final(store).yearly_view() == key_upsert(
            old(store).yearly_view(),
            device@,
            device_yearly(events@, filter),
        ),
{
    let ghost dm = device_monthly(events@, filter);
    let ghost m0 = old(store).monthly_view();
    let (entries, yearly) = segment_device(events, filter);
    let mut i: usize = 0;
    proof {
        assert(entries@.take(0) =~= Seq::<crate::segment::MonthlyRange>::empty());
        assert((*store).monthly_view() =~= merge_device_part(m0, device@, dm, entries@, 0));
    }
    while i < entries.len()
        invariant
            0 <= i <= entries.len(),
            (*store).wf(),
            months_unique(entries@),
            represents(entries@, dm),
            (*store).yearly@ == old(store).yearly@,
            (*store).monthly_view() == merge_device_part(m0, device@, dm, entries@, i as int),
        decreases entries.len() - i,
    {
        let e = &entries[i];
        proof {
            crate::segment::lemma_month_val_seen(entries@, i as int);
        }
        store.upsert_monthly(device, e.month, e.max_distance);
        proof {
            let part = merge_device_part(m0, device@, dm, entries@, i as int);
            let mi = entries@[i as int].month;
            let vi = entries@[i as int].max_distance as int;
            assert(dm.dom().contains(mi) && dm[mi] == vi);
            assert(entries@.take(i + 1).drop_last() =~= entries@.take(i as int));
            assert(entries@.take(i + 1).last() == entries@[i as int]);
            assert(month_val(entries@.take(i as int), mi) is None) by {
                assert(forall|j: int|
                    0 <= j < i ==> (#[trigger] entries@.take(i as int)[j]).month != mi);
                crate::segment::lemma_month_val_not_present(entries@.take(i as int), mi);
            };
            assert(!part.dom().contains((device@, mi)) || part[(device@, mi)] == key_or_zero(
                m0,
                (device@, mi),
            ));
            assert forall|m2: CalendarMonth| m2 != mi implies month_val(
                entries@.take(i + 1),
                m2,
            ) == month_val(entries@.take(i as int), m2) by {};
            assert((*store).monthly_view() =~= merge_device_part(
                m0,
                device@,
                dm,
                entries@,
                i + 1,
            ));
        }
        i = i + 1;
    }
    proof {
        assert(entries@.take(entries@.len() as int) =~= entries@);
        assert(merge_device_part(m0, device@, dm, entries@, entries@.len() as int) =~= merge_device(
            m0,
            device@,
            dm,
        ));
    }
    store.upsert_yearly(device, yearly);
}

/// One entry of the invocation's response: the device, its `"YYYY-MM"`
/// month key, and the monthly maximum.
#[derive(Clone, Debug)]
pub struct ResponseEntry {
    pub imei: Vec<u8>,
    pub ride_month: Vec<u8>,
    pub total_range: u64,
}

/// Renders every monthly aggregate for the response and the persistence
/// batch.  Nothing is rendered when some month cannot carry a four-digit
/// year key; no month that passed the year gate can fail that.
pub fn build_response(store: &AggregateStore) -> (r: Option<Vec<ResponseEntry>>)
    ensures
        r is Some <==> (forall|i: int|
            0 <= i < store.monthly@.len() ==> (#[trigger] store.monthly@[i]).month.year <= 9999
                && store.monthly@[i].month.month <= 99),
        r is Some ==> r->0@.len() == store.monthly@.len() && (forall|i: int|
            0 <= i < store.monthly@.len() ==> {
                &&& (#[trigger] r->0@[i]).imei@ == store.monthly@[i].device@
                &&& r->0@[i].ride_month@ == crate::month_bytes(store.monthly@[i].month)
                &&& r->0@[i].total_range == store.monthly@[i].max_distance
            }),
{
    let mut out: Vec<ResponseEntry> = Vec::new();
    let mut i: usize = 0;
    while i < store.monthly.len()
        invariant
            0 <= i <= store.monthly@.len(),
            out@.len() == i,
            forall|j: int|
                0 <= j < i ==> (#[trigger] store.monthly@[j]).month.year <= 9999
                    && store.monthly@[j].month.month <= 99,
            forall|j: int|
                0 <= j < i ==> {
                    &&& (#[trigger] out@[j]).imei@ == store.monthly@[j].device@
                    &&& out@[j].ride_month@ == crate::month_bytes(store.monthly@[j].month)
                    &&& out@[j].total_range == store.monthly@[j].max_distance
                },
        decreases store.monthly@.len() - i,
    {
        let e = &store.monthly[i];
        if !(e.month.year <= 9999 && e.month.month <= 99) {
            return None;
        }
        let ride_month = crate::format_month(&e.month);
        let entry = ResponseEntry {
            imei: e.device.clone(),
            ride_month,
            total_range: e.max_distance,
        };
        out.push(entry);
        i = i + 1;
    }
    Some(out)
}

proof fn lemma_monthly_val_seen(s: Seq<MonthlyEntry>, i: int, dev: Seq<u8>, m: CalendarMonth)
    requires
        0 <= i < s.len(),
        monthly_keys_unique(s),
        s[i].device@ == dev,
        s[i].month == m,
    ensures
        monthly_val(s, dev, m) == Some(s[i].max_distance as int),
    decreases s.len(),
{
    if i == s.len() - 1 {
    } else {
        assert(s.drop_last()[i] == s[i]);
        lemma_monthly_val_seen(s.drop_last(), i, dev, m);
    }
}

proof fn lemma_monthly_val_absent(s: Seq<MonthlyEntry>, dev: Seq<u8>, m: CalendarMonth)
    ensures
        (forall|i: int| 0 <= i < s.len() ==> !(#[trigger] s[i].device@ == dev && s[i].month == m))
            ==> monthly_val(s, dev, m) is None,
    decreases s.len(),
{
    if s.len() > 0 {
        lemma_monthly_val_absent(s.drop_last(), dev, m);
        assert(forall|i: int| 0 <= i < s.len() - 1 ==> s.drop_last()[i] == s[i]);
        assert(s[s.len() - 1] == s.last());
    }
}

proof fn lemma_monthly_val_update(
    s: Seq<MonthlyEntry>,
    i: int,
    e: MonthlyEntry,
    dev: Seq<u8>,
    m: CalendarMonth,
)
    requires
        0 <= i < s.len(),
        monthly_keys_unique(s),
        s[i].device@ == e.device@,
        s[i].month == e.month,
    ensures
        monthly_val(s.update(i, e), dev, m) == if e.device@ == dev && e.month == m {
            Some(e.max_distance as int)
        } else {
            monthly_val(s, dev, m)
        },
    decreases s.len(),
{
    let s2 = s.update(i, e);
    if i == s.len() - 1 {
        assert(s2.drop_last() =~= s.drop_last());
        assert(s2.last() == e);
        if !(e.device@ == dev && e.month == m) && s.last().device@ == dev && s.last().month == m {
            assert(s[i].device@ == s.last().device@ && s[i].month == s.last().month);
        }
    } else {
        assert(s2.drop_last() =~= s.drop_last().update(i, e));
        assert(s2.last() == s.last());
        assert(s.drop_last()[i] == s[i]);
        lemma_monthly_val_update(s.drop_last(), i, e, dev, m);
    }
}

proof fn lemma_yearly_val_seen(s: Seq<YearlyEntry>, i: int, dev: Seq<u8>)
    requires
        0 <= i < s.len(),
        yearly_keys_unique(s),
        s[i].device@ == dev,
    ensures
        yearly_val(s, dev) == Some(s[i].max_distance as int),
    decreases s.len(),
{
    if i == s.len() - 1 {
    } else {
        assert(s.drop_last()[i] == s[i]);
        lemma_yearly_val_seen(s.drop_last(), i, dev);
    }
}

proof fn lemma_yearly_val_absent(s: Seq<YearlyEntry>, dev: Seq<u8>)
    ensures
        (forall|i: int| 0 <= i < s.len() ==> #[trigger] s[i].device@ != dev) ==> yearly_val(s, dev)
            is None,
    decreases s.len(),
{
    if s.len() > 0 {
        lemma_yearly_val_absent(s.drop_last(), dev);
        assert(forall|i: int| 0 <= i < s.len() - 1 ==> s.drop_last()[i] == s[i]);
        assert(s[s.len() - 1] == s.last());
    }
}

proof fn lemma_yearly_val_update(s: Seq<YearlyEntry>, i: int, e: YearlyEntry, dev: Seq<u8>)
    requires
        0 <= i < s.len(),
        yearly_keys_unique(s),
        s[i].device@ == e.device@,
    ensures
        yearly_val(s.update(i, e), dev) == if e.device@ == dev {
            Some(e.max_distance as int)
        } else {
            yearly_val(s, dev)
        },
    decreases s.len(),
{
    let s2 = s.update(i, e);
    if i == s.len() - 1 {
        assert(s2.drop_last() =~= s.drop_last());
        assert(s2.last() == e);
        if e.device@ != dev && s.last().device@ == dev {
            assert(s[i].device@ == s.last().device@);
        }
    } else {
        assert(s2.drop_last() =~= s.drop_last().update(i, e));
        assert(s2.last() == s.last());
        assert(s.drop_last()[i] == s[i]);
        lemma_yearly_val_update(s.drop_last(), i, e, dev);
    }
}

} // verus!
