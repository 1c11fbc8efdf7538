use vstd::prelude::*;
use chrono::{Datelike, FixedOffset, TimeZone, Utc};
use crate::CalendarMonth;

verus! {

/// Largest epoch second the record reader accepts: the last second of the
/// year 9999, comfortably inside the range the calendar library represents.
pub const MAX_EPOCH_SECS: u64 = 253402300799;

/// What a stored record says the device was doing.
#[derive(Clone, Copy, PartialEq, Eq, Structural, Debug)]
pub enum RideKind {
    Trip,
    Charging,
    Other,
}

/// One event of a device's time-ordered log, already projected to the fields
/// the aggregation reads.  Distances are in integer distance units.
#[derive(Clone, Copy, PartialEq, Eq, Structural, Debug)]
pub struct RideEvent {
    pub kind: RideKind,
    pub month: CalendarMonth,
    pub distance: u64,
}

/// A stored record as the fetch boundary hands it over: the raw bytes of the
/// `ride_type`, `ride_start` and `ride_stats.ride_distance` attributes,
/// each absent when the record lacks it.
#[derive(Debug)]
pub struct RawRecord {
    pub ride_type: Option<Vec<u8>>,
    pub ride_start: Option<Vec<u8>>,
    pub ride_distance: Option<Vec<u8>>,
}

/// Why a stored record could not be read.  Any of these aborts the whole
/// scan; only an unreadable distance is forgiven (it counts as zero).
#[derive(Clone, Copy, PartialEq, Eq, Structural, Debug)]
pub enum RecordError {
    MissingRideType,
    MissingRideStart,
    BadRideStart,
    TimestampOutOfRange,
    MissingDistance,
}

pub open spec fn trip_name() -> Seq<u8> {
    seq![116u8, 114u8, 105u8, 112u8]
}

pub open spec fn charging_name() -> Seq<u8> {
    seq![99u8, 104u8, 97u8, 114u8, 103u8, 105u8, 110u8, 103u8]
}

/// The event kind a `ride_type` attribute denotes.
pub open spec fn kind_of(s: Seq<u8>) -> RideKind {
    if s == trip_name() {
        RideKind::Trip
    } else if s == charging_name() {
        RideKind::Charging
    } else {
        RideKind::Other
    }
}

/// Classifies a `ride_type` attribute.
pub fn classify_kind(s: &Vec<u8>) -> (r: RideKind)
    ensures
        r == kind_of(s@),
{
    if s.len() == 4 && s[0] == 116 && s[1] == 114 && s[2] == 105 && s[3] == 112 {
        proof {
            assert(s@ =~= trip_name());
        }
        RideKind::Trip
    } else if s.len() == 8 && s[0] == 99 && s[1] == 104 && s[2] == 97 && s[3] == 114
        && s[4] == 103 && s[5] == 105 && s[6] == 110 && s[7] == 103 {
        proof {
            assert(s@ =~= charging_name());
        }
        RideKind::Charging
    } else {
        proof {
            if s@ == trip_name() {
                assert(s@.len() == 4 && s@[0] == 116 && s@[1] == 114 && s@[2] == 105
                    && s@[3] == 112);
            }
            if s@ == charging_name() {
                assert(s@.len() == 8 && s@[0] == 99 && s@[1] == 104 && s@[2] == 97
                    && s@[3] == 114 && s@[4] == 103 && s@[5] == 105 && s@[6] == 110
                    && s@[7] == 103);
            }
        }
        RideKind::Other
    }
}

pub open spec fn all_ascii_digits(s: Seq<u8>) -> bool {
    forall|i: int| 0 <= i < s.len() ==> crate::is_ascii_digit(#[trigger] s[i])
}

/// The number a string of ASCII digits denotes.
pub open spec fn digits_value(s: Seq<u8>) -> int
    decreases s.len(),
{
    if s.len() == 0 {
        0
    } else {
        digits_value(s.drop_last()) * 10 + (s.last() - 48)
    }
}

/// The digits of a number, read after an optional leading `+` sign, exactly
/// as the standard unsigned parser accepts them.
pub open spec fn unsigned_body(s: Seq<u8>) -> Seq<u8> {
    if s.len() > 0 && s[0] == 43u8 {
        s.drop_first()
    } else {
        s
    }
}

/// What parsing a decimal unsigned number out of `s` gives: the value when
/// `s` is an optional `+` sign followed by one or more digits and the value
/// fits, nothing otherwise.
pub open spec fn parse_u64_spec(s: Seq<u8>) -> Option<u64> {
    let body = unsigned_body(s);
    if body.len() > 0 && all_ascii_digits(body) && digits_value(body) <= u64::MAX {
        Some(digits_value(body) as u64)
    } else {
        None
    }
}

/// A longer digit string never denotes a smaller number.
proof fn lemma_digits_value_prefix(s: Seq<u8>, n: int)
    requires
        0 <= n <= s.len(),
        all_ascii_digits(s),
    ensures
        digits_value(s.take(n)) <= digits_value(s),
        digits_value(s) >= 0,
    decreases s.len(),
{
    if s.len() == 0 {
        assert(s.take(n) =~= s);
    } else if n == s.len() {
        assert(s.take(n) =~= s);
        lemma_digits_value_prefix(s.drop_last(), s.len() - 1);
    } else {
        assert(s.drop_last().take(n) =~= s.take(n));
        lemma_digits_value_prefix(s.drop_last(), n);
        assert(digits_value(s) == digits_value(s.drop_last()) * 10 + (s.last() - 48));
        assert(digits_value(s.drop_last()) * 10 >= digits_value(s.drop_last())) by (nonlinear_arith)
            requires digits_value(s.drop_last()) >= 0;
    }
}

/// Parses a decimal unsigned number, as `str::parse::<u64>` reads it.
pub fn parse_u64(s: &[u8]) -> (r: Option<u64>)
    ensures
        r == parse_u64_spec(s@),
{
    let start: usize = if s.len() > 0 && s[0] == 43 { 1 } else { 0 };
    proof {
        assert(unsigned_body(s@) =~= s@.skip(start as int));
    }
    if s.len() == start {
        return None;
    }
    let ghost body = s@.skip(start as int);
    let mut acc: u64 = 0;
    let mut i: usize = start;
    while i < s.len()
        invariant
            start <= i <= s.len(),
            body == s@.skip(start as int),
            body == unsigned_body(s@),
            body.len() == s.len() - start,
            forall|k: int| 0 <= k < i - start ==> crate::is_ascii_digit(#[trigger] body[k]),
            acc == digits_value(body.take(i - start)),
        decreases s.len() - i,
    {
        let c = s[i];
        if c < 48 || c > 57 {
            proof {
                assert(body[i - start] == c);
            }
            return None;
        }
        let d: u64 = (c - 48) as u64;
        proof {
            assert(body.take(i - start + 1).drop_last() =~= body.take(i - start));
            assert(body.take(i - start + 1).last() == body[i - start]);
        }
        if acc > 1844674407370955161 || (acc == 1844674407370955161 && d > 5) {
            // The digits read so far already exceed the value range, and
            // further digits only grow the number.
            proof {
                let part = body.take(i - start + 1);
                assert(digits_value(part) == acc * 10 + d);
                assert(digits_value(part) > u64::MAX);
                if all_ascii_digits(body) {
                    lemma_digits_value_prefix(body, i - start + 1);
                }
            }
            return None;
        }
        acc = acc * 10 + (c - 48) as u64;
        i = i + 1;
    }
    proof {
        assert(body.take(s.len() - start) =~= body);
    }
    Some(acc)
}

/// The distance a `ride_distance` attribute denotes: a number that cannot be
/// read counts as zero, never as a failure.
pub open spec fn distance_of(s: Seq<u8>) -> u64 {
    match parse_u64_spec(s) {
        Some(v) => v,
        None => 0,
    }
}

/// Reads a `ride_distance` attribute, forgiving malformed values.
pub fn parse_distance(s: &[u8]) -> (r: u64)
    ensures
        r == distance_of(s@),
{
    match parse_u64(s) {
        Some(v) => v,
        None => 0,
    }
}

/// The civil year and month of an epoch second under the fixed +05:30
/// offset.  The calendar library computes it; the result depends on the
/// epoch second alone.
pub uninterp spec fn month_of_epoch(epoch_secs: u64) -> (u32, u32);

/// Relies on chrono: `Utc.timestamp_opt(secs, 0)` is documented to return a
/// single date-time for every in-range second (every second up to the end of
/// the year 9999 is far inside its range), `with_timezone` with
/// `FixedOffset::east_opt(19800)` shifts it to +05:30, and `Datelike::year`
/// and `Datelike::month` read the civil year and the civil month, the month
/// documented to lie in 1..=12.
#[verifier::external_body]
fn epoch_to_month(epoch_secs: u64) -> (r: CalendarMonth)
    requires
        epoch_secs <= MAX_EPOCH_SECS,
    ensures
        r.year == month_of_epoch(epoch_secs).0,
        r.month == month_of_epoch(epoch_secs).1,
        1 <= r.month <= 12,
{
    let utc = Utc.timestamp_opt(epoch_secs as i64, 0).single().expect("in-range timestamp");
    let offset = FixedOffset::east_opt(5 * 3600 + 1800).expect("in-range offset");
    let local = utc.with_timezone(&offset);
    CalendarMonth { year: local.year() as u32, month: local.month() }
}

/// The month an in-range record start time denotes.
pub open spec fn month_of(epoch_secs: u64) -> CalendarMonth {
    CalendarMonth { year: month_of_epoch(epoch_secs).0, month: month_of_epoch(epoch_secs).1 }
}

/// Exactly what reading one stored record gives: the event it denotes, or
/// the first defect met, checking the attributes in the order
/// `ride_type`, `ride_start`, then (for trips only) `ride_distance`.
pub open spec fn record_check(rec: RawRecord) -> Result<RideEvent, RecordError> {
    if rec.ride_type is None {
        Err(RecordError::MissingRideType)
    } else if rec.ride_start is None {
        Err(RecordError::MissingRideStart)
    } else if parse_u64_spec(rec.ride_start->0@) is None {
        Err(RecordError::BadRideStart)
    } else if parse_u64_spec(rec.ride_start->0@).unwrap() > MAX_EPOCH_SECS {
        Err(RecordError::TimestampOutOfRange)
    } else if kind_of(rec.ride_type->0@) is Trip && rec.ride_distance is None {
        Err(RecordError::MissingDistance)
    } else {
        Ok(RideEvent {
            kind: kind_of(rec.ride_type->0@),
            month: month_of(parse_u64_spec(rec.ride_start->0@).unwrap()),
            distance: if kind_of(rec.ride_type->0@) is Trip {
                distance_of(rec.ride_distance->0@)
            } else {
                0
            },
        })
    }
}

/// Turns one raw record into the event it denotes, or reports its defect.
pub fn convert_record(rec: &RawRecord) -> (r: Result<RideEvent, RecordError>)
    ensures
        r == record_check(*rec),
{
    let ride_type = match &rec.ride_type {
        Some(t) => t,
        None => {
            return Err(RecordError::MissingRideType);
        },
    };
    let ride_start = match &rec.ride_start {
        Some(t) => t,
        None => {
            return Err(RecordError::MissingRideStart);
        },
    };
    let epoch = match parse_u64(ride_start.as_slice()) {
        Some(v) => v,
        None => {
            return Err(RecordError::BadRideStart);
        },
    };
    if epoch > MAX_EPOCH_SECS {
        return Err(RecordError::TimestampOutOfRange);
    }
    let kind = classify_kind(ride_type);
    let distance: u64 = if matches!(kind, RideKind::Trip) {
        match &rec.ride_distance {
            Some(d) => parse_distance(d.as_slice()),
            None => {
                return Err(RecordError::MissingDistance);
            },
        }
    } else {
        0
    };
    let month = epoch_to_month(epoch);
    Ok(RideEvent { kind, month, distance })
}

/// What reading a whole batch of records gives: the events in order, or the
/// first defect met.
pub open spec fn records_check(recs: Seq<RawRecord>) -> Result<Seq<RideEvent>, RecordError>
    decreases recs.len(),
{
    if recs.len() == 0 {
        Ok(Seq::empty())
    } else {
        match records_check(recs.drop_last()) {
            Err(e) => Err(e),
            Ok(evs) => match record_check(recs.last()) {
                Err(e) => Err(e),
                Ok(ev) => Ok(evs.push(ev)),
            },
        }
    }
}

/// Turns a fetched batch of raw records into events, aborting at the first
/// unreadable record.
pub fn convert_records(recs: &Vec<RawRecord>) -> (r: Result<Vec<RideEvent>, RecordError>)
    ensures
        r is Ok ==> records_check(recs@) is Ok && r->Ok_0@ == records_check(recs@)->Ok_0,
        r is Err ==> records_check(recs@) is Err && r->Err_0 == records_check(recs@)->Err_0,
{
    let mut out: Vec<RideEvent> = Vec::new();
    let mut i: usize = 0;
    while i < recs.len()
        invariant
            0 <= i <= recs.len(),
            records_check(recs@.take(i as int)) is Ok,
            out@ == records_check(recs@.take(i as int))->Ok_0,
        decreases recs.len() - i,
    {
        proof {
            assert(recs@.take(i + 1).drop_last() =~= recs@.take(i as int));
            assert(recs@.take(i + 1).last() == recs@[i as int]);
        }
        match convert_record(&recs[i]) {
            Ok(ev) => {
                out.push(ev);
            },
            Err(e) => {
                proof {
                    lemma_records_check_err(recs@, i as int);
                }
                return Err(e);
            },
        }
        i = i + 1;
    }
    proof {
        assert(recs@.take(recs@.len() as int) =~= recs@);
    }
    Ok(out)
}

/// Once a record is defective, every longer batch that starts the same way
/// reports that defect.
proof fn lemma_records_check_err(recs: Seq<RawRecord>, i: int)
    requires
        0 <= i < recs.len(),
        records_check(recs.take(i)) is Ok,
        record_check(recs[i]) is Err,
    ensures
        records_check(recs) is Err,
        records_check(recs)->Err_0 == record_check(recs[i])->Err_0,
    decreases recs.len(),
{
    if recs.len() == i + 1 {
        assert(recs.take(i) =~= recs.drop_last());
        assert(recs.last() == recs[i]);
    } else {
        assert(recs.drop_last().take(i) =~= recs.take(i));
        lemma_records_check_err(recs.drop_last(), i);
    }
}

} // verus!
