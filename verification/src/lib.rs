use vstd::prelude::*;

pub mod devices;
pub mod event;
pub mod segment;
pub mod store;

verus! {

/// First calendar year whose events participate in aggregation.
pub const FIRST_TRACKED_YEAR: u32 = 2023;

/// Last calendar year whose events participate in aggregation.
pub const LAST_TRACKED_YEAR: u32 = 2024;

/// A calendar month, as seen under the fixed +05:30 offset the system uses.
#[derive(Clone, Copy, PartialEq, Eq, Structural, Debug)]
pub struct CalendarMonth {
    pub year: u32,
    pub month: u32,
}

impl CalendarMonth {
    /// Only events inside the tracked years take part in any aggregate.
    pub open spec fn qualifies(self) -> bool {
        FIRST_TRACKED_YEAR <= self.year <= LAST_TRACKED_YEAR
    }

    /// Whether an event in this month survives the year gate and the
    /// optional month filter.
    pub open spec fn passes(self, filter: Option<CalendarMonth>) -> bool {
        self.qualifies() && (filter is None || self == filter->0)
    }

    pub fn in_tracked_years(&self) -> (r: bool)
        ensures
            r == self.qualifies(),
    {
        FIRST_TRACKED_YEAR <= self.year && self.year <= LAST_TRACKED_YEAR
    }
}

pub open spec fn is_ascii_digit(c: u8) -> bool {
    48 <= c <= 57
}

/// The month a `"YYYY-MM"` filter string denotes.  Anything that is not four
/// digits, a dash and two digits maps to `(0, 0)`, a month no event under the
/// year gate can ever carry, so such a filter matches nothing.
pub open spec fn month_filter_of(s: Seq<u8>) -> CalendarMonth {
    if s.len() == 7 && is_ascii_digit(s[0]) && is_ascii_digit(s[1]) && is_ascii_digit(s[2])
        && is_ascii_digit(s[3]) && s[4] == 45u8 && is_ascii_digit(s[5]) && is_ascii_digit(s[6]) {
        CalendarMonth {
            year: ((s[0] - 48) * 1000 + (s[1] - 48) * 100 + (s[2] - 48) * 10 + (s[3] - 48)) as u32,
            month: ((s[5] - 48) * 10 + (s[6] - 48)) as u32,
        }
    } else {
        CalendarMonth { year: 0, month: 0 }
    }
}

/// Reads an optional `"YYYY-MM"` month filter.
pub fn parse_month_filter(s: &[u8]) -> (r: CalendarMonth)
    ensures
        r == month_filter_of(s@),
{
    if s.len() == 7 {
        let d0 = s[0];
        let d1 = s[1];
        let d2 = s[2];
        let d3 = s[3];
        let dash = s[4];
        let d5 = s[5];
        let d6 = s[6];
        if 48 <= d0 && d0 <= 57 && 48 <= d1 && d1 <= 57 && 48 <= d2 && d2 <= 57
            && 48 <= d3 && d3 <= 57 && dash == 45 && 48 <= d5 && d5 <= 57 && 48 <= d6 && d6 <= 57 {
            let year: u32 = (d0 - 48) as u32 * 1000 + (d1 - 48) as u32 * 100
                + (d2 - 48) as u32 * 10 + (d3 - 48) as u32;
            let month: u32 = (d5 - 48) as u32 * 10 + (d6 - 48) as u32;
            return CalendarMonth { year, month };
        }
    }
    CalendarMonth { year: 0, month: 0 }
}

/// The `"YYYY-MM"` rendering of a month, zero padded.
pub open spec fn month_bytes(m: CalendarMonth) -> Seq<u8> {
    seq![
        (48 + m.year / 1000) as u8,
        (48 + (m.year / 100) % 10) as u8,
        (48 + (m.year / 10) % 10) as u8,
        (48 + m.year % 10) as u8,
        45u8,
        (48 + m.month / 10) as u8,
        (48 + m.month % 10) as u8,
    ]
}

/// Renders a month as its `"YYYY-MM"` store key and response key.
pub fn format_month(m: &CalendarMonth) -> (r: Vec<u8>)
    requires
        m.year <= 9999,
        m.month <= 99,
    ensures
        r@ == month_bytes(*m),
{
    let mut r: Vec<u8> = Vec::new();
    r.push((48 + m.year / 1000) as u8);
    r.push((48 + (m.year / 100) % 10) as u8);
    r.push((48 + (m.year / 10) % 10) as u8);
    r.push((48 + m.year % 10) as u8);
    r.push(45u8);
    r.push((48 + m.month / 10) as u8);
    r.push((48 + m.month % 10) as u8);
    proof {
        assert(r@ =~= month_bytes(*m));
    }
    r
}

/// A month round-trips through its `"YYYY-MM"` rendering.
pub proof fn lemma_month_round_trip(m: CalendarMonth)
    requires
        m.year <= 9999,
        m.month <= 99,
    ensures
        month_filter_of(month_bytes(m)) == m,
{
    assert(m.year == (m.year / 1000) * 1000 + ((m.year / 100) % 10) * 100
        + ((m.year / 10) % 10) * 10 + m.year % 10) by (nonlinear_arith)
        requires m.year <= 9999;
    assert(m.month == ((m.month / 10) % 10) * 10 + m.month % 10) by (nonlinear_arith)
        requires m.month <= 99;
    assert(m.month / 10 == (m.month / 10) % 10) by (nonlinear_arith)
        requires m.month <= 99;
}

} // verus!
