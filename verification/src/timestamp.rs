//! Points in time as plain values: whole seconds since the Unix epoch plus
//! a subsecond part, totally ordered, with the "far past" sentinel that
//! stands for "no file found" and the fixed calendar rendering.

use vstd::prelude::*;

verus! {

/// Seconds between a scan's start and its sentinel timestamp: one hundred
/// 365-day years.
pub const SENTINEL_OFFSET_SECS: i64 = 3_153_600_000;

/// Least count of seconds since the Unix epoch that the calendar rendering
/// accepts (the first representable instant, in the year -262143).
pub const MIN_RENDER_SECS: i64 = -8_334_601_228_800;

/// Greatest count of seconds since the Unix epoch that the calendar
/// rendering accepts (the last representable instant, in the year 262142).
pub const MAX_RENDER_SECS: i64 = 8_210_266_876_799;

/// A point in time: whole seconds since the Unix epoch, and nanoseconds
/// since the last whole second.
#[derive(Clone, Copy, PartialEq, Eq, Structural, Debug)]
pub struct Timestamp {
    pub secs: i64,
    pub nanos: u32,
}

impl View for Timestamp {
    type V = int;

    open spec fn view(&self) -> int {
        self.secs * 1_000_000_000 + self.nanos
    }
}

impl Timestamp {
    /// The subsecond part stays below one second.
    pub open spec fn wf(self) -> bool {
        self.nanos < 1_000_000_000
    }

    pub fn new(secs: i64, nanos: u32) -> (r: Timestamp)
        requires
            nanos < 1_000_000_000,
        ensures
            r.secs == secs,
            r.nanos == nanos,
            r.wf(),
    {
        Timestamp { secs, nanos }
    }

    /// True exactly when `self` is strictly earlier than `other`.
    pub fn lt(&self, other: &Timestamp) -> (r: bool)
        requires
            self.wf(),
            other.wf(),
        ensures
            r == (self@ < other@),
    {
        proof {
            lemma_order_matches_view(*self, *other);
        }
        self.secs < other.secs || (self.secs == other.secs && self.nanos < other.nanos)
    }
}

/// With the subsecond part below one second, comparing seconds first and
/// nanoseconds second is the numeric order of the views.
proof fn lemma_order_matches_view(a: Timestamp, b: Timestamp)
    requires
        a.wf(),
        b.wf(),
    ensures
        (a@ < b@) <==> (a.secs < b.secs || (a.secs == b.secs && a.nanos < b.nanos)),
{
    if a.secs < b.secs {
        assert(a.secs * 1_000_000_000 + 1_000_000_000 <= b.secs * 1_000_000_000) by (nonlinear_arith)
            requires a.secs < b.secs;
    }
    if b.secs < a.secs {
        assert(b.secs * 1_000_000_000 + 1_000_000_000 <= a.secs * 1_000_000_000) by (nonlinear_arith)
            requires b.secs < a.secs;
    }
}

/// The sentinel for "no file found in this subtree": the given moment moved
/// back one hundred 365-day years, subsecond part kept.
pub fn sentinel_of(now: Timestamp) -> (r: Timestamp)
    requires
        now.wf(),
        now.secs >= i64::MIN + SENTINEL_OFFSET_SECS,
    ensures
        r.secs == now.secs - SENTINEL_OFFSET_SECS,
        r.nanos == now.nanos,
        r.wf(),
{
    Timestamp { secs: now.secs - SENTINEL_OFFSET_SECS, nanos: now.nanos }
}

/// Relies on chrono's `Utc::now`: the current clock reading as a valid
/// `DateTime<Utc>`, handed on as its Unix timestamp. Any such value keeps
/// its seconds within chrono's calendar range, and its subsecond part,
/// taken from a `Duration`, is below one second.
#[verifier::external_body]
fn clock_now() -> (r: Timestamp)
    ensures
        MIN_RENDER_SECS <= r.secs <= MAX_RENDER_SECS,
        r.wf(),
{
    let now = chrono::Utc::now();
    Timestamp { secs: now.timestamp(), nanos: now.timestamp_subsec_nanos() }
}

/// The sentinel for a scan starting now: one hundred 365-day years before
/// the current clock reading.
pub fn current_sentinel() -> (r: Timestamp)
    ensures
        r.wf(),
        MIN_RENDER_SECS - SENTINEL_OFFSET_SECS <= r.secs <= MAX_RENDER_SECS - SENTINEL_OFFSET_SECS,
{
    let now = clock_now();
    sentinel_of(now)
}

/// The calendar rendering `YYYY/MM/DD HH:MM:SS` (UTC) of a count of seconds
/// since the Unix epoch.
pub uninterp spec fn calendar_of(secs: int) -> Seq<char>;

/// Relies on chrono's `DateTime::from_timestamp` and `format`: for seconds
/// within the calendar range and a subsecond part below one second the
/// conversion succeeds, and the `%Y/%m/%d %H:%M:%S` rendering is a function
/// of the whole seconds alone.
#[verifier::external_body]
fn format_utc(t: &Timestamp) -> (r: String)
    requires
        MIN_RENDER_SECS <= t.secs <= MAX_RENDER_SECS,
        t.wf(),
    ensures
        r@ == calendar_of(t.secs as int),
{
    let dt = chrono::DateTime::<chrono::Utc>::from_timestamp(t.secs, t.nanos).unwrap();
    dt.format("%Y/%m/%d %H:%M:%S").to_string()
}

/// Renders a timestamp as `YYYY/MM/DD HH:MM:SS` in UTC; `None` exactly when
/// the seconds lie outside the calendar's range.
pub fn render_timestamp(t: &Timestamp) -> (r: Option<String>)
    requires
        t.wf(),
    ensures
        MIN_RENDER_SECS <= t.secs <= MAX_RENDER_SECS ==> r is Some && r.unwrap()@ == calendar_of(
            t.secs as int,
        ),
        !(MIN_RENDER_SECS <= t.secs <= MAX_RENDER_SECS) ==> r is None,
{
    if MIN_RENDER_SECS <= t.secs && t.secs <= MAX_RENDER_SECS {
        Some(format_utc(t))
    } else {
        None
    }
}

} // verus!
