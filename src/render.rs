use vstd::prelude::*;

use chrono::{Datelike, Local, TimeZone, Timelike, Utc};
use pulldown_cmark::{html, Parser};

verus! {

broadcast use vstd::string::group_string_axioms;

/// The HTML that pulldown-cmark renders for a Markdown text.
pub uninterp spec fn html_of(s: Seq<char>) -> Seq<char>;

/// Relies on pulldown_cmark::html::push_html over Parser::new: it appends to
/// the buffer the HTML for the text, which depends on the text alone.
#[verifier::external_body]
fn render_html(input: &str) -> (r: String)
    ensures
        r@ == html_of(input@),
{
    let mut output = String::with_capacity(input.len());
    html::push_html(&mut output, Parser::new(input));
    output
}

/// Renders a message body written in Markdown as HTML.
pub fn markdown(input: &str) -> (r: String)
    ensures
        r@ == html_of(input@),
{
    render_html(input)
}

/// A moment on the local calendar and clock, as plain values.
#[derive(Clone, Copy, Debug, PartialEq, Eq)]
pub struct LocalTime {
    /// Days since the first of January of year 1, that day being day 1.
    pub days_from_ce: i32,
    pub year: i32,
    pub month: u32,
    pub day: u32,
    pub hour: u32,
    pub minute: u32,
}

pub open spec fn local_time_wf(t: LocalTime) -> bool {
    &&& 1 <= t.month <= 12
    &&& 1 <= t.day <= 31
    &&& t.hour < 24
    &&& t.minute < 60
}

/// The earliest Unix time chrono represents: the first second of year -262143.
pub const MIN_TIMESTAMP: i64 = -8334601228800;

/// The latest Unix time chrono represents: the last second of year 262142.
pub const MAX_TIMESTAMP: i64 = 8210266876799;

/// Relies on chrono's Utc.timestamp_opt and DateTime::with_timezone(&Local):
/// the local date and time of a Unix time in seconds, none exactly where the
/// time lies outside the dates chrono represents. The fields come from
/// chrono's Datelike and Timelike.
#[verifier::external_body]
fn local_time_of(timestamp: i64) -> (r: Option<LocalTime>)
    ensures
        r is Some <==> MIN_TIMESTAMP <= timestamp <= MAX_TIMESTAMP,
        r matches Some(t) ==> local_time_wf(t),
{
    let t = Utc.timestamp_opt(timestamp, 0).single()?.with_timezone(&Local);
    Some(LocalTime {
        days_from_ce: t.num_days_from_ce(),
        year: t.year(),
        month: t.month(),
        day: t.day(),
        hour: t.hour(),
        minute: t.minute(),
    })
}

/// Relies on chrono's conversion of std's SystemTime::now into a local
/// DateTime: the local date and time at the call, with fields from chrono's
/// Datelike and Timelike.
#[verifier::external_body]
fn local_now() -> (r: LocalTime)
    ensures
        local_time_wf(r),
{
    let t = chrono::DateTime::<Local>::from(std::time::SystemTime::now());
    LocalTime {
        days_from_ce: t.num_days_from_ce(),
        year: t.year(),
        month: t.month(),
        day: t.day(),
        hour: t.hour(),
        minute: t.minute(),
    }
}

pub open spec fn digit_char(d: nat) -> char {
    if d == 0 {
        '0'
    } else if d == 1 {
        '1'
    } else if d == 2 {
        '2'
    } else if d == 3 {
        '3'
    } else if d == 4 {
        '4'
    } else if d == 5 {
        '5'
    } else if d == 6 {
        '6'
    } else if d == 7 {
        '7'
    } else if d == 8 {
        '8'
    } else {
        '9'
    }
}

/// The decimal digits of `n`.
pub open spec fn nat_text(n: nat) -> Seq<char>
    decreases n,
{
    if n < 10 {
        seq![digit_char(n)]
    } else {
        nat_text(n / 10) + seq![digit_char(n % 10)]
    }
}

/// `i` in decimal, with a `-` where it is negative.
pub open spec fn int_text(i: int) -> Seq<char> {
    if i < 0 {
        "-"@ + nat_text((-i) as nat)
    } else {
        nat_text(i as nat)
    }
}

/// How long ago a day was, `diff` days before today, or its date.
pub open spec fn day_text(diff: int, t: LocalTime) -> Seq<char> {
    if diff == 0 {
        "Today"@
    } else if diff == 1 {
        "Yesterday"@
    } else if diff == 2 {
        "Two days ago"@
    } else if diff == 3 {
        "Three days ago"@
    } else if diff < 7 {
        "A few days ago"@
    } else if diff == 7 {
        "A week ago"@
    } else {
        int_text(t.year as int) + "-"@ + nat_text(t.month as nat) + "-"@ + nat_text(t.day as nat)
    }
}

/// The hour on a twelve-hour clock.
pub open spec fn hour12(h: nat) -> nat {
    if h % 12 == 0 {
        12
    } else {
        h % 12
    }
}

/// The time of day, as `3:07 PM`.
pub open spec fn clock_text(t: LocalTime) -> Seq<char> {
    nat_text(hour12(t.hour as nat)) + ":"@ + (if t.minute < 10 {
        "0"@
    } else {
        Seq::empty()
    }) + nat_text(t.minute as nat) + (if t.hour >= 12 {
        " PM"@
    } else {
        " AM"@
    })
}

/// The whole text for a moment `t`, seen on day `today`.
pub open spec fn timestamp_text(today: i32, t: LocalTime) -> Seq<char> {
    day_text(today - t.days_from_ce, t) + " at "@ + clock_text(t)
}

fn digit_str(d: u64) -> (r: &'static str)
    requires
        d < 10,
    ensures
        r@ == seq![digit_char(d as nat)],
{
    proof {
        reveal_strlit("0");
        reveal_strlit("1");
        reveal_strlit("2");
        reveal_strlit("3");
        reveal_strlit("4");
        reveal_strlit("5");
        reveal_strlit("6");
        reveal_strlit("7");
        reveal_strlit("8");
        reveal_strlit("9");
    }
    let r = if d == 0 {
        "0"
    } else if d == 1 {
        "1"
    } else if d == 2 {
        "2"
    } else if d == 3 {
        "3"
    } else if d == 4 {
        "4"
    } else if d == 5 {
        "5"
    } else if d == 6 {
        "6"
    } else if d == 7 {
        "7"
    } else if d == 8 {
        "8"
    } else {
        "9"
    };
    assert(r@ =~= seq![digit_char(d as nat)]);
    r
}

/// Appends `n` in decimal.
pub fn push_nat(output: &mut String, n: u64)
    ensures
        final(output)@ == old(output)@ + nat_text(n as nat),
    decreases n,
{
    if n < 10 {
        output.append(digit_str(n));
    } else {
        push_nat(output, n / 10);
        output.append(digit_str(n % 10));
        assert(final(output)@ =~= old(output)@ + nat_text(n as nat));
    }
}

/// Appends the text for the moment `t` seen on day `today`: how many days
/// ago, or the date, then the time on a twelve-hour clock.
pub fn push_timestamp(output: &mut String, today: i32, t: LocalTime)
    requires
        local_time_wf(t),
    ensures
        final(output)@ == old(output)@ + timestamp_text(today, t),
{
    let ghost o0 = output@;
    let diff: i64 = today as i64 - t.days_from_ce as i64;
    if diff == 0 {
        output.append("Today");
    } else if diff == 1 {
        output.append("Yesterday");
    } else if diff == 2 {
        output.append("Two days ago");
    } else if diff == 3 {
        output.append("Three days ago");
    } else if diff < 7 {
        output.append("A few days ago");
    } else if diff == 7 {
        output.append("A week ago");
    } else {
        if t.year < 0 {
            output.append("-");
            push_nat(output, (-(t.year as i64)) as u64);
        } else {
            push_nat(output, t.year as u64);
        }
        assert(output@ =~= o0 + int_text(t.year as int));
        output.append("-");
        push_nat(output, t.month as u64);
        output.append("-");
        push_nat(output, t.day as u64);
        assert(output@ =~= o0 + day_text(diff as int, t));
    }
    assert(output@ =~= o0 + day_text(today - t.days_from_ce, t));
    let ghost o1 = output@;
    output.append(" at ");
    let h = if t.hour % 12 == 0 {
        12
    } else {
        t.hour % 12
    };
    let ghost o2 = output@;
    push_nat(output, h as u64);
    output.append(":");
    if t.minute < 10 {
        output.append("0");
    }
    push_nat(output, t.minute as u64);
    if t.hour >= 12 {
        output.append(" PM");
    } else {
        output.append(" AM");
    }
    assert(h as nat == hour12(t.hour as nat));
    assert(output@ =~= o2 + clock_text(t));
    assert(output@ =~= o0 + timestamp_text(today, t));
}

/// Appends how long ago the Unix time `timestamp` was, on the local clock;
/// appends nothing where the time lies outside the dates chrono represents.
pub fn format_timestamp(output: &mut String, timestamp: i64)
    ensures
        MIN_TIMESTAMP <= timestamp <= MAX_TIMESTAMP ==> exists|today: i32, t: LocalTime|
            local_time_wf(t) && final(output)@ == old(output)@ + timestamp_text(today, t),
        !(MIN_TIMESTAMP <= timestamp <= MAX_TIMESTAMP) ==> final(output)@ == old(output)@,
{
    let now = local_now();
    match local_time_of(timestamp) {
        Some(t) => push_timestamp(output, now.days_from_ce, t),
        None => {},
    }
}

} // verus!
