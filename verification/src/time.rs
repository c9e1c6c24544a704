//! The timestamp and duration models.
//!
//! A [`DT`] is a UTC instant as seconds and nanoseconds since the epoch;
//! a [`Dur`] is a non-negative span as seconds and nanoseconds. Their
//! arithmetic and ordering are verified on the plain fields; only text
//! conversion and the current time rely on the `chrono` crate.
use vstd::prelude::*;

verus! {

pub const NANOS_PER_SEC: u32 = 1_000_000_000;

/// A UTC instant: seconds since the epoch (possibly negative) plus a
/// nanosecond offset within the second.
#[derive(Clone, Copy, Debug, PartialEq, Eq, Structural, Hash)]
pub struct DT {
    pub secs: i64,
    pub nanos: u32,
}

/// A non-negative span of time.
#[derive(Clone, Copy, Debug, PartialEq, Eq, Structural, Hash)]
pub struct Dur {
    pub secs: u64,
    pub nanos: u32,
}

impl DT {
    pub open spec fn wf(&self) -> bool {
        self.nanos < NANOS_PER_SEC
    }

    /// The instant as a single nanosecond count.
    pub open spec fn key(&self) -> int {
        self.secs as int * 1_000_000_000 + self.nanos as int
    }

    pub fn new(secs: i64, nanos: u32) -> (r: Option<DT>)
        ensures
            nanos < NANOS_PER_SEC ==> r == Option::Some(DT { secs, nanos }),
            nanos >= NANOS_PER_SEC ==> r is None,
    {
        if nanos < NANOS_PER_SEC {
            Option::Some(DT { secs, nanos })
        } else {
            Option::None
        }
    }
}

impl Dur {
    pub open spec fn wf(&self) -> bool {
        self.nanos < NANOS_PER_SEC
    }

    /// The span as a single nanosecond count.
    pub open spec fn key(&self) -> int {
        self.secs as int * 1_000_000_000 + self.nanos as int
    }

    pub fn new(secs: u64, nanos: u32) -> (r: Option<Dur>)
        ensures
            nanos < NANOS_PER_SEC ==> r == Option::Some(Dur { secs, nanos }),
            nanos >= NANOS_PER_SEC ==> r is None,
    {
        if nanos < NANOS_PER_SEC {
            Option::Some(Dur { secs, nanos })
        } else {
            Option::None
        }
    }
}

/// Ordering of instants: by the nanosecond key.
pub fn dt_cmp(a: &DT, b: &DT) -> (r: core::cmp::Ordering)
    requires
        a.wf(),
        b.wf(),
    ensures
        (r == core::cmp::Ordering::Equal) <==> a.key() == b.key(),
        (r == core::cmp::Ordering::Less) <==> a.key() < b.key(),
        (r == core::cmp::Ordering::Greater) <==> a.key() > b.key(),
{
    if a.secs < b.secs {
        core::cmp::Ordering::Less
    } else if a.secs > b.secs {
        core::cmp::Ordering::Greater
    } else if a.nanos < b.nanos {
        core::cmp::Ordering::Less
    } else if a.nanos > b.nanos {
        core::cmp::Ordering::Greater
    } else {
        core::cmp::Ordering::Equal
    }
}

/// Ordering of spans: by the nanosecond key.
pub fn dur_cmp(a: &Dur, b: &Dur) -> (r: core::cmp::Ordering)
    requires
        a.wf(),
        b.wf(),
    ensures
        (r == core::cmp::Ordering::Equal) <==> a.key() == b.key(),
        (r == core::cmp::Ordering::Less) <==> a.key() < b.key(),
        (r == core::cmp::Ordering::Greater) <==> a.key() > b.key(),
{
    if a.secs < b.secs {
        core::cmp::Ordering::Less
    } else if a.secs > b.secs {
        core::cmp::Ordering::Greater
    } else if a.nanos < b.nanos {
        core::cmp::Ordering::Less
    } else if a.nanos > b.nanos {
        core::cmp::Ordering::Greater
    } else {
        core::cmp::Ordering::Equal
    }
}

/// Sum of two spans; `None` when the seconds overflow.
pub fn dur_add(a: &Dur, b: &Dur) -> (r: Option<Dur>)
    requires
        a.wf(),
        b.wf(),
    ensures
        r matches Option::Some(d) ==> d.wf() && d.key() == a.key() + b.key(),
        r is None ==> a.key() + b.key() > (u64::MAX as int) * 1_000_000_000
            + 999_999_999,
{
    let nsum = a.nanos + b.nanos;
    let (carry, nanos) = if nsum >= NANOS_PER_SEC {
        (1u64, nsum - NANOS_PER_SEC)
    } else {
        (0u64, nsum)
    };
    match a.secs.checked_add(b.secs) {
        Option::Some(s) => match s.checked_add(carry) {
            Option::Some(secs) => Option::Some(Dur { secs, nanos }),
            Option::None => Option::None,
        },
        Option::None => Option::None,
    }
}

/// Difference of two spans; `None` when it would be negative.
pub fn dur_sub(a: &Dur, b: &Dur) -> (r: Option<Dur>)
    requires
        a.wf(),
        b.wf(),
    ensures
        r matches Option::Some(d) ==> d.wf() && d.key() == a.key() - b.key(),
        r is None ==> a.key() < b.key(),
{
    if a.secs > b.secs || (a.secs == b.secs && a.nanos >= b.nanos) {
        if a.nanos >= b.nanos {
            Option::Some(Dur { secs: a.secs - b.secs, nanos: a.nanos - b.nanos })
        } else {
            Option::Some(
                Dur {
                    secs: a.secs - b.secs - 1,
                    nanos: a.nanos + NANOS_PER_SEC - b.nanos,
                },
            )
        }
    } else {
        Option::None
    }
}

/// A span divided by a positive integer, truncating to whole
/// nanoseconds: the result's key is `floor(key / s)`.
pub fn dur_div_u32(a: &Dur, s: u32) -> (r: Option<Dur>)
    requires
        a.wf(),
    ensures
        s == 0 <==> r is None,
        r matches Option::Some(d) ==> s != 0 && d.wf() && d.key() == a.key() / s as int,
{
    if s == 0 {
        return Option::None;
    }
    let sd = s as u64;
    let secs = a.secs / sd;
    let rem = a.secs % sd;
    proof {
        lemma_div_split(a.secs as int, a.nanos as int, s as int);
        assert((rem as int) * 1_000_000_000 + a.nanos as int <= u64::MAX as int)
            by (nonlinear_arith)
            requires
                rem < 0x100000000,
                a.nanos < 1_000_000_000,
        ;
    }
    let carry_nanos = rem * (NANOS_PER_SEC as u64) + (a.nanos as u64);
    let nanos = (carry_nanos / sd) as u32;
    Option::Some(Dur { secs, nanos })
}

proof fn lemma_div_split(s: int, n: int, d: int)
    requires
        d >= 1,
        s >= 0,
        0 <= n < 1_000_000_000,
    ensures
        (s * 1_000_000_000 + n) / d == (s / d) * 1_000_000_000 + ((s % d) * 1_000_000_000
            + n) / d,
        0 <= ((s % d) * 1_000_000_000 + n) / d < 1_000_000_000,
{
    vstd::arithmetic::div_mod::lemma_fundamental_div_mod(s, d);
    let q = s / d;
    let r = s % d;
    let inner = r * 1_000_000_000 + n;
    assert(inner >= 0) by (nonlinear_arith)
        requires
            r >= 0,
            n >= 0,
            inner == r * 1_000_000_000 + n,
    ;
    vstd::arithmetic::div_mod::lemma_fundamental_div_mod(inner, d);
    let iq = inner / d;
    let ir = inner % d;
    assert(iq >= 0) by (nonlinear_arith)
        requires
            inner == d * iq + ir,
            0 <= ir < d,
            inner >= 0,
            d >= 1,
    ;
    // inner <= (d-1)*1e9 + 1e9 - 1 < d*1e9, so iq < 1e9
    assert(inner < d * 1_000_000_000) by (nonlinear_arith)
        requires
            r < d,
            n < 1_000_000_000,
            inner == r * 1_000_000_000 + n,
    ;
    assert(iq < 1_000_000_000) by (nonlinear_arith)
        requires
            inner == d * iq + ir,
            0 <= ir < d,
            inner < d * 1_000_000_000,
            d >= 1,
            iq >= 0,
    ;
    assert(s * 1_000_000_000 + n == (q * 1_000_000_000 + iq) * d + ir) by (nonlinear_arith)
        requires
            s == d * q + r,
            inner == r * 1_000_000_000 + n,
            inner == d * iq + ir,
    ;
    assert((s * 1_000_000_000 + n) / d == q * 1_000_000_000 + iq) by {
        vstd::arithmetic::div_mod::lemma_fundamental_div_mod_converse(
            s * 1_000_000_000 + n,
            d,
            q * 1_000_000_000 + iq,
            ir,
        );
    }
}

/// An instant plus a span. `None` exactly when the result leaves the
/// representable range, or the span itself exceeds the largest
/// representable number of seconds.
pub fn dt_add_dur(a: &DT, b: &Dur) -> (r: Option<DT>)
    requires
        a.wf(),
        b.wf(),
    ensures
        r matches Option::Some(d) ==> d.wf() && d.key() == a.key() + b.key(),
        (r is Some) <==> (b.secs <= i64::MAX as u64 && a.key() + b.key() <= (
        i64::MAX as int) * 1_000_000_000 + 999_999_999),
{
    let nsum = a.nanos + b.nanos;
    let (carry, nanos) = if nsum >= NANOS_PER_SEC {
        (1i64, nsum - NANOS_PER_SEC)
    } else {
        (0i64, nsum)
    };
    if b.secs > i64::MAX as u64 {
        return Option::None;
    }
    match a.secs.checked_add(b.secs as i64) {
        Option::Some(s) => match s.checked_add(carry) {
            Option::Some(secs) => Option::Some(DT { secs, nanos }),
            Option::None => Option::None,
        },
        Option::None => Option::None,
    }
}

/// An instant minus a span. `None` exactly when the result leaves the
/// representable range, or the span itself exceeds the largest
/// representable number of seconds.
pub fn dt_sub_dur(a: &DT, b: &Dur) -> (r: Option<DT>)
    requires
        a.wf(),
        b.wf(),
    ensures
        r matches Option::Some(d) ==> d.wf() && d.key() == a.key() - b.key(),
        (r is Some) <==> (b.secs <= i64::MAX as u64 && a.key() - b.key() >= (
        i64::MIN as int) * 1_000_000_000),
{
    let (borrow, nanos) = if a.nanos >= b.nanos {
        (0i64, a.nanos - b.nanos)
    } else {
        (1i64, a.nanos + NANOS_PER_SEC - b.nanos)
    };
    if b.secs > i64::MAX as u64 {
        return Option::None;
    }
    match a.secs.checked_sub(b.secs as i64) {
        Option::Some(s) => match s.checked_sub(borrow) {
            Option::Some(secs) => Option::Some(DT { secs, nanos }),
            Option::None => Option::None,
        },
        Option::None => Option::None,
    }
}

/// The text that `chrono` prints for the instant.
pub uninterp spec fn dt_text_of(secs: i64, nanos: u32) -> Seq<char>;

/// The instant that `chrono` parses from the text, if any.
pub uninterp spec fn dt_of_text(s: Seq<char>) -> Option<DT>;

/// Relies on `chrono::DateTime::<Utc>::from_timestamp` and its
/// `Display`: the text depends on the fields alone; out-of-range
/// seconds fall back to the epoch text rather than failing.
#[verifier::external_body]
pub fn dt_to_text(d: &DT) -> (r: String)
    requires
        d.wf(),
    ensures
        r@ == dt_text_of(d.secs, d.nanos),
{
    match chrono::DateTime::<chrono::Utc>::from_timestamp(d.secs, d.nanos) {
        Option::Some(t) => format!("{}", t),
        Option::None => format!("{}", chrono::DateTime::<chrono::Utc>::UNIX_EPOCH),
    }
}

/// Relies on `chrono`'s `FromStr` for `DateTime<Utc>` (relaxed RFC
/// 3339), `timestamp` and `timestamp_subsec_nanos`: the result depends
/// on the text alone and the nanosecond field is within one second.
#[verifier::external_body]
pub fn dt_parse(s: &str) -> (r: Option<DT>)
    ensures
        r == dt_of_text(s@),
        r matches Option::Some(d) ==> d.wf(),
{
    match s.parse::<chrono::DateTime<chrono::Utc>>() {
        Result::Ok(t) => Option::Some(
            DT { secs: t.timestamp(), nanos: t.timestamp_subsec_nanos() % 1_000_000_000 },
        ),
        Result::Err(_) => Option::None,
    }
}

/// Relies on `chrono::Utc::now`: nothing is promised of the instant
/// itself, only that the nanosecond field is within one second.
#[verifier::external_body]
pub fn dt_now() -> (r: DT)
    ensures
        r.wf(),
{
    let t = chrono::Utc::now();
    DT { secs: t.timestamp(), nanos: t.timestamp_subsec_nanos() % 1_000_000_000 }
}

} // verus!
