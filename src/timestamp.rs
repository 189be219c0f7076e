use vstd::prelude::*;
use vstd::string::*;
use vstd::arithmetic::div_mod::lemma_fundamental_div_mod;
use core::cmp::Ordering;
use core::time::Duration;

use crate::direction::Direction;
use crate::error::SrtError;
use crate::text::{
    chars_of, is_digit, lemma_padded_reads_back, lemma_split_join, lemma_split_plain, padded,
    parse_num, parse_uint, push_padded, split, split_on, string_of, views,
};

verus! {

/// The largest number of milliseconds that a timestamp can be given from a count: its hours
/// are a `u64`. Every `u64` count, and every `u64` count shifted by any `i64` amount, is below.
pub const MAX_MILLIS: u128 = 66_408_278_665_354_385_817_599_999;

/// The whole milliseconds of a duration.
pub uninterp spec fn whole_millis(d: Duration) -> u128;

/// Relies on Duration::as_millis: the whole milliseconds that the duration spans.
pub assume_specification[ core::time::Duration::as_millis ](d: &core::time::Duration) -> (r: u128)
    ensures
        r == whole_millis(*d),
;

/// The whole nanoseconds of a duration.
pub uninterp spec fn whole_nanos(d: Duration) -> u128;

/// Relies on Duration::from_millis: a duration of exactly that many milliseconds, with no
/// part below a millisecond (what Duration::as_nanos returns of it is `millis * 1_000_000`).
pub assume_specification[ core::time::Duration::from_millis ](millis: u64) -> (r: core::time::Duration)
    ensures
        whole_millis(r) == millis,
        whole_nanos(r) == millis * 1_000_000,
;

/// A time of day in subtitle form, `hours:minutes:seconds,milliseconds`. No component is
/// bounded beyond its integer type: `00:75:00,000` is a timestamp.
#[derive(Debug, Clone, Copy, PartialEq, Eq, Ord, Structural)]
pub struct Timestamp {
    pub hours: u64,
    pub minutes: u32,
    pub seconds: u32,
    pub milliseconds: u32,
}

/// Orders two numbers.
pub open spec fn order_of(a: int, b: int) -> Ordering {
    if a < b {
        Ordering::Less
    } else if a == b {
        Ordering::Equal
    } else {
        Ordering::Greater
    }
}

/// Where a time lands when shifted by `delta` milliseconds: never before zero.
pub open spec fn shift_target(millis: int, delta: int, direction: Direction) -> int {
    let moved = match direction {
        Direction::Forward => millis + delta,
        Direction::Backward => millis - delta,
    };
    if moved < 0 {
        0
    } else {
        moved
    }
}

impl Timestamp {
    /// The number of milliseconds since midnight that the timestamp stands for.
    pub open spec fn millis(self) -> int {
        self.hours * 3_600_000 + self.minutes * 60_000 + self.seconds * 1000 + self.milliseconds
    }

    /// Minutes and seconds under 60 and milliseconds under 1000.
    pub open spec fn is_normal(self) -> bool {
        self.minutes < 60 && self.seconds < 60 && self.milliseconds < 1000
    }

    /// The timestamp of `m` milliseconds, split into hours, minutes, seconds and milliseconds.
    pub open spec fn of_millis(m: nat) -> Timestamp {
        Timestamp {
            hours: (m / 1000 / 60 / 60) as u64,
            minutes: (m / 1000 / 60 % 60) as u32,
            seconds: (m / 1000 % 60) as u32,
            milliseconds: (m % 1000) as u32,
        }
    }

    /// Component-wise order: hours first, then minutes, seconds and milliseconds.
    pub open spec fn compare(self, other: Timestamp) -> Ordering {
        if self.hours != other.hours {
            order_of(self.hours as int, other.hours as int)
        } else if self.minutes != other.minutes {
            order_of(self.minutes as int, other.minutes as int)
        } else if self.seconds != other.seconds {
            order_of(self.seconds as int, other.seconds as int)
        } else {
            order_of(self.milliseconds as int, other.milliseconds as int)
        }
    }

    /// The text form `HH:MM:SS,mmm`: at least two digits for hours, minutes and seconds,
    /// at least three for milliseconds.
    pub open spec fn text(self) -> Seq<char> {
        padded(self.hours as nat, 2) + seq![':'] + padded(self.minutes as nat, 2) + seq![':']
            + padded(self.seconds as nat, 2) + seq![','] + padded(self.milliseconds as nat, 3)
    }

    /// How text is read as a timestamp: three pieces between colons, the last of them two
    /// pieces around a comma, and each of the four an unsigned integer.
    pub open spec fn parse(s: Seq<char>) -> Result<Timestamp, SrtError> {
        let parts = split(s, ':');
        if parts.len() != 3 {
            Err(SrtError::Format)
        } else {
            let sub = split(parts[2], ',');
            let h = parse_num(parts[0], u64::MAX as nat);
            let m = parse_num(parts[1], u32::MAX as nat);
            let sec = parse_num(sub[0], u32::MAX as nat);
            let ms = parse_num(sub[1], u32::MAX as nat);
            if sub.len() == 2 && h is Some && m is Some && sec is Some && ms is Some {
                Ok(
                    Timestamp {
                        hours: h->Some_0 as u64,
                        minutes: m->Some_0 as u32,
                        seconds: sec->Some_0 as u32,
                        milliseconds: ms->Some_0 as u32,
                    },
                )
            } else {
                Err(SrtError::Format)
            }
        }
    }

    /// Reads a timestamp from `HH:MM:SS,mmm`.
    pub fn from_string(timestamp_str: &str) -> (r: Result<Self, SrtError>)
        ensures
            r == Self::parse(timestamp_str@),
    {
        let v = chars_of(timestamp_str);
        Self::from_chars(&v)
    }

    /// Reads a timestamp from the characters of `HH:MM:SS,mmm`.
    pub fn from_chars(v: &Vec<char>) -> (r: Result<Self, SrtError>)
        ensures
            r == Self::parse(v@),
    {
        let parts = split_on(v, ':');
        proof {
            assert(views(parts@).len() == parts@.len());
        }
        if parts.len() != 3 {
            return Err(SrtError::Format);
        }
        assert(parts@[0]@ == split(v@, ':')[0]);
        assert(parts@[1]@ == split(v@, ':')[1]);
        assert(parts@[2]@ == split(v@, ':')[2]);
        let hours = parse_uint(&parts[0], 0xffff_ffff_ffff_ffff);
        let minutes = parse_uint(&parts[1], 0xffff_ffff);
        let sub = split_on(&parts[2], ',');
        proof {
            assert(views(sub@).len() == sub@.len());
        }
        if sub.len() != 2 {
            return Err(SrtError::Format);
        }
        assert(sub@[0]@ == split(parts@[2]@, ',')[0]);
        assert(sub@[1]@ == split(parts@[2]@, ',')[1]);
        let seconds = parse_uint(&sub[0], 0xffff_ffff);
        let milliseconds = parse_uint(&sub[1], 0xffff_ffff);
        match (hours, minutes, seconds, milliseconds) {
            (Some(h), Some(m), Some(s), Some(ms)) => Ok(
                Timestamp { hours: h, minutes: m as u32, seconds: s as u32, milliseconds: ms as u32 },
            ),
            _ => Err(SrtError::Format),
        }
    }

    /// The number of milliseconds since midnight.
    pub fn to_millis(&self) -> (r: u128)
        ensures
            r == self.millis(),
    {
        assert(self.hours * 3_600_000 <= 0xffff_ffff_ffff_ffff * 3_600_000) by (nonlinear_arith)
            requires
                self.hours <= 0xffff_ffff_ffff_ffff,
        ;
        assert(self.minutes * 60_000 <= 0xffff_ffff * 60_000) by (nonlinear_arith)
            requires
                self.minutes <= 0xffff_ffff,
        ;
        assert(self.seconds * 1000 <= 0xffff_ffff * 1000) by (nonlinear_arith)
            requires
                self.seconds <= 0xffff_ffff,
        ;
        (self.hours as u128) * 3_600_000 + (self.minutes as u128) * 60_000 + (self.seconds as u128)
            * 1000 + self.milliseconds as u128
    }

    /// The timestamp of `millis` milliseconds since midnight.
    pub fn from_millis(millis: u64) -> (r: Self)
        ensures
            r == Self::of_millis(millis as nat),
            r.is_normal(),
    {
        Self::of_count(millis as u128)
    }

    /// The timestamp of `millis` milliseconds since midnight, for any count up to
    /// `MAX_MILLIS`.
    fn of_count(millis: u128) -> (r: Self)
        requires
            millis <= MAX_MILLIS,
        ensures
            r == Self::of_millis(millis as nat),
            r.is_normal(),
    {
        let total_seconds = millis / 1000;
        let milliseconds = (millis % 1000) as u32;
        let seconds = (total_seconds % 60) as u32;
        let total_minutes = total_seconds / 60;
        let minutes = (total_minutes % 60) as u32;
        assert(millis / 1000 / 60 / 60 <= 0xffff_ffff_ffff_ffff) by {
            lemma_hours_fit(millis as int);
        }
        let hours = (total_minutes / 60) as u64;
        Timestamp { hours, minutes, seconds, milliseconds }
    }

    /// Shifts the timestamp by `delta` in `direction`, stopping at zero.
    ///
    /// Fails with `Overflow`, leaving the timestamp as it was, where the shift is larger than
    /// a signed 64-bit count of milliseconds, or where the result is larger than `MAX_MILLIS`,
    /// which only a timestamp of more than `u64::MAX` milliseconds can reach (see
    /// `lemma_shift_in_range_succeeds`).
    pub fn move_ts(&mut self, delta: Duration, direction: Direction) -> (r: Result<(), SrtError>)
        ensures
            r is Ok <==> (whole_millis(delta) <= i64::MAX && shift_target(
                old(self).millis(),
                whole_millis(delta) as int,
                direction,
            ) <= MAX_MILLIS),
            r is Ok ==> *final(self) == Self::of_millis(
                shift_target(old(self).millis(), whole_millis(delta) as int, direction) as nat,
            ),
            r is Err ==> r == Err::<(), SrtError>(SrtError::Overflow) && *final(self) == *old(
                self,
            ),
    {
        let d: u128 = delta.as_millis();
        if d > 0x7fff_ffff_ffff_ffff {
            return Err(SrtError::Overflow);
        }
        let total = self.to_millis() as i128;
        assert(self.millis() <= MAX_MILLIS + 0xffff_ffff * 60_000 + 0xffff_ffff * 1000
            + 0xffff_ffff) by (nonlinear_arith)
            requires
                self.hours <= 0xffff_ffff_ffff_ffff,
                self.minutes <= 0xffff_ffff,
                self.seconds <= 0xffff_ffff,
                self.milliseconds <= 0xffff_ffff,
        ;
        let moved: i128 = match direction {
            Direction::Forward => total + d as i128,
            Direction::Backward => total - d as i128,
        };
        let target: i128 = if moved < 0 {
            0
        } else {
            moved
        };
        if target > MAX_MILLIS as i128 {
            return Err(SrtError::Overflow);
        }
        *self = Timestamp::of_count(target as u128);
        Ok(())
    }

    /// Appends the text form `HH:MM:SS,mmm`.
    pub fn push_text(&self, out: &mut Vec<char>)
        ensures
            final(out)@ == old(out)@ + self.text(),
    {
        let ghost start = out@;
        push_padded(out, self.hours, 2);
        out.push(':');
        push_padded(out, self.minutes as u64, 2);
        out.push(':');
        push_padded(out, self.seconds as u64, 2);
        out.push(',');
        push_padded(out, self.milliseconds as u64, 3);
        assert(out@ =~= start + self.text());
    }

    /// The text form `HH:MM:SS,mmm`.
    pub fn to_string(&self) -> (r: String)
        ensures
            r@ == self.text(),
    {
        let mut v: Vec<char> = Vec::new();
        self.push_text(&mut v);
        assert(v@ =~= self.text());
        string_of(&v)
    }
}

proof fn lemma_hours_fit(m: int)
    requires
        0 <= m <= MAX_MILLIS,
    ensures
        m / 1000 / 60 / 60 <= 0xffff_ffff_ffff_ffff,
{
    assert(m / 1000 / 60 / 60 <= 0xffff_ffff_ffff_ffff) by (nonlinear_arith)
        requires
            0 <= m <= 66_408_278_665_354_385_817_599_999,
    ;
}

/// Converting milliseconds to a timestamp and back gives the same count, for every count up
/// to `MAX_MILLIS`, which is every `u64` count and more.
pub proof fn lemma_millis_round_trip(m: nat)
    requires
        m <= MAX_MILLIS,
    ensures
        Timestamp::of_millis(m).millis() == m,
{
    let secs = m / 1000;
    let mins = secs / 60;
    let hours = mins / 60;
    lemma_fundamental_div_mod(m as int, 1000);
    lemma_fundamental_div_mod(secs as int, 60);
    lemma_fundamental_div_mod(mins as int, 60);
    lemma_hours_fit(m as int);
    let t = Timestamp::of_millis(m);
    assert(t.hours == hours && t.minutes == mins % 60 && t.seconds == secs % 60
        && t.milliseconds == m % 1000);
    assert(m == hours * 3_600_000 + (mins % 60) * 60_000 + (secs % 60) * 1000 + m % 1000)
        by (nonlinear_arith)
        requires
            m == 1000 * secs + m % 1000,
            secs == 60 * mins + secs % 60,
            mins == 60 * hours + mins % 60,
    ;
}

/// Among timestamps whose minutes and seconds are under 60 and whose milliseconds are under
/// 1000, one comes before another exactly when it stands for fewer milliseconds.
pub proof fn lemma_order_matches_millis(a: Timestamp, b: Timestamp)
    requires
        a.is_normal(),
        b.is_normal(),
    ensures
        (a.millis() < b.millis()) <==> (a.compare(b) == Ordering::Less),
{
    let ra = a.minutes * 60_000 + a.seconds * 1000 + a.milliseconds;
    let rb = b.minutes * 60_000 + b.seconds * 1000 + b.milliseconds;
    assert(0 <= ra < 3_600_000 && 0 <= rb < 3_600_000) by (nonlinear_arith)
        requires
            a.minutes < 60 && a.seconds < 60 && a.milliseconds < 1000,
            b.minutes < 60 && b.seconds < 60 && b.milliseconds < 1000,
            ra == a.minutes * 60_000 + a.seconds * 1000 + a.milliseconds,
            rb == b.minutes * 60_000 + b.seconds * 1000 + b.milliseconds,
    ;
    if a.hours != b.hours {
        assert((a.hours < b.hours) <==> (a.hours * 3_600_000 + ra < b.hours * 3_600_000 + rb))
            by (nonlinear_arith)
            requires
                a.hours != b.hours,
                0 <= ra < 3_600_000,
                0 <= rb < 3_600_000,
        ;
    } else {
        let sa = a.seconds * 1000 + a.milliseconds;
        let sb = b.seconds * 1000 + b.milliseconds;
        assert(0 <= sa < 60_000 && 0 <= sb < 60_000) by (nonlinear_arith)
            requires
                a.seconds < 60 && a.milliseconds < 1000,
                b.seconds < 60 && b.milliseconds < 1000,
                sa == a.seconds * 1000 + a.milliseconds,
                sb == b.seconds * 1000 + b.milliseconds,
        ;
        if a.minutes != b.minutes {
            assert((a.minutes < b.minutes) <==> (a.minutes * 60_000 + sa < b.minutes * 60_000
                + sb)) by (nonlinear_arith)
                requires
                    a.minutes != b.minutes,
                    0 <= sa < 60_000,
                    0 <= sb < 60_000,
            ;
        } else if a.seconds != b.seconds {
            assert((a.seconds < b.seconds) <==> (a.seconds * 1000 + a.milliseconds < b.seconds
                * 1000 + b.milliseconds)) by (nonlinear_arith)
                requires
                    a.seconds != b.seconds,
                    a.milliseconds < 1000,
                    b.milliseconds < 1000,
            ;
        }
    }
}

/// Any timestamp of at most `u64::MAX` milliseconds, and so every timestamp made from a
/// count, can be shifted either way by any amount within the signed 64-bit range.
pub proof fn lemma_shift_in_range_succeeds(t: Timestamp, delta: Duration, direction: Direction)
    requires
        t.millis() <= u64::MAX,
        whole_millis(delta) <= i64::MAX,
    ensures
        shift_target(t.millis(), whole_millis(delta) as int, direction) <= MAX_MILLIS,
{
}

/// Shifting back by at least the time that a timestamp stands for lands on zero, which is
/// `00:00:00,000`.
pub proof fn lemma_backward_clamps(t: Timestamp, delta: Duration)
    requires
        whole_millis(delta) >= t.millis(),
    ensures
        shift_target(t.millis(), whole_millis(delta) as int, Direction::Backward) == 0,
        Timestamp::of_millis(0) == (Timestamp { hours: 0, minutes: 0, seconds: 0, milliseconds: 0 }),
{
}

/// Reading the text form of a timestamp gives the timestamp back; so where text is already
/// in that form, reading it and writing it out again gives the same text.
pub proof fn lemma_text_round_trip(t: Timestamp)
    ensures
        Timestamp::parse(t.text()) == Ok::<Timestamp, SrtError>(t),
{
    let a = padded(t.hours as nat, 2);
    let b = padded(t.minutes as nat, 2);
    let c = padded(t.seconds as nat, 2);
    let d = padded(t.milliseconds as nat, 3);
    lemma_padded_reads_back(t.hours as nat, 2, u64::MAX as nat);
    lemma_padded_reads_back(t.minutes as nat, 2, u32::MAX as nat);
    lemma_padded_reads_back(t.seconds as nat, 2, u32::MAX as nat);
    lemma_padded_reads_back(t.milliseconds as nat, 3, u32::MAX as nat);
    let cd = c + seq![','] + d;
    let rest = b + seq![':'] + cd;
    assert(t.text() =~= a + seq![':'] + rest);
    lemma_split_join(a, rest, ':');
    lemma_split_join(b, cd, ':');
    lemma_split_plain(a, ':');
    lemma_split_plain(b, ':');
    assert forall|i: int| 0 <= i < cd.len() implies cd[i] != ':' by {
        if i < c.len() {
            assert(is_digit(c[i]));
        } else if i > c.len() {
            assert(is_digit(d[i - c.len() - 1]));
        }
    }
    lemma_split_plain(cd, ':');
    assert(split(t.text(), ':') =~= seq![a, b, cd]);
    lemma_split_join(c, d, ',');
    lemma_split_plain(c, ',');
    lemma_split_plain(d, ',');
    assert(split(cd, ',') =~= seq![c, d]);
}

fn order_u64(a: u64, b: u64) -> (r: Ordering)
    ensures
        r == order_of(a as int, b as int),
{
    if a < b {
        Ordering::Less
    } else if a == b {
        Ordering::Equal
    } else {
        Ordering::Greater
    }
}

impl PartialOrd for Timestamp {
    fn partial_cmp(&self, other: &Self) -> (r: Option<Ordering>) {
        if self.hours != other.hours {
            Some(order_u64(self.hours, other.hours))
        } else if self.minutes != other.minutes {
            Some(order_u64(self.minutes as u64, other.minutes as u64))
        } else if self.seconds != other.seconds {
            Some(order_u64(self.seconds as u64, other.seconds as u64))
        } else {
            Some(order_u64(self.milliseconds as u64, other.milliseconds as u64))
        }
    }
}

impl vstd::std_specs::cmp::PartialOrdSpecImpl for Timestamp {
    open spec fn obeys_partial_cmp_spec() -> bool {
        true
    }

    open spec fn partial_cmp_spec(&self, other: &Timestamp) -> Option<Ordering> {
        Some(self.compare(*other))
    }
}

} // verus!
