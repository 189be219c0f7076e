use vstd::prelude::*;
use vstd::string::*;
use core::time::Duration;

use crate::direction::Direction;
use crate::error::SrtError;
use crate::text::{
    chars_of, contains, contains_seq, occurs_at, find, find_from, is_punct, is_punct_char,
    lemma_find_from_found, string_of, trim, trimmed, views,
};
use crate::timestamp::{shift_target, whole_millis, whole_nanos, Timestamp, MAX_MILLIS};

verus! {

/// A subtitle as its start, its end and the characters of its text.
pub type Entry = (Timestamp, Timestamp, Seq<char>);

/// The phrases that mark a text as advertising or credits; matched case-sensitively,
/// anywhere in the text.
pub open spec fn denylist() -> Seq<Seq<char>> {
    seq![
        "شتركوا في القناة"@,
        "لا تنسوا الاشتراك في القناة"@,
        "لا تنسوا الاشتراك"@,
        "المترجم للقناة"@,
        "موسيقى"@,
        "patch"@,
    ]
}

/// The marker that tells the time-range line of a block.
pub open spec fn arrow() -> Seq<char> {
    "-->"@
}

/// What stands between the start and the end on the time-range line.
pub open spec fn arrow_sep() -> Seq<char> {
    " --> "@
}

/// A text worth keeping: not empty, free of every denied phrase, and not punctuation alone.
pub open spec fn is_valid_text(t: Seq<char>) -> bool {
    &&& t.len() > 0
    &&& forall|k: int| 0 <= k < denylist().len() ==> !contains(t, #[trigger] denylist()[k])
    &&& !(forall|i: int| 0 <= i < t.len() ==> is_punct(#[trigger] t[i]))
}

/// The first line at or after `i` that holds the arrow marker.
pub open spec fn first_arrow_line(lines: Seq<Seq<char>>, i: int) -> Option<int>
    decreases lines.len() - i,
{
    if i < 0 || i >= lines.len() {
        None
    } else if contains(lines[i], arrow()) {
        Some(i)
    } else {
        first_arrow_line(lines, i + 1)
    }
}

/// The start and end texts of a time-range line: what stands before the first separator,
/// and what stands between it and the next separator or the end of the line.
pub open spec fn range_parts(line: Seq<char>) -> Option<(Seq<char>, Seq<char>)> {
    match find_from(line, arrow_sep(), 0) {
        None => None,
        Some(p) => {
            let rest = line.skip(p + arrow_sep().len());
            let end = match find_from(rest, arrow_sep(), 0) {
                Some(q) => rest.take(q),
                None => rest,
            };
            Some((line.take(p), end))
        },
    }
}

/// How a block of lines is read as a subtitle: the first line holding the arrow marker gives
/// the times, the line right after it the text; lines before and after are ignored.
pub open spec fn read_block(lines: Seq<Seq<char>>) -> Result<Entry, SrtError> {
    match first_arrow_line(lines, 0) {
        None => Err(SrtError::NoTimestamp),
        Some(i) => if i + 1 >= lines.len() {
            Err(SrtError::NoText)
        } else {
            match range_parts(lines[i]) {
                None => Err(SrtError::Format),
                Some(parts) => match (Timestamp::parse(parts.0), Timestamp::parse(parts.1)) {
                    (Ok(start), Ok(end)) => {
                        let text = trim(lines[i + 1]);
                        if is_valid_text(text) {
                            Ok((start, end, text))
                        } else {
                            Err(SrtError::InvalidSubtitle)
                        }
                    },
                    _ => Err(SrtError::Format),
                },
            }
        },
    }
}

/// The canonical form of one subtitle: `start --> end`, a line break, the text, a line break.
pub open spec fn render(e: Entry) -> Seq<char> {
    e.0.text() + arrow_sep() + e.1.text() + seq!['\n'] + e.2 + seq!['\n']
}

/// One subtitle: when it starts, when it ends, and its text on one line.
#[derive(Debug, Clone, PartialEq)]
pub struct Subtitle {
    pub start_time: Timestamp,
    pub end_time: Timestamp,
    pub text: String,
}

/// Whether a result of reading a block agrees with what `read_block` gives.
pub open spec fn built_as(r: Result<Subtitle, SrtError>, expected: Result<Entry, SrtError>) -> bool {
    match (r, expected) {
        (Ok(s), Ok(e)) => s.entry() == e,
        (Err(x), Err(y)) => x == y,
        _ => false,
    }
}

/// No block reads as a subtitle whose text is one of the denied phrases.
pub proof fn lemma_denied_phrase_rejected(lines: Seq<Seq<char>>, k: int)
    requires
        0 <= k < denylist().len(),
    ensures
        !(read_block(lines) is Ok && read_block(lines)->Ok_0.2 == denylist()[k]),
{
    let p = denylist()[k];
    assert(p.subrange(0, p.len() as int) =~= p);
    assert(occurs_at(p, p, 0));
}

fn denied_phrases() -> (r: Vec<Vec<char>>)
    ensures
        views(r@) == denylist(),
{
    let mut r: Vec<Vec<char>> = Vec::new();
    r.push(chars_of("شتركوا في القناة"));
    r.push(chars_of("لا تنسوا الاشتراك في القناة"));
    r.push(chars_of("لا تنسوا الاشتراك"));
    r.push(chars_of("المترجم للقناة"));
    r.push(chars_of("موسيقى"));
    r.push(chars_of("patch"));
    assert(views(r@) =~= denylist());
    r
}

/// Whether a text is worth keeping: see `is_valid_text`.
pub fn valid_text(t: &Vec<char>) -> (r: bool)
    ensures
        r == is_valid_text(t@),
{
    if t.len() == 0 {
        return false;
    }
    let phrases = denied_phrases();
    let mut i: usize = 0;
    while i < phrases.len()
        invariant
            i <= phrases.len(),
            views(phrases@) == denylist(),
            forall|k: int| 0 <= k < i ==> !contains(t@, #[trigger] denylist()[k]),
        decreases phrases.len() - i,
    {
        assert(phrases@[i as int]@ == denylist()[i as int]);
        if contains_seq(t, &phrases[i]) {
            return false;
        }
        i += 1;
    }
    assert(views(phrases@).len() == phrases@.len());
    let mut k: usize = 0;
    while k < t.len()
        invariant
            k <= t.len(),
            t@.len() > 0,
            forall|k: int| 0 <= k < denylist().len() ==> !contains(t@, #[trigger] denylist()[k]),
            forall|j: int| 0 <= j < k ==> is_punct(#[trigger] t@[j]),
        decreases t.len() - k,
    {
        if !is_punct_char(t[k]) {
            assert(!is_punct(t@[k as int]));
            return true;
        }
        k += 1;
    }
    false
}

fn first_arrow(lines: &Vec<Vec<char>>, marker: &Vec<char>) -> (r: Option<usize>)
    requires
        marker@ == arrow(),
    ensures
        match r {
            Some(i) => first_arrow_line(views(lines@), 0) == Some(i as int) && i < lines.len(),
            None => first_arrow_line(views(lines@), 0) is None,
        },
{
    let mut i: usize = 0;
    while i < lines.len()
        invariant
            i <= lines.len(),
            marker@ == arrow(),
            first_arrow_line(views(lines@), 0) == first_arrow_line(views(lines@), i as int),
        decreases lines.len() - i,
    {
        if contains_seq(&lines[i], marker) {
            return Some(i);
        }
        i += 1;
    }
    None
}

fn copy_range(v: &Vec<char>, from: usize, to: usize) -> (r: Vec<char>)
    requires
        from <= to <= v.len(),
    ensures
        r@ == v@.subrange(from as int, to as int),
{
    let mut r: Vec<char> = Vec::new();
    let mut k: usize = from;
    while k < to
        invariant
            from <= k <= to <= v.len(),
            r@ == v@.subrange(from as int, k as int),
        decreases to - k,
    {
        r.push(v[k]);
        k += 1;
        assert(r@ =~= v@.subrange(from as int, k as int));
    }
    r
}

fn split_range(line: &Vec<char>) -> (r: Option<(Vec<char>, Vec<char>)>)
    ensures
        match (r, range_parts(line@)) {
            (Some(p), Some(q)) => p.0@ == q.0 && p.1@ == q.1,
            (None, None) => true,
            _ => false,
        },
{
    let sep = chars_of(" --> ");
    proof {
        reveal_strlit(" --> ");
    }
    match find(line, &sep, 0) {
        None => None,
        Some(p) => {
            proof {
                lemma_find_from_found(line@, sep@, 0);
                assert(occurs_at(line@, sep@, p as int));
                assert(p + sep@.len() <= line@.len());
            }
            let n = line.len();
            assert(p + sep.len() <= n);
            let after = p + sep.len();
            let start = copy_range(line, 0, p);
            let rest = copy_range(line, after, line.len());
            assert(rest@ =~= line@.skip(p + arrow_sep().len()));
            assert(start@ =~= line@.take(p as int));
            let end = match find(&rest, &sep, 0) {
                Some(q) => {
                    proof {
                        lemma_find_from_found(rest@, sep@, 0);
                    }
                    let e = copy_range(&rest, 0, q);
                    assert(e@ =~= rest@.take(q as int));
                    e
                },
                None => rest,
            };
            Some((start, end))
        },
    }
}

impl Subtitle {
    /// The start, end and text of the subtitle.
    pub open spec fn entry(self) -> Entry {
        (self.start_time, self.end_time, self.text@)
    }

    /// Reads a subtitle from the lines of a block (see `read_block`).
    pub fn new(lines: &Vec<&str>) -> (r: Result<Self, SrtError>)
        ensures
            built_as(r, read_block(lines@.map_values(|s: &str| s@))),
    {
        let mut v: Vec<Vec<char>> = Vec::new();
        let mut i: usize = 0;
        while i < lines.len()
            invariant
                i <= lines.len(),
                v.len() == i,
                forall|j: int| 0 <= j < i ==> (#[trigger] v@[j])@ == lines@[j]@,
            decreases lines.len() - i,
        {
            let c = chars_of(lines[i]);
            v.push(c);
            i += 1;
        }
        assert(views(v@) =~= lines@.map_values(|s: &str| s@));
        Self::from_lines(&v)
    }

    /// Reads a subtitle from the characters of the lines of a block (see `read_block`).
    pub fn from_lines(lines: &Vec<Vec<char>>) -> (r: Result<Self, SrtError>)
        ensures
            built_as(r, read_block(views(lines@))),
    {
        let marker = chars_of("-->");
        let ts_i = match first_arrow(lines, &marker) {
            Some(i) => i,
            None => {
                return Err(SrtError::NoTimestamp);
            },
        };
        if ts_i + 1 >= lines.len() {
            return Err(SrtError::NoText);
        }
        assert(views(lines@)[ts_i as int] == lines@[ts_i as int]@);
        assert(views(lines@)[ts_i + 1] == lines@[ts_i + 1]@);
        let (start_s, end_s) = match split_range(&lines[ts_i]) {
            Some(p) => p,
            None => {
                return Err(SrtError::Format);
            },
        };
        let start_time = match Timestamp::from_chars(&start_s) {
            Ok(t) => t,
            Err(_) => {
                return Err(SrtError::Format);
            },
        };
        let end_time = match Timestamp::from_chars(&end_s) {
            Ok(t) => t,
            Err(_) => {
                return Err(SrtError::Format);
            },
        };
        let text = trimmed(&lines[ts_i + 1]);
        if !valid_text(&text) {
            return Err(SrtError::InvalidSubtitle);
        }
        Ok(Subtitle { start_time, end_time, text: string_of(&text) })
    }

    /// The canonical form: `start --> end`, a line break, the text, a line break.
    pub fn to_string(&self) -> (r: String)
        ensures
            r@ == render(self.entry()),
    {
        let mut v: Vec<char> = Vec::new();
        self.push_rendering(&mut v);
        assert(v@ =~= render(self.entry()));
        string_of(&v)
    }

    /// Appends the canonical form (see `to_string`).
    pub fn push_rendering(&self, out: &mut Vec<char>)
        ensures
            final(out)@ == old(out)@ + render(self.entry()),
    {
        let ghost start = out@;
        self.start_time.push_text(out);
        let sep = chars_of(" --> ");
        let mut k: usize = 0;
        let ghost before = out@;
        while k < sep.len()
            invariant
                k <= sep.len(),
                out@ == before + sep@.take(k as int),
            decreases sep.len() - k,
        {
            out.push(sep[k]);
            k += 1;
            assert(out@ =~= before + sep@.take(k as int));
        }
        assert(sep@.take(k as int) =~= sep@);
        self.end_time.push_text(out);
        out.push('\n');
        let text = chars_of(self.text.as_str());
        let mut j: usize = 0;
        let ghost mid = out@;
        while j < text.len()
            invariant
                j <= text.len(),
                out@ == mid + text@.take(j as int),
            decreases text.len() - j,
        {
            out.push(text[j]);
            j += 1;
            assert(out@ =~= mid + text@.take(j as int));
        }
        assert(text@.take(j as int) =~= text@);
        out.push('\n');
        assert(out@ =~= start + render(self.entry()));
    }

    /// Whether the text is worth keeping (see `is_valid_text`).
    pub fn is_valid(&self) -> (r: bool)
        ensures
            r == is_valid_text(self.text@),
    {
        let t = chars_of(self.text.as_str());
        valid_text(&t)
    }

    /// How long the subtitle stays on screen, in whole milliseconds; zero where it ends
    /// before it starts. A `Duration` counts at most `u64::MAX` milliseconds this way.
    pub fn duration(&self) -> (r: Duration)
        requires
            self.end_time.millis() - self.start_time.millis() <= u64::MAX,
        ensures
            whole_millis(r) == self.span(),
            whole_nanos(r) == self.span() * 1_000_000,
    {
        let start = self.start_time.to_millis();
        let end = self.end_time.to_millis();
        let span: u64 = if end >= start {
            (end - start) as u64
        } else {
            0
        };
        Duration::from_millis(span)
    }

    /// The milliseconds from start to end; zero where the end comes first.
    pub open spec fn span(self) -> int {
        if self.end_time.millis() >= self.start_time.millis() {
            self.end_time.millis() - self.start_time.millis()
        } else {
            0
        }
    }

    /// Shifts the start time as `Timestamp::move_ts` does; the end and the text stay.
    pub fn move_start(&mut self, delta: Duration, direction: Direction) -> (r: Result<(), SrtError>)
        ensures
            final(self).end_time == old(self).end_time,
            final(self).text == old(self).text,
            r is Ok <==> (whole_millis(delta) <= i64::MAX && shift_target(
                old(self).start_time.millis(),
                whole_millis(delta) as int,
                direction,
            ) <= MAX_MILLIS),
            r is Ok ==> final(self).start_time == Timestamp::of_millis(
                shift_target(old(self).start_time.millis(), whole_millis(delta) as int, direction)
                    as nat,
            ),
            r is Err ==> r == Err::<(), SrtError>(SrtError::Overflow) && final(self).start_time
                == old(self).start_time,
    {
        self.start_time.move_ts(delta, direction)
    }
}

} // verus!
