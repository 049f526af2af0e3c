//! The description parser: timestamped lines to ordered events with
//! durations.

use vstd::prelude::*;

use crate::episode_number::{is_integer_number, EpisodeNumber};
use crate::models::PkaEvent;
use crate::search::{is_ranking, order_by_keys, rank_key, ranking, RankKey};
use crate::text::{
    chars_of, is_unicode_ws, is_unicode_ws_exec, leading_ws, string_from_chars, trim, trim_chars, views,
};

verus! {

/// Why a description, or one fragment of it, yields no event.
#[derive(Debug, Clone, Copy, PartialEq, Eq, Structural)]
pub enum TimelineError {
    /// A time fragment does not have one or two separators, or one of its
    /// fields is not a valid number of hours, minutes or seconds.
    UnknownTimestamp,
    /// No line of the description holds a timestamped event.
    NoEvents,
}

pub open spec fn is_digit(c: char) -> bool {
    '0' <= c <= '9'
}

pub open spec fn digit_value(c: char) -> int {
    c as int - '0' as int
}

/// `:` and `;` are interchangeable separators inside a time fragment.
pub open spec fn is_time_sep(c: char) -> bool {
    c == ':' || c == ';'
}

/// Splits `s` at every character that `sep` accepts, keeping empty parts, as
/// `str::split` does: one more part than there are separators.
pub open spec fn split_keep(s: Seq<char>, sep: spec_fn(char) -> bool) -> Seq<Seq<char>>
    decreases s.len(),
{
    if s.len() == 0 {
        seq![seq![]]
    } else {
        let prev = split_keep(s.drop_last(), sep);
        if sep(s.last()) {
            prev.push(seq![])
        } else {
            prev.update(prev.len() - 1, prev.last().push(s.last()))
        }
    }
}

pub proof fn lemma_split_keep_nonempty(s: Seq<char>, sep: spec_fn(char) -> bool)
    ensures
        split_keep(s, sep).len() >= 1,
    decreases s.len(),
{
    if s.len() > 0 {
        lemma_split_keep_nonempty(s.drop_last(), sep);
    }
}

/// `s` with every `;` written as `:`.
pub open spec fn colon_seps(s: Seq<char>) -> Seq<char> {
    Seq::new(s.len(), |i: int| if s[i] == ';' { ':' } else { s[i] })
}

/// `s` without its trailing colons.
pub open spec fn trim_colons(s: Seq<char>) -> Seq<char>
    decreases s.len(),
{
    if s.len() > 0 && s.last() == ':' {
        trim_colons(s.drop_last())
    } else {
        s
    }
}

/// Number of colons in `s`.
pub open spec fn colons(s: Seq<char>) -> nat
    decreases s.len(),
{
    if s.len() == 0 {
        0
    } else {
        colons(s.drop_last()) + if s.last() == ':' {
            1nat
        } else {
            0nat
        }
    }
}

/// `t` with a zero before a single leading digit that a colon follows.
pub open spec fn pad_first_field(t: Seq<char>) -> Seq<char> {
    if t.len() >= 2 && is_digit(t[0]) && t[1] == ':' {
        seq!['0'] + t
    } else {
        t
    }
}

/// The clock text (`HH:MM:SS`) that a time fragment stands for: `;` read
/// as `:`, trailing separators dropped, a single-digit first field padded
/// with a zero, and `00:` put before a fragment of minutes and seconds. A
/// fragment with fewer than one or more than two separators stands for none.
pub open spec fn clock_text(raw: Seq<char>) -> Option<Seq<char>> {
    let t = trim_colons(colon_seps(raw));
    if colons(t) == 1 {
        Some(seq!['0', '0', ':'] + pad_first_field(t))
    } else if colons(t) == 2 {
        Some(pad_first_field(t))
    } else {
        None
    }
}

/// The seconds after midnight of a clock text, as chrono reads it with the
/// format `%H:%M:%S`; `None` where chrono refuses the text.
pub uninterp spec fn hms_seconds(s: Seq<char>) -> Option<int>;

/// The value of a text of exactly `HH:MM:SS`, two digits each, within the
/// ranges of a clock.
pub open spec fn canonical_clock(s: Seq<char>) -> Option<int> {
    if s.len() == 8 && is_digit(s[0]) && is_digit(s[1]) && s[2] == ':' && is_digit(s[3])
        && is_digit(s[4]) && s[5] == ':' && is_digit(s[6]) && is_digit(s[7]) {
        let h = 10 * digit_value(s[0]) + digit_value(s[1]);
        let m = 10 * digit_value(s[3]) + digit_value(s[4]);
        let sec = 10 * digit_value(s[6]) + digit_value(s[7]);
        if h < 24 && m < 60 && sec < 60 {
            Some(3600 * h + 60 * m + sec)
        } else {
            None
        }
    } else {
        None
    }
}

/// Relies on chrono's `NaiveTime::parse_from_str` with the format
/// `%H:%M:%S` and on `Timelike::num_seconds_from_midnight`: a time of day is
/// fewer than 86400 non-leap seconds past midnight, and a zero-padded
/// `HH:MM:SS` within the clock's ranges reads as those hours, minutes and
/// seconds.
#[verifier::external_body]
fn parse_clock(s: &str) -> (r: Option<u32>)
    ensures
        match r {
            Some(v) => hms_seconds(s@) == Some(v as int),
            None => hms_seconds(s@) is None,
        },
        r is Some ==> r->0 < 86400,
        canonical_clock(s@) is Some ==> r == Some(canonical_clock(s@)->0 as u32),
{
    chrono::NaiveTime::parse_from_str(s, "%H:%M:%S").ok().map(
        |t| chrono::Timelike::num_seconds_from_midnight(&t),
    )
}

/// The offset in seconds that a time fragment denotes: its clock text as
/// chrono reads it.
pub open spec fn timestamp_seconds(raw: Seq<char>) -> Option<int> {
    match clock_text(raw) {
        Some(t) => hms_seconds(t),
        None => None,
    }
}

fn is_digit_exec(c: char) -> (r: bool)
    ensures
        r == is_digit(c),
{
    '0' <= c && c <= '9'
}

fn is_time_sep_exec(c: char) -> (r: bool)
    ensures
        r == is_time_sep(c),
{
    c == ':' || c == ';'
}

/// Splits `t` at each line feed.
fn split_lines(t: &Vec<char>) -> (r: Vec<Vec<char>>)
    ensures
        views(r@) == split_keep(t@, |c: char| c == '\n'),
{
    let ghost sep = |c: char| c == '\n';
    let mut parts: Vec<Vec<char>> = Vec::new();
    parts.push(Vec::new());
    assert(views(parts@) =~= split_keep(t@.take(0), sep));
    let mut i: usize = 0;
    while i < t.len()
        invariant
            i <= t@.len(),
            sep == (|c: char| c == '\n'),
            views(parts@) == split_keep(t@.take(i as int), sep),
        decreases t.len() - i,
    {
        let c = t[i];
        let ghost prev = split_keep(t@.take(i as int), sep);
        assert(t@.take(i + 1).drop_last() =~= t@.take(i as int));
        proof {
            lemma_split_keep_nonempty(t@.take(i as int), sep);
        }
        let ghost before = parts@;
        if c == '\n' {
            parts.push(Vec::new());
            assert(views(parts@) =~= prev.push(seq![])) by {
                assert forall|k: int| 0 <= k < prev.len() implies views(parts@)[k] == prev[k] by {
                    assert(views(before)[k] == prev[k]);
                }
            }
        } else {
            let mut last = parts.pop().unwrap();
            last.push(c);
            parts.push(last);
            assert(views(parts@) =~= prev.update(prev.len() - 1, prev.last().push(c))) by {
                assert forall|k: int| 0 <= k < prev.len() - 1 implies views(parts@)[k]
                    == prev[k] by {
                    assert(views(before)[k] == prev[k]);
                }
                assert(views(before)[prev.len() - 1] == prev.last());
            }
        }
        i = i + 1;
    }
    assert(t@.take(t@.len() as int) =~= t@);
    parts
}

/// Normalizes a time fragment to seconds since the start of the episode:
/// `1:23` is 83 seconds and `1;02;03` is 3723. A fragment with fewer than
/// one or more than two separators, or whose clock text chrono refuses, is
/// refused.
pub fn normalize_timestamp(raw: &str) -> (r: Result<i32, TimelineError>)
    ensures
        match timestamp_seconds(raw@) {
            Some(v) => 0 <= v < 86400 && r == Ok::<i32, TimelineError>(v as i32),
            None => r == Err::<i32, TimelineError>(TimelineError::UnknownTimestamp),
        },
        r is Ok ==> 0 <= r->Ok_0 < 86400,
        clock_text(raw@) is Some && canonical_clock(clock_text(raw@)->0) is Some ==> r == Ok::<
            i32,
            TimelineError,
        >(canonical_clock(clock_text(raw@)->0)->0 as i32),
{
    let chars = chars_of(raw);
    normalize_fragment(&chars)
}

fn normalize_fragment(raw: &Vec<char>) -> (r: Result<i32, TimelineError>)
    ensures
        match timestamp_seconds(raw@) {
            Some(v) => 0 <= v < 86400 && r == Ok::<i32, TimelineError>(v as i32),
            None => r == Err::<i32, TimelineError>(TimelineError::UnknownTimestamp),
        },
        r is Ok ==> 0 <= r->Ok_0 < 86400,
        clock_text(raw@) is Some && canonical_clock(clock_text(raw@)->0) is Some ==> r == Ok::<
            i32,
            TimelineError,
        >(canonical_clock(clock_text(raw@)->0)->0 as i32),
{
    let ghost mapped = colon_seps(raw@);
    let mut end: usize = raw.len();
    assert(mapped.take(raw@.len() as int) =~= mapped);
    while end > 0 && is_time_sep_exec(raw[end - 1])
        invariant
            end <= raw@.len(),
            mapped == colon_seps(raw@),
            trim_colons(mapped) == trim_colons(mapped.take(end as int)),
        decreases end,
    {
        assert(mapped.take(end as int).drop_last() =~= mapped.take(end - 1));
        end = end - 1;
    }
    let mut t: Vec<char> = Vec::new();
    let mut n: usize = 0;
    let mut i: usize = 0;
    while i < end
        invariant
            i <= end <= raw@.len(),
            mapped == colon_seps(raw@),
            t@ == mapped.take(i as int),
            n == colons(t@),
            n <= i,
        decreases end - i,
    {
        let c = if is_time_sep_exec(raw[i]) {
            ':'
        } else {
            raw[i]
        };
        t.push(c);
        assert(t@ =~= mapped.take(i + 1));
        assert(t@.drop_last() =~= mapped.take(i as int));
        if c == ':' {
            n = n + 1;
        }
        i = i + 1;
    }
    assert(end == 0 || mapped.take(end as int).last() != ':');
    assert(trim_colons(mapped.take(end as int)) == mapped.take(end as int));
    let ghost tt = t@;
    if n != 1 && n != 2 {
        return Err(TimelineError::UnknownTimestamp);
    }
    let mut text: Vec<char> = Vec::new();
    if n == 1 {
        text.push('0');
        text.push('0');
        text.push(':');
    }
    let ghost head = text@;
    if t.len() >= 2 && is_digit_exec(t[0]) && t[1] == ':' {
        text.push('0');
    }
    let ghost head2 = text@;
    let mut j: usize = 0;
    while j < t.len()
        invariant
            j <= t@.len(),
            text@ == head2 + t@.take(j as int),
        decreases t.len() - j,
    {
        text.push(t[j]);
        assert(text@ =~= head2 + t@.take(j + 1));
        j = j + 1;
    }
    assert(t@.take(t@.len() as int) =~= t@);
    assert(clock_text(raw@) == Some(text@)) by {
        assert(trim_colons(colon_seps(raw@)) == tt);
        if n == 1 {
            assert(text@ =~= seq!['0', '0', ':'] + pad_first_field(tt));
        } else {
            assert(text@ =~= pad_first_field(tt));
        }
    }
    match parse_clock(string_from_chars(&text).as_str()) {
        Some(v) => Ok(v as i32),
        None => Err(TimelineError::UnknownTimestamp),
    }
}

/// `s` with every occurrence of `from` replaced by `to`, scanning left to
/// right without overlap, as `str::replace` does.
pub open spec fn replace_all(s: Seq<char>, from: Seq<char>, to: Seq<char>) -> Seq<char>
    decreases s.len(),
{
    if s.len() == 0 {
        seq![]
    } else if from.len() > 0 && from.len() <= s.len() && s.take(from.len() as int) == from {
        to + replace_all(s.skip(from.len() as int), from, to)
    } else {
        seq![s[0]] + replace_all(s.skip(1), from, to)
    }
}

/// Whether `from` occurs in `s` at position `i`.
fn occurs_at_exec(s: &Vec<char>, i: usize, from: &Vec<char>) -> (r: bool)
    requires
        i <= s.len(),
    ensures
        r == (from.len() <= s.len() - i && s@.skip(i as int).take(from.len() as int) == from@),
{
    if from.len() > s.len() - i {
        return false;
    }
    let mut j: usize = 0;
    while j < from.len()
        invariant
            j <= from.len() <= s.len() - i,
            forall|k: int| 0 <= k < j ==> s@[i + k] == from@[k],
        decreases from.len() - j,
    {
        if s[i + j] != from[j] {
            assert(s@.skip(i as int).take(from.len() as int)[j as int] != from@[j as int]);
            return false;
        }
        j = j + 1;
    }
    assert(s@.skip(i as int).take(from.len() as int) =~= from@);
    true
}

/// `s` with every occurrence of `from` replaced by `to`.
pub fn replace_all_exec(s: &Vec<char>, from: &Vec<char>, to: &Vec<char>) -> (r: Vec<char>)
    ensures
        r@ == replace_all(s@, from@, to@),
{
    let mut out: Vec<char> = Vec::new();
    let mut i: usize = 0;
    assert(s@.skip(0) =~= s@);
    while i < s.len()
        invariant
            i <= s.len(),
            replace_all(s@, from@, to@) == out@ + replace_all(s@.skip(i as int), from@, to@),
        decreases s.len() - i,
    {
        let ghost rest = s@.skip(i as int);
        if from.len() > 0 && occurs_at_exec(s, i, from) {
            assert(rest.skip(from.len() as int) =~= s@.skip(i + from.len()));
            let mut j: usize = 0;
            let ghost out0 = out@;
            while j < to.len()
                invariant
                    j <= to.len(),
                    out@ == out0 + to@.take(j as int),
                decreases to.len() - j,
            {
                out.push(to[j]);
                assert(out@ =~= out0 + to@.take(j + 1));
                j = j + 1;
            }
            assert(to@.take(to.len() as int) =~= to@);
            assert(out@ + replace_all(s@.skip(i + from.len()), from@, to@) =~= out0 + (to@
                + replace_all(rest.skip(from.len() as int), from@, to@)));
            i = i + from.len();
        } else {
            assert(rest.skip(1) =~= s@.skip(i + 1));
            let ghost out0 = out@;
            out.push(s[i]);
            assert(out@ + replace_all(s@.skip(i + 1), from@, to@) =~= out0 + (seq![rest[0]]
                + replace_all(rest.skip(1), from@, to@)));
            i = i + 1;
        }
    }
    assert(out@ + replace_all(s@.skip(i as int), from@, to@) =~= out@);
    out
}

/// A description with surrounding whitespace removed and known mis-encoded
/// punctuation repaired: the right single quote and its mis-decoded form
/// become an apostrophe, and the mis-decoded ellipsis, en dash and double
/// quotes become the characters they stand for.
pub open spec fn clean_description_spec(raw: Seq<char>) -> Seq<char> {
    let s0 = trim(raw);
    let s1 = replace_all(s0, seq!['\u{2019}'], seq!['\'']);
    let s2 = replace_all(s1, seq!['\u{e2}', '\u{20ac}', '\u{2122}'], seq!['\'']);
    let s3 = replace_all(s2, seq!['\u{e2}', '\u{20ac}', '\u{a6}'], seq!['\u{2026}']);
    let s4 = replace_all(s3, seq!['\u{e2}', '\u{20ac}', '\u{201c}'], seq!['\u{2013}']);
    let s5 = replace_all(s4, seq!['\u{e2}', '\u{20ac}', '\u{153}'], seq!['\u{201c}']);
    replace_all(s5, seq!['\u{e2}', '\u{20ac}'], seq!['\u{201d}'])
}

/// A description text with surrounding whitespace removed and mis-encoded
/// punctuation repaired.
pub fn clean_description(raw: &str) -> (r: String)
    ensures
        r@ == clean_description_spec(raw@),
{
    string_from_chars(&clean_description_chars(&chars_of(raw)))
}

fn seq_of(chars: &[char]) -> (r: Vec<char>)
    ensures
        r@ == chars@,
{
    let mut r: Vec<char> = Vec::new();
    let mut i: usize = 0;
    while i < chars.len()
        invariant
            i <= chars@.len(),
            r@ == chars@.take(i as int),
        decreases chars.len() - i,
    {
        r.push(chars[i]);
        assert(r@ =~= chars@.take(i + 1));
        i = i + 1;
    }
    assert(chars@.take(chars@.len() as int) =~= chars@);
    r
}

pub fn clean_description_chars(raw: &Vec<char>) -> (r: Vec<char>)
    ensures
        r@ == clean_description_spec(raw@),
{
    let apostrophe = seq_of(&['\'']);
    let s0 = trim_chars(raw);
    let s1 = replace_all_exec(&s0, &seq_of(&['\u{2019}']), &apostrophe);
    let s2 = replace_all_exec(&s1, &seq_of(&['\u{e2}', '\u{20ac}', '\u{2122}']), &apostrophe);
    let s3 = replace_all_exec(&s2, &seq_of(&['\u{e2}', '\u{20ac}', '\u{a6}']), &seq_of(&['\u{2026}']));
    let s4 = replace_all_exec(&s3, &seq_of(&['\u{e2}', '\u{20ac}', '\u{201c}']), &seq_of(&['\u{2013}']));
    let s5 = replace_all_exec(&s4, &seq_of(&['\u{e2}', '\u{20ac}', '\u{153}']), &seq_of(&['\u{201c}']));
    let r = replace_all_exec(&s5, &seq_of(&['\u{e2}', '\u{20ac}']), &seq_of(&['\u{201d}']));
    proof {
        assert(['\''].view() =~= seq!['\'']);
        assert(['\u{2019}'].view() =~= seq!['\u{2019}']);
        assert(['\u{e2}', '\u{20ac}', '\u{2122}'].view() =~= seq!['\u{e2}', '\u{20ac}', '\u{2122}']);
        assert(['\u{e2}', '\u{20ac}', '\u{a6}'].view() =~= seq!['\u{e2}', '\u{20ac}', '\u{a6}']);
        assert(['\u{2026}'].view() =~= seq!['\u{2026}']);
        assert(['\u{e2}', '\u{20ac}', '\u{201c}'].view() =~= seq!['\u{e2}', '\u{20ac}', '\u{201c}']);
        assert(['\u{2013}'].view() =~= seq!['\u{2013}']);
        assert(['\u{e2}', '\u{20ac}', '\u{153}'].view() =~= seq!['\u{e2}', '\u{20ac}', '\u{153}']);
        assert(['\u{201c}'].view() =~= seq!['\u{201c}']);
        assert(['\u{e2}', '\u{20ac}'].view() =~= seq!['\u{e2}', '\u{20ac}']);
        assert(['\u{201d}'].view() =~= seq!['\u{201d}']);
    }
    r
}

pub open spec fn is_fragment_char(c: char) -> bool {
    is_digit(c) || is_time_sep(c)
}

pub open spec fn is_gap_char(c: char) -> bool {
    is_unicode_ws(c) || c == '-'
}

/// Length of the longest prefix of `s` of fragment characters.
pub open spec fn fragment_len(s: Seq<char>) -> nat
    decreases s.len(),
{
    if s.len() > 0 && is_fragment_char(s[0]) {
        1 + fragment_len(s.drop_first())
    } else {
        0
    }
}

/// Length of the longest prefix of `s` of whitespace and dashes.
pub open spec fn gap_len(s: Seq<char>) -> nat
    decreases s.len(),
{
    if s.len() > 0 && is_gap_char(s[0]) {
        1 + gap_len(s.drop_first())
    } else {
        0
    }
}

/// The event a description line holds, as its offset in seconds and its
/// cleaned text. The line, after leading whitespace, starts with a time
/// fragment (a digit, then digits and separators), then whitespace and
/// dashes, then the text, which must not be empty.
pub open spec fn parse_line(line: Seq<char>) -> Option<(int, Seq<char>)> {
    let s = line.skip(leading_ws(line) as int);
    let n = fragment_len(s);
    if n == 0 || !is_digit(s[0]) {
        None
    } else {
        match timestamp_seconds(s.take(n as int)) {
            None => None,
            Some(secs) => {
                let rest = s.skip(n as int);
                let text = rest.skip(gap_len(rest) as int);
                if text.len() == 0 {
                    None
                } else {
                    Some((secs, clean_description_spec(text)))
                }
            },
        }
    }
}

/// The events of a sequence of lines, in the order of the lines; lines that
/// hold no event are skipped.
pub open spec fn collect_events(lines: Seq<Seq<char>>) -> Seq<(int, Seq<char>)>
    decreases lines.len(),
{
    if lines.len() == 0 {
        seq![]
    } else {
        let prev = collect_events(lines.drop_last());
        match parse_line(lines.last()) {
            Some(ev) => prev.push(ev),
            None => prev,
        }
    }
}

/// The provisional events of a description, one per line that holds one.
pub open spec fn provisional_events(data: Seq<char>) -> Seq<(int, Seq<char>)> {
    collect_events(split_keep(data, |c: char| c == '\n'))
}

/// The order of provisional events: by offset, ties kept in description order.
pub open spec fn offset_key(p: Seq<(int, Seq<char>)>) -> spec_fn(int) -> (u32, i32) {
    |i: int| (0u32, p[i].0 as i32)
}

/// The provisional events of a description sorted by offset (stably).
pub open spec fn sorted_events(data: Seq<char>) -> Seq<(int, Seq<char>)> {
    let p = provisional_events(data);
    let order = ranking(p.len() as int, |i: int| true, offset_key(p));
    Seq::new(order.len(), |k: int| p[order[k] as int])
}

/// The duration of the event at `k` of events sorted by offset: the gap to
/// the next event, or to the end of the episode for the last one, and never
/// less than one second.
pub open spec fn event_duration(ev: Seq<(int, Seq<char>)>, k: int, episode_length: int) -> int {
    let end = if k + 1 < ev.len() {
        ev[k + 1].0
    } else {
        episode_length
    };
    if end - ev[k].0 < 1 {
        1
    } else {
        end - ev[k].0
    }
}

pub open spec fn digit_char(d: nat) -> char {
    seq!['0', '1', '2', '3', '4', '5', '6', '7', '8', '9'][d as int]
}

/// The decimal digits of `n`.
pub open spec fn decimal(n: nat) -> Seq<char>
    decreases n,
{
    if n < 10 {
        seq![digit_char(n)]
    } else {
        decimal(n / 10).push(digit_char(n % 10))
    }
}

/// `s` padded on the left with zeros to at least three characters.
pub open spec fn pad3(s: Seq<char>) -> Seq<char> {
    if s.len() < 3 {
        Seq::new((3 - s.len()) as nat, |i: int| '0') + s
    } else {
        s
    }
}

/// The identifier of the event at offset `ts` of episode `episode`.
pub open spec fn event_id_spec(episode: nat, ts: nat) -> Seq<char> {
    pad3(decimal(episode)) + seq!['-'] + decimal(ts)
}

fn leading_ws_exec(s: &Vec<char>) -> (r: usize)
    ensures
        r == leading_ws(s@),
{
    let mut i: usize = 0;
    assert(s@.skip(0) =~= s@);
    while i < s.len() && is_unicode_ws_exec(s[i])
        invariant
            i <= s@.len(),
            leading_ws(s@) == i + leading_ws(s@.skip(i as int)),
        decreases s.len() - i,
    {
        assert(s@.skip(i as int).drop_first() =~= s@.skip(i + 1));
        i = i + 1;
    }
    i
}

fn run_char(c: char, gap: bool) -> (r: bool)
    ensures
        !gap ==> r == is_fragment_char(c),
        gap ==> r == is_gap_char(c),
{
    if gap {
        is_unicode_ws_exec(c) || c == '-'
    } else {
        is_digit_exec(c) || is_time_sep_exec(c)
    }
}

/// Length of the run of fragment characters (`gap` false) or of gap
/// characters (`gap` true) that starts `s`.
fn run_len(s: &Vec<char>, gap: bool) -> (r: usize)
    ensures
        !gap ==> r == fragment_len(s@),
        gap ==> r == gap_len(s@),
{
    let mut i: usize = 0;
    assert(s@.skip(0) =~= s@);
    while i < s.len() && run_char(s[i], gap)
        invariant
            i <= s@.len(),
            !gap ==> fragment_len(s@) == i + fragment_len(s@.skip(i as int)),
            gap ==> gap_len(s@) == i + gap_len(s@.skip(i as int)),
        decreases s.len() - i,
    {
        assert(s@.skip(i as int).drop_first() =~= s@.skip(i + 1));
        i = i + 1;
    }
    assert(i < s@.len() ==> s@.skip(i as int)[0] == s@[i as int]);
    assert(i == s@.len() ==> s@.skip(i as int).len() == 0);
    i
}

fn skip_chars(s: &Vec<char>, n: usize) -> (r: Vec<char>)
    requires
        n <= s.len(),
    ensures
        r@ == s@.skip(n as int),
{
    let mut r: Vec<char> = Vec::new();
    let mut i: usize = n;
    while i < s.len()
        invariant
            n <= i <= s@.len(),
            r@ == s@.subrange(n as int, i as int),
        decreases s.len() - i,
    {
        r.push(s[i]);
        assert(r@ =~= s@.subrange(n as int, i + 1));
        i = i + 1;
    }
    assert(r@ =~= s@.skip(n as int));
    r
}

fn take_chars(s: &Vec<char>, n: usize) -> (r: Vec<char>)
    requires
        n <= s.len(),
    ensures
        r@ == s@.take(n as int),
{
    let mut r: Vec<char> = Vec::new();
    let mut i: usize = 0;
    while i < n
        invariant
            i <= n <= s@.len(),
            r@ == s@.take(i as int),
        decreases n - i,
    {
        r.push(s[i]);
        assert(r@ =~= s@.take(i + 1));
        i = i + 1;
    }
    r
}

/// The event a description line holds, if any.
fn parse_line_exec(line: &Vec<char>) -> (r: Option<(i32, Vec<char>)>)
    ensures
        match parse_line(line@) {
            None => r is None,
            Some(ev) => r is Some && (r->0).0 == ev.0 && (r->0).1@ == ev.1,
        },
        r is Some ==> 0 <= (r->0).0 < 86400,
{
    let lead = leading_ws_exec(line);
    proof {
        lemma_leading_ws_bound(line@);
    }
    let s = skip_chars(line, lead);
    let n = run_len(&s, false);
    proof {
        lemma_fragment_len_bound(s@);
    }
    if n == 0 || !is_digit_exec(s[0]) {
        return None;
    }
    let frag = take_chars(&s, n);
    match normalize_fragment(&frag) {
        Err(_) => None,
        Ok(secs) => {
            let rest = skip_chars(&s, n);
            let g = run_len(&rest, true);
            proof {
                lemma_gap_len_bound(rest@);
            }
            let text = skip_chars(&rest, g);
            if text.len() == 0 {
                None
            } else {
                Some((secs, clean_description_chars(&text)))
            }
        },
    }
}

proof fn lemma_leading_ws_bound(s: Seq<char>)
    ensures
        leading_ws(s) <= s.len(),
    decreases s.len(),
{
    if s.len() > 0 {
        lemma_leading_ws_bound(s.drop_first());
    }
}

proof fn lemma_fragment_len_bound(s: Seq<char>)
    ensures
        fragment_len(s) <= s.len(),
        fragment_len(s) > 0 ==> is_fragment_char(s[0]),
    decreases s.len(),
{
    if s.len() > 0 {
        lemma_fragment_len_bound(s.drop_first());
    }
}

proof fn lemma_gap_len_bound(s: Seq<char>)
    ensures
        gap_len(s) <= s.len(),
    decreases s.len(),
{
    if s.len() > 0 {
        lemma_gap_len_bound(s.drop_first());
    }
}

/// The events of the lines of a description, in line order.
fn collect_events_exec(lines: &Vec<Vec<char>>) -> (r: Vec<(i32, Vec<char>)>)
    ensures
        rows_match(r@, collect_events(views(lines@))),
        forall|k: int| 0 <= k < r.len() ==> 0 <= #[trigger] r[k].0 < 86400,
{
    let mut r: Vec<(i32, Vec<char>)> = Vec::new();
    let mut i: usize = 0;
    while i < lines.len()
        invariant
            i <= lines@.len(),
            r.len() == collect_events(views(lines@).take(i as int)).len(),
            forall|k: int|
                0 <= k < r.len() ==> #[trigger] r[k].0 == collect_events(views(lines@).take(i as int))[k].0
                    && r[k].1@ == collect_events(views(lines@).take(i as int))[k].1,
            forall|k: int| 0 <= k < r.len() ==> 0 <= #[trigger] r[k].0 < 86400,
        decreases lines.len() - i,
    {
        let ghost lv = views(lines@);
        assert(lv.take(i + 1).drop_last() =~= lv.take(i as int));
        assert(lv.take(i + 1).last() == lines@[i as int]@);
        match parse_line_exec(&lines[i]) {
            Some(ev) => {
                r.push(ev);
            },
            None => {},
        }
        i = i + 1;
    }
    assert(views(lines@).take(lines@.len() as int) =~= views(lines@));
    assert(collect_events(views(lines@).take(i as int)) == collect_events(views(lines@)));
    r
}

/// Executable event rows that hold exactly the given offsets and texts.
pub open spec fn rows_match(r: Seq<(i32, Vec<char>)>, evs: Seq<(int, Seq<char>)>) -> bool {
    &&& r.len() == evs.len()
    &&& forall|k: int| 0 <= k < r.len() ==> #[trigger] r[k].0 == evs[k].0 && r[k].1@ == evs[k].1
}

const DIGITS: [char; 10] = ['0', '1', '2', '3', '4', '5', '6', '7', '8', '9'];

/// Appends the decimal digits of `n`.
pub(crate) fn push_decimal(out: &mut Vec<char>, n: u64)
    ensures
        final(out)@ == old(out)@ + decimal(n as nat),
    decreases n,
{
    proof {
        assert(DIGITS@ =~= seq!['0', '1', '2', '3', '4', '5', '6', '7', '8', '9']);
    }
    if n < 10 {
        out.push(DIGITS[n as usize]);
        assert(out@ =~= old(out)@ + decimal(n as nat));
    } else {
        push_decimal(out, n / 10);
        out.push(DIGITS[(n % 10) as usize]);
        assert(out@ =~= old(out)@ + decimal(n as nat));
    }
}

/// The identifier of the event at offset `ts` of episode `episode`: the
/// episode number padded with zeros to three digits, a dash, the offset.
pub fn event_id(episode: u32, ts: u32) -> (r: String)
    ensures
        r@ == event_id_spec(episode as nat, ts as nat),
{
    let mut digits: Vec<char> = Vec::new();
    push_decimal(&mut digits, episode as u64);
    let mut out: Vec<char> = Vec::new();
    let mut pad: usize = digits.len();
    while pad < 3
        invariant
            digits.len() <= pad <= 3 || (digits.len() >= 3 && pad == digits.len()),
            out@ == Seq::new((pad - digits.len()) as nat, |i: int| '0'),
        decreases 3 - pad,
    {
        out.push('0');
        assert(out@ =~= Seq::new((pad + 1 - digits.len()) as nat, |i: int| '0'));
        pad = pad + 1;
    }
    let mut i: usize = 0;
    let ghost prefix = out@;
    while i < digits.len()
        invariant
            i <= digits.len(),
            out@ == prefix + digits@.take(i as int),
        decreases digits.len() - i,
    {
        out.push(digits[i]);
        assert(out@ =~= prefix + digits@.take(i + 1));
        i = i + 1;
    }
    assert(digits@.take(digits@.len() as int) =~= digits@);
    assert(out@ =~= pad3(decimal(episode as nat))) by {
        assert(digits@ =~= decimal(episode as nat));
    }
    out.push('-');
    push_decimal(&mut out, ts as u64);
    assert(out@ =~= event_id_spec(episode as nat, ts as nat));
    string_from_chars(&out)
}

/// `e` is the event at position `k` of the sorted events `ev` of episode
/// `episode`, whose video lasts `length` seconds and was uploaded at `upload`.
pub open spec fn is_timeline_event(
    e: PkaEvent,
    ev: Seq<(int, Seq<char>)>,
    k: int,
    episode: nat,
    length: int,
    upload: i64,
) -> bool {
    &&& e.event_id@ == event_id_spec(episode, ev[k].0 as nat)
    &&& is_integer_number(episode, e.episode_number)
    &&& e.timestamp == ev[k].0
    &&& e.description@ == ev[k].1
    &&& e.length_seconds == event_duration(ev, k, length)
    &&& e.upload_date == upload
}

/// Parses an episode description into its events: one per line that starts
/// with a time fragment and has text after it, sorted by offset (lines with
/// equal offsets keep their order), each lasting until the next one, the last
/// until the end of the episode, and every one at least one second. A
/// description without any such line is refused.
pub fn extract_pka_episode_events(
    episode: u32,
    data: &str,
    ep_length_seconds: i32,
    upload_date: i64,
) -> (r: Result<Vec<PkaEvent>, TimelineError>)
    requires
        episode < 0x100_0000,
    ensures
        provisional_events(data@).len() == 0 <==> r == Err::<Vec<PkaEvent>, TimelineError>(
            TimelineError::NoEvents,
        ),
        provisional_events(data@).len() > 0 ==> r is Ok,
        r is Ok ==> r->Ok_0.len() == sorted_events(data@).len(),
        r is Ok ==> forall|k: int|
            0 <= k < r->Ok_0.len() ==> is_timeline_event(
                #[trigger] r->Ok_0[k],
                sorted_events(data@),
                k,
                episode as nat,
                ep_length_seconds as int,
                upload_date,
            ),
{
    let chars = chars_of(data);
    let lines = split_lines(&chars);
    let rows = collect_events_exec(&lines);
    let ghost p = provisional_events(data@);
    assert(p == collect_events(views(lines@)));
    if rows.len() == 0 {
        return Err(TimelineError::NoEvents);
    }
    assert forall|j: int| 0 <= j < p.len() implies 0 <= #[trigger] p[j].0 < 86400 by {
        assert(rows[j].0 == p[j].0);
    }
    let ghost key = offset_key(p);
    let mut keys: Vec<RankKey> = Vec::new();
    let mut i: usize = 0;
    while i < rows.len()
        invariant
            i <= rows.len(),
            keys.len() == i,
            key == offset_key(p),
            rows_match(rows@, p),
            forall|j: int| 0 <= j < i ==> #[trigger] keys[j] == (0u32, rows[j].0, j as usize),
        decreases rows.len() - i,
    {
        keys.push((0u32, rows[i].0, i));
        i = i + 1;
    }
    assert forall|j: int| 0 <= j < keys.len() implies #[trigger] keys[j] == rank_key(key, keys[j].2) by {
        assert(rows[j].0 == p[j].0);
    }
    let ghost keys_v = keys@;
    let order = order_by_keys(keys, Ghost(key));
    let ghost every = |i: int| true;
    proof {
        assert forall|j: int| 0 <= j < order.len() implies #[trigger] order[j] < p.len() && every(order[j] as int) by {
            assert(order@.contains(order[j]));
            let t = choose|t: int| 0 <= t < keys_v.len() && #[trigger] keys_v[t].2 == order[j];
        }
        assert forall|j: int| 0 <= j < p.len() && #[trigger] every(j) implies order@.contains(j as usize) by {
            assert(keys_v[j].2 == j as usize);
        }
        assert(is_ranking(p.len() as int, every, key, order@));
        crate::search::lemma_ranking_unique(p.len() as int, every, key, order@, ranking(p.len() as int, every, key));
    }
    let ghost sorted = sorted_events(data@);
    assert(sorted.len() == order.len());
    let number = EpisodeNumber::from_integer(episode);
    let mut out: Vec<PkaEvent> = Vec::new();
    let mut k: usize = 0;
    while k < order.len()
        invariant
            k <= order.len(),
            out.len() == k,
            rows_match(rows@, p),
            sorted == Seq::new(order@.len(), |j: int| p[order@[j] as int]),
            forall|j: int| 0 <= j < order.len() ==> #[trigger] order[j] < p.len(),
            forall|j: int| 0 <= j < p.len() ==> 0 <= #[trigger] p[j].0 < 86400,
            is_integer_number(episode as nat, number),
            forall|j: int|
                0 <= j < k ==> is_timeline_event(
                    #[trigger] out[j],
                    sorted,
                    j,
                    episode as nat,
                    ep_length_seconds as int,
                    upload_date,
                ),
        decreases order.len() - k,
    {
        let row = &rows[order[k]];
        let ts = row.0;
        assert(sorted[k as int] == p[order[k as int] as int]);
        assert(ts == p[order[k as int] as int].0);
        let end: i64 = if k + 1 < order.len() {
            assert(sorted[k + 1] == p[order[k + 1] as int]);
            rows[order[k + 1]].0 as i64
        } else {
            ep_length_seconds as i64
        };
        let gap: i64 = end - ts as i64;
        let length: i64 = if gap < 1 {
            1
        } else {
            gap
        };
        let id = event_id(episode, ts as u32);
        let description = string_from_chars(&row.1);
        out.push(
            PkaEvent {
                event_id: id,
                episode_number: number,
                timestamp: ts,
                description,
                length_seconds: length as i32,
                upload_date,
            },
        );
        k = k + 1;
    }
    Ok(out)
}

/// Durations never fall below one second: not for the last event of an
/// episode shorter than its offset, and not for an event followed by one at
/// the same offset, which lasts exactly one second.
pub proof fn lemma_duration_floor(ev: Seq<(int, Seq<char>)>, k: int, episode_length: int)
    requires
        0 <= k < ev.len(),
    ensures
        event_duration(ev, k, episode_length) >= 1,
        k + 1 < ev.len() && ev[k + 1].0 == ev[k].0 ==> event_duration(ev, k, episode_length) == 1,
{
}

/// The sorted events of a description are its provisional events reordered:
/// as many of them, each offset at most the next (offsets compared as the
/// `i32` values that events store).
pub proof fn lemma_sorted_events(data: Seq<char>)
    requires
        provisional_events(data).len() <= usize::MAX,
    ensures
        sorted_events(data).len() == provisional_events(data).len(),
        forall|a: int, b: int|
            0 <= a < b < sorted_events(data).len() ==> (#[trigger] sorted_events(data)[a]).0 as i32
                <= (#[trigger] sorted_events(data)[b]).0 as i32,
{
    let p = provisional_events(data);
    let every = |i: int| true;
    let key = offset_key(p);
    crate::search::lemma_ranking_exists(p.len() as int, every, key);
    let order = ranking(p.len() as int, every, key);
    assert forall|x: usize| (x as int) < p.len() implies #[trigger] order.contains(x) by {
        assert(every(x as int));
    }
    crate::search::lemma_ranking_covers(p.len() as int, every, key, order);
    let sorted = sorted_events(data);
    assert forall|a: int, b: int| 0 <= a < b < sorted.len() implies (#[trigger] sorted[a]).0 as i32
        <= (#[trigger] sorted[b]).0 as i32 by {
        assert(crate::search::key_lt(rank_key(key, order[a]), rank_key(key, order[b])));
    }
}

} // verus!
