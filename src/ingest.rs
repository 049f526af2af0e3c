//! Decisions of the feed ingestor: which episodes are new, which upload
//! holds each, and what gets stored for it.

use vstd::prelude::*;

use crate::episode_number::{is_integer_number, EpisodeNumber};
use crate::models::{PkaEpisode, PkaEvent, PkaYoutubeDetails};
use crate::text::{chars_of, contains_folded, contains_folded_exec, fold, fold_exec, occurs_at, string_from_chars};
use crate::timeline::{
    decimal, extract_pka_episode_events, is_digit, push_decimal, sorted_events, provisional_events,
    is_timeline_event, TimelineError,
};

verus! {

/// The show's prefix in episode titles.
pub open spec fn show_prefix() -> Seq<char> {
    seq!['P', 'K', 'A', ' ']
}

/// Length of the run of ASCII digits that starts `s`.
pub open spec fn digit_run(s: Seq<char>) -> nat
    decreases s.len(),
{
    if s.len() > 0 && is_digit(s[0]) {
        1 + digit_run(s.drop_first())
    } else {
        0
    }
}

/// The number that the decimal digits `ds` spell.
pub open spec fn digits_value(ds: Seq<char>) -> nat
    decreases ds.len(),
{
    if ds.len() == 0 {
        0
    } else {
        (digits_value(ds.drop_last()) * 10 + (ds.last() as int - '0' as int)) as nat
    }
}

/// An episode title pattern starts at `i`: the prefix (ASCII letters in any
/// case), then at least three digits.
pub open spec fn title_match_at(t: Seq<char>, i: int) -> bool {
    &&& occurs_at(t, show_prefix(), i)
    &&& digit_run(t.skip(i + 4)) >= 3
}

/// The episode number in a title, from the leftmost match at or after `i`.
pub open spec fn title_number_from(t: Seq<char>, i: int) -> Option<nat>
    decreases t.len() - i,
{
    if i < 0 || i + 7 > t.len() {
        None
    } else if title_match_at(t, i) {
        let s = t.skip(i + 4);
        Some(digits_value(s.take(digit_run(s) as int)))
    } else {
        title_number_from(t, i + 1)
    }
}

/// The episode number that a title announces: the digits after the leftmost
/// occurrence of the prefix that is followed by at least three digits.
pub open spec fn title_number(t: Seq<char>) -> Option<nat> {
    title_number_from(t, 0)
}

fn is_digit_char(c: char) -> (r: bool)
    ensures
        r == is_digit(c),
{
    '0' <= c && c <= '9'
}

fn digit_run_exec(t: &Vec<char>, start: usize) -> (r: usize)
    requires
        start <= t.len(),
    ensures
        r == digit_run(t@.skip(start as int)),
        start + r <= t.len(),
{
    let mut i: usize = start;
    assert(t@.skip(start as int).skip(0) =~= t@.skip(start as int));
    while i < t.len() && is_digit_char(t[i])
        invariant
            start <= i <= t@.len(),
            digit_run(t@.skip(start as int)) == (i - start) + digit_run(t@.skip(i as int)),
        decreases t.len() - i,
    {
        assert(t@.skip(i as int).drop_first() =~= t@.skip(i + 1));
        i = i + 1;
    }
    assert(i < t@.len() ==> t@.skip(i as int)[0] == t@[i as int]);
    i - start
}

fn prefix_at(t: &Vec<char>, i: usize) -> (r: bool)
    ensures
        r == occurs_at(t@, show_prefix(), i as int),
{
    if t.len() < 4 || i > t.len() - 4 {
        return false;
    }
    let p = fold_exec(t[i]) == fold_exec('P') && fold_exec(t[i + 1]) == fold_exec('K') && fold_exec(
        t[i + 2],
    ) == fold_exec('A') && fold_exec(t[i + 3]) == fold_exec(' ');
    proof {
        if occurs_at(t@, show_prefix(), i as int) {
            assert(fold(t@[i + 0]) == fold(show_prefix()[0]));
            assert(fold(t@[i + 1]) == fold(show_prefix()[1]));
            assert(fold(t@[i + 2]) == fold(show_prefix()[2]));
            assert(fold(t@[i + 3]) == fold(show_prefix()[3]));
        }
        if p {
            assert forall|j: int| 0 <= j < 4 implies fold(#[trigger] t@[i + j]) == fold(show_prefix()[j]) by {
                if j == 0 {
                    assert(t@[i + j] == t@[i as int]);
                }
            }
        }
    }
    p
}

/// The episode number that a title announces, when it fits in 64 bits.
pub fn latest_episode_number(title: &str) -> (r: Option<u64>)
    ensures
        match title_number(title@) {
            Some(v) => if v <= u64::MAX {
                r == Some(v as u64)
            } else {
                r is None
            },
            None => r is None,
        },
{
    let t = chars_of(title);
    if t.len() < 7 {
        return None;
    }
    let mut i: usize = 0;
    while i <= t.len() - 7
        invariant
            7 <= t@.len(),
            t@ == title@,
            i <= t@.len() - 6,
            title_number(t@) == title_number_from(t@, i as int),
        decreases t.len() - i,
    {
        if prefix_at(&t, i) {
            let n = digit_run_exec(&t, i + 4);
            if n >= 3 {
                let ghost s = t@.skip(i + 4);
                assert(title_match_at(t@, i as int));
                assert(title_number(t@) == Some(digits_value(s.take(n as int))));
                proof {
                    assert forall|j: int| 0 <= j < s.take(n as int).len() implies is_digit(
                        #[trigger] s.take(n as int)[j],
                    ) by {
                        lemma_digit_run_digits(s, j);
                    }
                }
                let mut v: u64 = 0;
                let mut k: usize = 0;
                assert(s.take(0) =~= Seq::<char>::empty());
                while k < n
                    invariant
                        k <= n == digit_run(s),
                        i + 4 + n <= t@.len(),
                        i <= t@.len() - 6,
                        t@ == title@,
                        s == t@.skip(i + 4),
                        title_number(t@) == Some(digits_value(s.take(n as int))),
                        v == digits_value(s.take(k as int)),
                        forall|j: int| 0 <= j < s.take(n as int).len() ==> is_digit(#[trigger] s.take(n as int)[j]),
                    decreases n - k,
                {
                    proof {
                        lemma_digit_run_digits(s, k as int);
                    }
                    assert(i + 4 + k < t@.len());
                    let c = t[i + 4 + k];
                    assert(c == s[k as int]);
                    let d = (c as u32 - '0' as u32) as u64;
                    assert(s.take(k + 1).drop_last() =~= s.take(k as int));
                    assert(digits_value(s.take(k + 1)) == v * 10 + d);
                    if v > (u64::MAX - d) / 10 {
                        proof {
                            assert(v * 10 + d > u64::MAX) by (nonlinear_arith)
                                requires
                                    v > (u64::MAX - d) / 10,
                                    d <= 9,
                            ;
                            lemma_digits_value_mono(s.take(n as int), k as int + 1);
                            assert(s.take(n as int).take(k + 1) =~= s.take(k + 1));
                        }
                        return None;
                    }
                    assert(v * 10 + d <= u64::MAX) by (nonlinear_arith)
                        requires
                            v <= (u64::MAX - d) / 10,
                            d <= 9,
                    ;
                    v = v * 10 + d;
                    k = k + 1;
                }
                assert(s.take(k as int) == s.take(n as int));
                return Some(v);
            }
        }
        i = i + 1;
    }
    None
}

proof fn lemma_digit_run_bound(s: Seq<char>)
    ensures
        digit_run(s) <= s.len(),
    decreases s.len(),
{
    if s.len() > 0 {
        lemma_digit_run_bound(s.drop_first());
    }
}

proof fn lemma_digit_run_digits(s: Seq<char>, k: int)
    requires
        0 <= k < digit_run(s),
    ensures
        is_digit(s[k]),
    decreases s.len(),
{
    lemma_digit_run_bound(s);
    if k > 0 {
        lemma_digit_run_digits(s.drop_first(), k - 1);
        assert(s.drop_first()[k - 1] == s[k]);
    }
}

/// A prefix of a digit string spells at most what the whole spells.
proof fn lemma_digits_value_mono(ds: Seq<char>, k: int)
    requires
        0 <= k <= ds.len(),
        forall|j: int| 0 <= j < ds.len() ==> is_digit(#[trigger] ds[j]),
    ensures
        digits_value(ds.take(k)) <= digits_value(ds),
    decreases ds.len(),
{
    if k < ds.len() {
        assert(ds.drop_last().take(k) =~= ds.take(k));
        lemma_digits_value_mono(ds.drop_last(), k);
    } else {
        assert(ds.take(k) =~= ds);
    }
}

/// The number of episodes between the newest stored one and the newest
/// available one (none when the store is ahead).
pub fn episodes_missing(stored_max: u64, latest_available: u64) -> (r: u64)
    ensures
        r == if latest_available > stored_max {
            latest_available - stored_max
        } else {
            0
        },
{
    if latest_available > stored_max {
        latest_available - stored_max
    } else {
        0
    }
}

/// The name of episode `n`: the prefix and the number.
pub open spec fn episode_name_spec(n: nat) -> Seq<char> {
    show_prefix() + decimal(n)
}

fn episode_name_chars(n: u64) -> (r: Vec<char>)
    ensures
        r@ == episode_name_spec(n as nat),
{
    let mut v: Vec<char> = Vec::new();
    v.push('P');
    v.push('K');
    v.push('A');
    v.push(' ');
    push_decimal(&mut v, n);
    assert(v@ =~= episode_name_spec(n as nat));
    v
}

/// The name of episode `n`, such as `PKA 488`.
pub fn episode_name(n: u64) -> (r: String)
    ensures
        r@ == episode_name_spec(n as nat),
{
    string_from_chars(&episode_name_chars(n))
}

/// Whether an upload title mentions episode `n` (`PKA <n>`, ASCII letters in
/// any case).
pub fn title_mentions_episode(title: &str, n: u64) -> (r: bool)
    ensures
        r == contains_folded(title@, episode_name_spec(n as nat)),
{
    let t = chars_of(title);
    let name = episode_name_chars(n);
    contains_folded_exec(&t, &name)
}

/// The first upload whose title mentions episode `n`.
pub fn find_episode_upload(titles: &Vec<String>, n: u64) -> (r: Option<usize>)
    ensures
        match r {
            Some(i) => i < titles.len() && contains_folded(titles[i as int]@, episode_name_spec(n as nat))
                && forall|j: int| 0 <= j < i ==> !contains_folded(#[trigger] titles[j]@, episode_name_spec(n as nat)),
            None => forall|j: int| 0 <= j < titles.len() ==> !contains_folded(#[trigger] titles[j]@, episode_name_spec(n as nat)),
        },
{
    let mut i: usize = 0;
    while i < titles.len()
        invariant
            i <= titles.len(),
            forall|j: int| 0 <= j < i ==> !contains_folded(#[trigger] titles[j]@, episode_name_spec(n as nat)),
        decreases titles.len() - i,
    {
        if title_mentions_episode(titles[i].as_str(), n) {
            return Some(i);
        }
        i = i + 1;
    }
    None
}

/// What one discovered episode is stored as.
pub struct EpisodeIngest {
    pub episode: PkaEpisode,
    pub events: Vec<PkaEvent>,
    pub youtube_details: PkaYoutubeDetails,
}

/// Why a discovered episode is not stored.
#[derive(Debug, Clone, Copy, PartialEq, Eq, Structural)]
pub enum IngestError {
    /// The episode number has no exact `f32` form.
    NumberTooLarge,
    /// The description holds no timestamped event.
    Timeline(TimelineError),
}

/// Builds the records of a discovered episode `n` from its upload: the
/// episode (named `PKA <n>`), the events of its description and its video
/// details. An episode whose description holds no event is not stored.
pub fn plan_episode_ingest(
    n: u64,
    video_id: &str,
    published_at: i64,
    title: &str,
    description: &str,
    length_seconds: i32,
) -> (r: Result<EpisodeIngest, IngestError>)
    ensures
        n >= 0x100_0000 <==> r == Err::<EpisodeIngest, IngestError>(IngestError::NumberTooLarge),
        n < 0x100_0000 ==> (provisional_events(description@).len() == 0 <==> r == Err::<
            EpisodeIngest,
            IngestError,
        >(IngestError::Timeline(TimelineError::NoEvents))),
        n < 0x100_0000 && provisional_events(description@).len() > 0 ==> r is Ok,
        r is Ok ==> {
            let p = r->Ok_0;
            &&& is_integer_number(n as nat, p.episode.number)
            &&& p.episode.name@ == episode_name_spec(n as nat)
            &&& p.episode.youtube_link@ == video_id@
            &&& p.episode.upload_date == published_at
            &&& p.youtube_details.video_id@ == video_id@
            &&& p.youtube_details.episode_number == p.episode.number
            &&& p.youtube_details.title@ == title@
            &&& p.youtube_details.length_seconds == length_seconds
            &&& p.events.len() == sorted_events(description@).len()
            &&& forall|k: int|
                0 <= k < p.events.len() ==> is_timeline_event(
                    #[trigger] p.events[k],
                    sorted_events(description@),
                    k,
                    n as nat,
                    length_seconds as int,
                    published_at,
                )
        },
{
    if n >= 0x100_0000 {
        return Err(IngestError::NumberTooLarge);
    }
    let events = match extract_pka_episode_events(n as u32, description, length_seconds, published_at) {
        Ok(events) => events,
        Err(e) => {
            return Err(IngestError::Timeline(e));
        },
    };
    let number = EpisodeNumber::from_integer(n as u32);
    let episode = PkaEpisode {
        number,
        name: episode_name(n),
        youtube_link: string_from_chars(&chars_of(video_id)),
        upload_date: published_at,
    };
    let youtube_details = PkaYoutubeDetails {
        video_id: string_from_chars(&chars_of(video_id)),
        episode_number: number,
        title: string_from_chars(&chars_of(title)),
        length_seconds,
    };
    Ok(EpisodeIngest { episode, events, youtube_details })
}

} // verus!
