//! Episode and event search: selection by the matcher and a total order.

use vstd::prelude::*;

use crate::matcher::{all_terms_occur, matches_query, query_buildable, Matcher, MatcherError};
use crate::models::{projects_event, PkaEpisodeSearchResult, PkaEvent, PkaEventSearchResult};

verus! {

/// A record that offers one text field to match a query against.
pub trait Searchable {
    spec fn match_field(&self) -> Seq<char>;

    fn field_to_match(&self) -> (r: &str)
        ensures
            r@ == self.match_field(),
    ;
}

impl Searchable for PkaEvent {
    open spec fn match_field(&self) -> Seq<char> {
        self.description@
    }

    fn field_to_match(&self) -> (r: &str) {
        self.description.as_str()
    }
}

impl Searchable for PkaEpisodeSearchResult {
    open spec fn match_field(&self) -> Seq<char> {
        self.title@
    }

    fn field_to_match(&self) -> (r: &str) {
        self.title.as_str()
    }
}

/// The sort key of a record at index `i`: two integers, then the index.
pub type RankKey = (u32, i32, usize);

pub open spec fn key_le(a: RankKey, b: RankKey) -> bool {
    a.0 < b.0 || (a.0 == b.0 && (a.1 < b.1 || (a.1 == b.1 && a.2 <= b.2)))
}

pub open spec fn key_lt(a: RankKey, b: RankKey) -> bool {
    a.0 < b.0 || (a.0 == b.0 && (a.1 < b.1 || (a.1 == b.1 && a.2 < b.2)))
}

pub open spec fn rank_key(key: spec_fn(int) -> (u32, i32), i: usize) -> RankKey {
    (key(i as int).0, key(i as int).1, i)
}

/// `idx` lists, without repetition and in strictly increasing order of
/// `(key(i), i)`, exactly the indices `i < n` that are selected.
pub open spec fn is_ranking(
    n: int,
    selected: spec_fn(int) -> bool,
    key: spec_fn(int) -> (u32, i32),
    idx: Seq<usize>,
) -> bool {
    &&& forall|k: int| 0 <= k < idx.len() ==> #[trigger] idx[k] < n && selected(idx[k] as int)
    &&& forall|i: int| 0 <= i < n && #[trigger] selected(i) ==> idx.contains(i as usize)
    &&& forall|a: int, b: int|
        0 <= a < b < idx.len() ==> key_lt(#[trigger] rank_key(key, idx[a]), #[trigger] rank_key(key, idx[b]))
}

/// The ranking of the selected indices below `n` by `key`, ties broken by
/// index.
pub open spec fn ranking(n: int, selected: spec_fn(int) -> bool, key: spec_fn(int) -> (u32, i32)) -> Seq<
    usize,
> {
    choose|idx: Seq<usize>| is_ranking(n, selected, key, idx)
}

pub(crate) proof fn lemma_sorted_unique(s1: Seq<usize>, s2: Seq<usize>, key: spec_fn(int) -> (u32, i32))
    requires
        forall|a: int, b: int|
            0 <= a < b < s1.len() ==> key_lt(#[trigger] rank_key(key, s1[a]), #[trigger] rank_key(key, s1[b])),
        forall|a: int, b: int|
            0 <= a < b < s2.len() ==> key_lt(#[trigger] rank_key(key, s2[a]), #[trigger] rank_key(key, s2[b])),
        forall|x: usize| s1.contains(x) <==> s2.contains(x),
    ensures
        s1 == s2,
    decreases s1.len(),
{
    if s1.len() == 0 {
        if s2.len() > 0 {
            assert(s2.contains(s2[0]));
        }
        assert(s1 =~= s2);
    } else {
        assert(s1.contains(s1[0]));
        let m = choose|m: int| 0 <= m < s2.len() && s2[m] == s1[0];
        assert(s2.contains(s2[0]));
        let p = choose|p: int| 0 <= p < s1.len() && s1[p] == s2[0];
        if m > 0 {
            assert(key_lt(rank_key(key, s2[0]), rank_key(key, s2[m])));
            if p > 0 {
                assert(key_lt(rank_key(key, s1[0]), rank_key(key, s1[p])));
            }
            assert(false);
        }
        let t1 = s1.drop_first();
        let t2 = s2.drop_first();
        assert forall|x: usize| t1.contains(x) <==> t2.contains(x) by {
            if t1.contains(x) {
                let j = choose|j: int| 0 <= j < t1.len() && t1[j] == x;
                assert(key_lt(rank_key(key, s1[0]), rank_key(key, s1[j + 1])));
                assert(s2.contains(x));
                let j2 = choose|j2: int| 0 <= j2 < s2.len() && s2[j2] == x;
                assert(j2 != 0);
                assert(t2[j2 - 1] == x);
            }
            if t2.contains(x) {
                let j = choose|j: int| 0 <= j < t2.len() && t2[j] == x;
                assert(key_lt(rank_key(key, s2[0]), rank_key(key, s2[j + 1])));
                assert(s1.contains(x));
                let j1 = choose|j1: int| 0 <= j1 < s1.len() && s1[j1] == x;
                assert(j1 != 0);
                assert(t1[j1 - 1] == x);
            }
        }
        assert forall|a: int, b: int| 0 <= a < b < t1.len() implies key_lt(
            #[trigger] rank_key(key, t1[a]),
            #[trigger] rank_key(key, t1[b]),
        ) by {
            assert(key_lt(rank_key(key, s1[a + 1]), rank_key(key, s1[b + 1])));
        }
        assert forall|a: int, b: int| 0 <= a < b < t2.len() implies key_lt(
            #[trigger] rank_key(key, t2[a]),
            #[trigger] rank_key(key, t2[b]),
        ) by {
            assert(key_lt(rank_key(key, s2[a + 1]), rank_key(key, s2[b + 1])));
        }
        lemma_sorted_unique(t1, t2, key);
        assert(s1 =~= s2) by {
            assert(s1 =~= seq![s1[0]] + t1);
            assert(s2 =~= seq![s2[0]] + t2);
        }
    }
}

/// A ranking is unique: two rankings of the same selection by the same key
/// are the same sequence. Search results are therefore a function of the
/// query and the records searched.
pub proof fn lemma_ranking_unique(
    n: int,
    selected: spec_fn(int) -> bool,
    key: spec_fn(int) -> (u32, i32),
    s1: Seq<usize>,
    s2: Seq<usize>,
)
    requires
        is_ranking(n, selected, key, s1),
        is_ranking(n, selected, key, s2),
    ensures
        s1 == s2,
{
    assert forall|x: usize| s1.contains(x) <==> s2.contains(x) by {
        if s1.contains(x) {
            let j = choose|j: int| 0 <= j < s1.len() && s1[j] == x;
            assert(s1[j] < n && selected(s1[j] as int));
        }
        if s2.contains(x) {
            let j = choose|j: int| 0 <= j < s2.len() && s2[j] == x;
            assert(s2[j] < n && selected(s2[j] as int));
        }
    }
    lemma_sorted_unique(s1, s2, key);
}

/// Relies on std's `slice::sort_unstable`: the vector is permuted into
/// ascending order, tuples being compared lexicographically as std documents.
#[verifier::external_body]
fn sort_rank_keys(v: &mut Vec<RankKey>)
    ensures
        final(v)@.to_multiset() == old(v)@.to_multiset(),
        forall|a: int, b: int|
            0 <= a < b < final(v)@.len() ==> key_le(#[trigger] final(v)@[a], #[trigger] final(v)@[b]),
{
    v.sort_unstable();
}

/// Indices of the items whose field the matcher accepts, ascending.
pub fn filter_matching<T: Searchable>(m: &Matcher, items: &Vec<T>) -> (r: Vec<usize>)
    requires
        m.wf(),
    ensures
        forall|k: int|
            0 <= k < r.len() ==> #[trigger] r[k] < items.len() && all_terms_occur(
                m.terms(),
                items[r[k] as int].match_field(),
            ),
        forall|a: int, b: int| 0 <= a < b < r.len() ==> #[trigger] r[a] < #[trigger] r[b],
        forall|i: int|
            0 <= i < items.len() && all_terms_occur(m.terms(), #[trigger] items[i].match_field())
                ==> r@.contains(i as usize),
{
    let mut r: Vec<usize> = Vec::new();
    let mut i: usize = 0;
    while i < items.len()
        invariant
            m.wf(),
            i <= items.len(),
            forall|k: int|
                0 <= k < r.len() ==> #[trigger] r[k] < i && all_terms_occur(
                    m.terms(),
                    items[r[k] as int].match_field(),
                ),
            forall|a: int, b: int| 0 <= a < b < r.len() ==> #[trigger] r[a] < #[trigger] r[b],
            forall|j: int|
                0 <= j < i && all_terms_occur(m.terms(), #[trigger] items[j].match_field())
                    ==> r@.contains(j as usize),
        decreases items.len() - i,
    {
        let hit = m.is_match(items[i].field_to_match());
        if hit {
            let ghost before = r@;
            r.push(i);
            assert forall|j: int|
                0 <= j < i + 1 && all_terms_occur(m.terms(), #[trigger] items[j].match_field())
                    implies r@.contains(j as usize) by {
                if j < i {
                    let k = choose|k: int| 0 <= k < before.len() && before[k] == j as usize;
                    assert(r@[k] == j as usize);
                } else {
                    assert(r@[r.len() - 1] == j as usize);
                }
            }
        }
        i = i + 1;
    }
    r
}

/// Sorts the keys and returns their indices in that order.
pub(crate) fn order_by_keys(keys: Vec<RankKey>, Ghost(key): Ghost<spec_fn(int) -> (u32, i32)>) -> (r: Vec<usize>)
    requires
        forall|k: int| 0 <= k < keys.len() ==> #[trigger] keys[k] == rank_key(key, keys[k].2),
        forall|a: int, b: int| 0 <= a < b < keys.len() ==> #[trigger] keys[a].2 != #[trigger] keys[b].2,
    ensures
        forall|x: usize| r@.contains(x) <==> exists|k: int| 0 <= k < keys.len() && #[trigger] keys[k].2 == x,
        forall|a: int, b: int|
            0 <= a < b < r.len() ==> key_lt(#[trigger] rank_key(key, r[a]), #[trigger] rank_key(key, r[b])),
{
    let ghost old_keys = keys@;
    let mut sorted = keys;
    proof {
        assert(old_keys.no_duplicates());
        old_keys.lemma_multiset_has_no_duplicates();
    }
    sort_rank_keys(&mut sorted);
    proof {
        assert forall|x: RankKey| sorted@.to_multiset().contains(x) implies sorted@.to_multiset().count(x) == 1 by {
            assert(old_keys.to_multiset().contains(x));
        }
        sorted@.lemma_multiset_has_no_duplicates_conv();
        assert forall|k: int| 0 <= k < sorted@.len() implies old_keys.contains(#[trigger] sorted@[k]) by {
            broadcast use vstd::seq_lib::to_multiset_contains;
            assert(sorted@.contains(sorted@[k]));
            assert(sorted@.to_multiset().count(sorted@[k]) > 0);
        }
    }
    let mut r: Vec<usize> = Vec::new();
    let mut i: usize = 0;
    while i < sorted.len()
        invariant
            i <= sorted@.len(),
            r@.len() == i,
            forall|k: int| 0 <= k < i ==> r@[k] == #[trigger] sorted@[k].2,
        decreases sorted.len() - i,
    {
        r.push(sorted[i].2);
        i = i + 1;
    }
    proof {
        assert forall|k: int| 0 <= k < sorted@.len() implies #[trigger] sorted@[k] == rank_key(key, sorted@[k].2) by {
            assert(old_keys.contains(sorted@[k]));
            let j = choose|j: int| 0 <= j < old_keys.len() && old_keys[j] == sorted@[k];
            assert(old_keys[j] == rank_key(key, old_keys[j].2));
        }
        assert forall|a: int, b: int| 0 <= a < b < r.len() implies key_lt(
            #[trigger] rank_key(key, r[a]),
            #[trigger] rank_key(key, r[b]),
        ) by {
            assert(key_le(sorted@[a], sorted@[b]));
            assert(sorted@[a] != sorted@[b]);
            assert(sorted@[a] == rank_key(key, sorted@[a].2));
            assert(sorted@[b] == rank_key(key, sorted@[b].2));
        }
        assert forall|x: usize| r@.contains(x) implies exists|k: int| 0 <= k < old_keys.len() && #[trigger] old_keys[k].2 == x by {
            let j = choose|j: int| 0 <= j < r.len() && r@[j] == x;
            assert(old_keys.contains(sorted@[j]));
            let k = choose|k: int| 0 <= k < old_keys.len() && old_keys[k] == sorted@[j];
            assert(old_keys[k].2 == x);
        }
        assert forall|x: usize| (exists|k: int| 0 <= k < old_keys.len() && #[trigger] old_keys[k].2 == x) implies r@.contains(x) by {
            broadcast use vstd::seq_lib::to_multiset_contains;
            let k = choose|k: int| 0 <= k < old_keys.len() && #[trigger] old_keys[k].2 == x;
            assert(old_keys.contains(old_keys[k]));
            assert(old_keys.to_multiset().count(old_keys[k]) > 0);
            assert(sorted@.contains(old_keys[k]));
            let j = choose|j: int| 0 <= j < sorted@.len() && sorted@[j] == old_keys[k];
            assert(r@[j] == x);
        }
    }
    r
}

/// The selection of event search: events whose description matches the query.
pub open spec fn event_selected(q: Seq<char>, evs: Seq<PkaEvent>) -> spec_fn(int) -> bool {
    |i: int| matches_query(q, evs[i].description@)
}

/// The order of event search: episode number ascending, then timestamp.
pub open spec fn event_key(evs: Seq<PkaEvent>) -> spec_fn(int) -> (u32, i32) {
    |i: int| (evs[i].episode_number.key(), evs[i].timestamp)
}

/// The indices of the events that match `q`, by episode number ascending,
/// then timestamp ascending, then position.
pub open spec fn event_ranking(q: Seq<char>, evs: Seq<PkaEvent>) -> Seq<usize> {
    ranking(evs.len() as int, event_selected(q, evs), event_key(evs))
}

/// The selection of episode search: episodes whose title matches the query.
pub open spec fn episode_selected(q: Seq<char>, eps: Seq<PkaEpisodeSearchResult>) -> spec_fn(int) -> bool {
    |i: int| matches_query(q, eps[i].title@)
}

/// The order of episode search: episode number descending.
pub open spec fn episode_key(eps: Seq<PkaEpisodeSearchResult>) -> spec_fn(int) -> (u32, i32) {
    |i: int| ((u32::MAX - eps[i].episode_number.key()) as u32, 0i32)
}

/// The indices of the episodes that match `q`, by episode number descending,
/// then position.
pub open spec fn episode_ranking(q: Seq<char>, eps: Seq<PkaEpisodeSearchResult>) -> Seq<usize> {
    ranking(eps.len() as int, episode_selected(q, eps), episode_key(eps))
}

/// Ranks the events that match `query`: episode number ascending, then
/// timestamp, then position in the snapshot.
pub fn rank_events(query: &str, events: &Vec<PkaEvent>) -> (r: Result<Vec<usize>, MatcherError>)
    ensures
        r is Ok ==> is_ranking(events.len() as int, event_selected(query@, events@), event_key(events@), r->Ok_0@),
        r is Ok ==> r->Ok_0@ == event_ranking(query@, events@),
        r is Ok <==> query_buildable(query@),
{
    let m = Matcher::new(query)?;
    let sel = filter_matching(&m, events);
    let ghost key = event_key(events@);
    let mut keys: Vec<RankKey> = Vec::new();
    let mut k: usize = 0;
    while k < sel.len()
        invariant
            k <= sel.len(),
            keys.len() == k,
            key == event_key(events@),
            forall|j: int| 0 <= j < sel.len() ==> #[trigger] sel[j] < events.len(),
            forall|a: int, b: int| 0 <= a < b < sel.len() ==> #[trigger] sel[a] < #[trigger] sel[b],
            forall|j: int| 0 <= j < k ==> #[trigger] keys[j] == rank_key(key, sel[j]),
        decreases sel.len() - k,
    {
        let e = &events[sel[k]];
        keys.push((e.episode_number.order_key(), e.timestamp, sel[k]));
        k = k + 1;
    }
    let ghost keys_v = keys@;
    assert forall|a: int, b: int| 0 <= a < b < keys_v.len() implies #[trigger] keys_v[a].2 != #[trigger] keys_v[b].2 by {
        assert(sel[a] < sel[b]);
    }
    let r = order_by_keys(keys, Ghost(key));
    proof {
        let sel_f = event_selected(query@, events@);
        assert forall|j: int| 0 <= j < r.len() implies #[trigger] r[j] < events.len() && sel_f(r[j] as int) by {
            assert(r@.contains(r[j]));
            let t = choose|t: int| 0 <= t < keys_v.len() && #[trigger] keys_v[t].2 == r[j];
            assert(keys_v[t] == rank_key(key, sel[t]));
        }
        assert forall|i: int| 0 <= i < events.len() && #[trigger] sel_f(i) implies r@.contains(i as usize) by {
            assert(all_terms_occur(m.terms(), events[i].match_field()));
            let t = choose|t: int| 0 <= t < sel.len() && sel[t] == i as usize;
            assert(keys_v[t].2 == i as usize);
        }
        assert(is_ranking(events.len() as int, sel_f, key, r@));
        lemma_ranking_unique(events.len() as int, sel_f, key, r@, event_ranking(query@, events@));
    }
    Ok(r)
}

/// Ranks the episodes whose title matches `query`: episode number
/// descending, then position.
pub fn rank_episodes(query: &str, episodes: &Vec<PkaEpisodeSearchResult>) -> (r: Result<
    Vec<usize>,
    MatcherError,
>)
    ensures
        r is Ok ==> is_ranking(
            episodes.len() as int,
            episode_selected(query@, episodes@),
            episode_key(episodes@),
            r->Ok_0@,
        ),
        r is Ok ==> r->Ok_0@ == episode_ranking(query@, episodes@),
        r is Ok <==> query_buildable(query@),
{
    let m = Matcher::new(query)?;
    let sel = filter_matching(&m, episodes);
    let ghost key = episode_key(episodes@);
    let mut keys: Vec<RankKey> = Vec::new();
    let mut k: usize = 0;
    while k < sel.len()
        invariant
            k <= sel.len(),
            keys.len() == k,
            key == episode_key(episodes@),
            forall|j: int| 0 <= j < sel.len() ==> #[trigger] sel[j] < episodes.len(),
            forall|a: int, b: int| 0 <= a < b < sel.len() ==> #[trigger] sel[a] < #[trigger] sel[b],
            forall|j: int| 0 <= j < k ==> #[trigger] keys[j] == rank_key(key, sel[j]),
        decreases sel.len() - k,
    {
        let e = &episodes[sel[k]];
        keys.push((u32::MAX - e.episode_number.order_key(), 0i32, sel[k]));
        k = k + 1;
    }
    let ghost keys_v = keys@;
    assert forall|a: int, b: int| 0 <= a < b < keys_v.len() implies #[trigger] keys_v[a].2
        != #[trigger] keys_v[b].2 by {
        assert(sel[a] < sel[b]);
    }
    let r = order_by_keys(keys, Ghost(key));
    proof {
        let sel_f = episode_selected(query@, episodes@);
        assert forall|j: int| 0 <= j < r.len() implies #[trigger] r[j] < episodes.len() && sel_f(
            r[j] as int,
        ) by {
            assert(r@.contains(r[j]));
            let t = choose|t: int| 0 <= t < keys_v.len() && #[trigger] keys_v[t].2 == r[j];
            assert(keys_v[t] == rank_key(key, sel[t]));
        }
        assert forall|i: int| 0 <= i < episodes.len() && #[trigger] sel_f(i) implies r@.contains(
            i as usize,
        ) by {
            assert(all_terms_occur(m.terms(), episodes[i].match_field()));
            let t = choose|t: int| 0 <= t < sel.len() && sel[t] == i as usize;
            assert(keys_v[t].2 == i as usize);
        }
        assert(is_ranking(episodes.len() as int, sel_f, key, r@));
        lemma_ranking_unique(episodes.len() as int, sel_f, key, r@, episode_ranking(query@, episodes@));
    }
    Ok(r)
}

/// Event search over a snapshot: the events whose description matches the
/// query, projected, by episode number ascending, then timestamp.
pub fn search_event_results(query: &str, events: &Vec<PkaEvent>) -> (r: Result<
    Vec<PkaEventSearchResult>,
    MatcherError,
>)
    ensures
        r is Ok ==> r->Ok_0.len() == event_ranking(query@, events@).len(),
        r is Ok ==> forall|k: int|
            0 <= k < r->Ok_0.len() ==> projects_event(
                #[trigger] r->Ok_0[k],
                events[event_ranking(query@, events@)[k] as int],
            ),
        r is Ok <==> query_buildable(query@),
{
    let idx = rank_events(query, events)?;
    let mut out: Vec<PkaEventSearchResult> = Vec::new();
    let mut k: usize = 0;
    while k < idx.len()
        invariant
            k <= idx.len(),
            out.len() == k,
            forall|j: int| 0 <= j < idx.len() ==> #[trigger] idx[j] < events.len(),
            forall|j: int| 0 <= j < k ==> projects_event(#[trigger] out[j], events[idx[j] as int]),
        decreases idx.len() - k,
    {
        out.push(PkaEventSearchResult::from_event(&events[idx[k]]));
        k = k + 1;
    }
    Ok(out)
}

/// Episode search: the episodes whose title matches the query, by episode
/// number descending. A blank query returns every episode.
pub fn search_episode(query: &str, episodes: &Vec<PkaEpisodeSearchResult>) -> (r: Result<
    Vec<PkaEpisodeSearchResult>,
    MatcherError,
>)
    ensures
        r is Ok ==> r->Ok_0.len() == episode_ranking(query@, episodes@).len(),
        r is Ok ==> forall|k: int|
            0 <= k < r->Ok_0.len() ==> #[trigger] r->Ok_0[k] == episodes[episode_ranking(
                query@,
                episodes@,
            )[k] as int],
        r is Ok <==> query_buildable(query@),
{
    let idx = rank_episodes(query, episodes)?;
    let mut out: Vec<PkaEpisodeSearchResult> = Vec::new();
    let mut k: usize = 0;
    while k < idx.len()
        invariant
            k <= idx.len(),
            out.len() == k,
            forall|j: int| 0 <= j < idx.len() ==> #[trigger] idx[j] < episodes.len(),
            forall|j: int| 0 <= j < k ==> #[trigger] out[j] == episodes[idx[j] as int],
        decreases idx.len() - k,
    {
        let e = &episodes[idx[k]];
        out.push(
            PkaEpisodeSearchResult {
                episode_number: e.episode_number,
                upload_date: e.upload_date,
                title: e.title.clone(),
                length_seconds: e.length_seconds,
            },
        );
        k = k + 1;
    }
    Ok(out)
}

/// With a blank query, episode search lists every episode exactly once, by
/// episode number descending (in float_ord's total order, so fractional
/// numbers fall between their integer neighbours).
pub proof fn lemma_blank_query_lists_all_episodes(
    q: Seq<char>,
    eps: Seq<PkaEpisodeSearchResult>,
    idx: Seq<usize>,
)
    requires
        eps.len() <= usize::MAX,
        crate::text::trim(q).len() == 0,
        is_ranking(eps.len() as int, episode_selected(q, eps), episode_key(eps), idx),
    ensures
        forall|x: usize| (x as int) < eps.len() ==> #[trigger] idx.contains(x),
        idx.len() == eps.len(),
        forall|a: int, b: int|
            0 <= a < b < idx.len() ==> eps[idx[a] as int].episode_number.key()
                >= eps[idx[b] as int].episode_number.key(),
{
    assert forall|x: usize| (x as int) < eps.len() implies #[trigger] idx.contains(x) by {
        crate::matcher::lemma_blank_query_matches_all(q, eps[x as int].title@);
        assert(episode_selected(q, eps)(x as int));
    }
    assert forall|a: int, b: int| 0 <= a < b < idx.len() implies eps[idx[a] as int].episode_number.key()
        >= eps[idx[b] as int].episode_number.key() by {
        assert(key_lt(rank_key(episode_key(eps), idx[a]), rank_key(episode_key(eps), idx[b])));
    }
    lemma_ranking_covers(eps.len() as int, episode_selected(q, eps), episode_key(eps), idx);
}

/// A ranking of a selection that holds every index below `n` has length `n`.
pub(crate) proof fn lemma_ranking_covers(
    n: int,
    selected: spec_fn(int) -> bool,
    key: spec_fn(int) -> (u32, i32),
    idx: Seq<usize>,
)
    requires
        0 <= n <= usize::MAX,
        is_ranking(n, selected, key, idx),
        forall|x: usize| (x as int) < n ==> #[trigger] idx.contains(x),
    ensures
        idx.len() == n,
{
    let s = idx.to_set();
    let full_seq = Seq::new(n as nat, |i: int| i as usize);
    assert(idx.no_duplicates()) by {
        assert forall|a: int, b: int| 0 <= a < idx.len() && 0 <= b < idx.len() && a != b implies idx[a]
            != idx[b] by {
            if a < b {
                assert(key_lt(rank_key(key, idx[a]), rank_key(key, idx[b])));
            } else {
                assert(key_lt(rank_key(key, idx[b]), rank_key(key, idx[a])));
            }
        }
    }
    idx.unique_seq_to_set();
    assert(s =~= full_seq.to_set()) by {
        assert forall|x: usize| s.contains(x) <==> full_seq.to_set().contains(x) by {
            if s.contains(x) {
                let k = choose|k: int| 0 <= k < idx.len() && idx[k] == x;
                assert(idx[k] < n);
                assert(full_seq[x as int] == x);
            }
            if full_seq.to_set().contains(x) {
                let k = choose|k: int| 0 <= k < n && #[trigger] full_seq[k] == x;
                assert(idx.contains(x));
            }
        }
    }
    assert(full_seq.no_duplicates()) by {
        assert forall|a: int, b: int| 0 <= a < n && 0 <= b < n && a != b implies full_seq[a]
            != full_seq[b] by {
            assert(full_seq[a] == a as usize);
        }
    }
    full_seq.unique_seq_to_set();
}

/// `s` is strictly increasing by `(key, index)`.
pub open spec fn strictly_ranked(s: Seq<usize>, key: spec_fn(int) -> (u32, i32)) -> bool {
    forall|a: int, b: int|
        0 <= a < b < s.len() ==> key_lt(#[trigger] rank_key(key, s[a]), #[trigger] rank_key(key, s[b]))
}

/// `x` inserted into the ranked `s` at its place.
pub open spec fn insert_ranked(s: Seq<usize>, x: usize, key: spec_fn(int) -> (u32, i32)) -> Seq<usize>
    decreases s.len(),
{
    if s.len() == 0 {
        seq![x]
    } else if key_lt(rank_key(key, x), rank_key(key, s[0])) {
        seq![x] + s
    } else {
        seq![s[0]] + insert_ranked(s.drop_first(), x, key)
    }
}

proof fn lemma_insert_ranked(s: Seq<usize>, x: usize, key: spec_fn(int) -> (u32, i32))
    requires
        strictly_ranked(s, key),
        !s.contains(x),
    ensures
        strictly_ranked(insert_ranked(s, x, key), key),
        forall|y: usize| #[trigger] insert_ranked(s, x, key).contains(y) <==> (y == x || s.contains(y)),
    decreases s.len(),
{
    let r = insert_ranked(s, x, key);
    if s.len() == 0 {
        assert forall|y: usize| #[trigger] r.contains(y) <==> (y == x || s.contains(y)) by {
            if y == x {
                assert(r[0] == x);
            }
        }
    } else if key_lt(rank_key(key, x), rank_key(key, s[0])) {
        assert forall|a: int, b: int| 0 <= a < b < r.len() implies key_lt(
            #[trigger] rank_key(key, r[a]),
            #[trigger] rank_key(key, r[b]),
        ) by {
            if a == 0 {
                if b > 1 {
                    assert(key_lt(rank_key(key, s[0]), rank_key(key, s[b - 1])));
                }
            } else {
                assert(key_lt(rank_key(key, s[a - 1]), rank_key(key, s[b - 1])));
            }
        }
        assert forall|y: usize| #[trigger] r.contains(y) <==> (y == x || s.contains(y)) by {
            if y == x {
                assert(r[0] == x);
            }
            if s.contains(y) {
                let j = choose|j: int| 0 <= j < s.len() && s[j] == y;
                assert(r[j + 1] == y);
            }
            if r.contains(y) {
                let j = choose|j: int| 0 <= j < r.len() && r[j] == y;
                if j > 0 {
                    assert(s[j - 1] == y);
                }
            }
        }
    } else {
        let t = s.drop_first();
        assert(strictly_ranked(t, key)) by {
            assert forall|a: int, b: int| 0 <= a < b < t.len() implies key_lt(
                #[trigger] rank_key(key, t[a]),
                #[trigger] rank_key(key, t[b]),
            ) by {
                assert(key_lt(rank_key(key, s[a + 1]), rank_key(key, s[b + 1])));
            }
        }
        assert(!t.contains(x)) by {
            if t.contains(x) {
                let j = choose|j: int| 0 <= j < t.len() && t[j] == x;
                assert(s[j + 1] == x);
            }
        }
        lemma_insert_ranked(t, x, key);
        let it = insert_ranked(t, x, key);
        assert(r == seq![s[0]] + it);
        assert(x != s[0]) by {
            assert(s.contains(s[0]));
        }
        assert forall|y: usize| it.contains(y) implies key_lt(rank_key(key, s[0]), rank_key(key, y)) by {
            if y != x {
                let j = choose|j: int| 0 <= j < t.len() && t[j] == y;
                assert(key_lt(rank_key(key, s[0]), rank_key(key, s[j + 1])));
            }
        }
        assert forall|a: int, b: int| 0 <= a < b < r.len() implies key_lt(
            #[trigger] rank_key(key, r[a]),
            #[trigger] rank_key(key, r[b]),
        ) by {
            if a == 0 {
                assert(it.contains(it[b - 1]));
            } else {
                assert(key_lt(rank_key(key, it[a - 1]), rank_key(key, it[b - 1])));
            }
        }
        assert forall|y: usize| #[trigger] r.contains(y) <==> (y == x || s.contains(y)) by {
            if r.contains(y) {
                let j = choose|j: int| 0 <= j < r.len() && r[j] == y;
                if j > 0 {
                    assert(it.contains(y));
                    if y != x {
                        let i = choose|i: int| 0 <= i < t.len() && t[i] == y;
                        assert(s[i + 1] == y);
                    }
                } else {
                    assert(s[0] == y);
                }
            }
            if y == x || s.contains(y) {
                if y == s[0] {
                    assert(r[0] == y);
                } else {
                    if y != x {
                        let i = choose|i: int| 0 <= i < s.len() && s[i] == y;
                        assert(t[i - 1] == y);
                    }
                    assert(it.contains(y));
                    let j = choose|j: int| 0 <= j < it.len() && it[j] == y;
                    assert(r[j + 1] == y);
                }
            }
        }
    }
}

/// Every selection has a ranking: `ranking` picks one, so what the search
/// and parser contracts say through it is about an actual ordering.
pub proof fn lemma_ranking_exists(n: int, selected: spec_fn(int) -> bool, key: spec_fn(int) -> (u32, i32))
    requires
        0 <= n <= usize::MAX,
    ensures
        is_ranking(n, selected, key, ranking(n, selected, key)),
    decreases n,
{
    if n == 0 {
        assert(is_ranking(n, selected, key, Seq::<usize>::empty()));
    } else {
        lemma_ranking_exists(n - 1, selected, key);
        let prev = ranking(n - 1, selected, key);
        let x = (n - 1) as usize;
        if !selected(n - 1) {
            assert forall|i: int| 0 <= i < n && #[trigger] selected(i) implies prev.contains(i as usize) by {}
            assert(is_ranking(n, selected, key, prev));
        } else {
            assert(!prev.contains(x)) by {
                if prev.contains(x) {
                    let j = choose|j: int| 0 <= j < prev.len() && prev[j] == x;
                    assert(prev[j] < n - 1);
                }
            }
            assert(strictly_ranked(prev, key));
            lemma_insert_ranked(prev, x, key);
            let r = insert_ranked(prev, x, key);
            assert forall|k: int| 0 <= k < r.len() implies #[trigger] r[k] < n && selected(r[k] as int) by {
                assert(r.contains(r[k]));
                if r[k] != x {
                    let j = choose|j: int| 0 <= j < prev.len() && prev[j] == r[k];
                    assert(prev[j] < n - 1 && selected(prev[j] as int));
                }
            }
            assert forall|i: int| 0 <= i < n && #[trigger] selected(i) implies r.contains(i as usize) by {
                if i < n - 1 {
                    assert(prev.contains(i as usize));
                }
            }
            assert(is_ranking(n, selected, key, r));
        }
    }
}

} // verus!
