//! Cache-aside answering of event queries, and what it guarantees.

use vstd::prelude::*;

use crate::index::Snapshot;
use crate::matcher::{query_buildable, MatcherError};
use crate::models::{projects_event, PkaEvent, PkaEventSearchResult};
use crate::search::{
    event_key, event_ranking, event_selected, is_ranking, lemma_ranking_unique, search_event_results,
};
use crate::text::{chars_of, string_from_chars, trim, trim_chars};
use crate::wire::{encode_event_results, event_bytes, le_bytes, records_bytes};

verus! {

/// The tag that marks event search entries in the result cache.
pub open spec fn events_tag() -> Seq<char> {
    seq!['E', 'V', 'E', 'N', 'T', 'S']
}

/// The cache key of an event query: the tag, a colon, the trimmed query. The
/// tag holds no colon, so the first colon ends it and keys of distinct tags
/// or queries never collide.
pub open spec fn cache_key_spec(q: Seq<char>) -> Seq<char> {
    events_tag() + seq![':'] + trim(q)
}

/// The records of `es`, one after the other.
pub open spec fn events_records(es: Seq<PkaEvent>) -> Seq<u8>
    decreases es.len(),
{
    if es.len() == 0 {
        seq![]
    } else {
        events_records(es.drop_last()) + event_bytes(es.last())
    }
}

/// The encoded answer to event query `q` over the events `evs`.
pub open spec fn event_search_bytes(q: Seq<char>, evs: Seq<PkaEvent>) -> Seq<u8> {
    let rank = event_ranking(q, evs);
    le_bytes(rank.len() as nat, 8) + events_records(Seq::new(rank.len(), |k: int| evs[rank[k] as int]))
}

/// A cache answer counts as a hit only when it holds bytes.
pub open spec fn is_hit(cached: Option<Seq<u8>>) -> bool {
    cached is Some && cached->0.len() > 0
}

/// The bytes that answer `q` given what the cache returned.
pub open spec fn answer_bytes(cached: Option<Seq<u8>>, q: Seq<char>, evs: Seq<PkaEvent>) -> Seq<u8> {
    if is_hit(cached) {
        cached->0
    } else {
        event_search_bytes(q, evs)
    }
}

/// Whether answering `q` writes its bytes through to the cache: only after a
/// computation that found at least one event.
pub open spec fn answer_stores(cached: Option<Seq<u8>>, q: Seq<char>, evs: Seq<PkaEvent>) -> bool {
    !is_hit(cached) && event_ranking(q, evs).len() > 0
}

pub open spec fn lookup(cache: Map<Seq<char>, Seq<u8>>, k: Seq<char>) -> Option<Seq<u8>> {
    if cache.contains_key(k) {
        Some(cache[k])
    } else {
        None
    }
}

/// The cache after answering `q`.
pub open spec fn cache_after(cache: Map<Seq<char>, Seq<u8>>, q: Seq<char>, evs: Seq<PkaEvent>) -> Map<
    Seq<char>,
    Seq<u8>,
> {
    if answer_stores(lookup(cache, cache_key_spec(q)), q, evs) {
        cache.insert(cache_key_spec(q), event_search_bytes(q, evs))
    } else {
        cache
    }
}

/// Every entry of the cache is the answer, computed over `evs`, to the query
/// its key names, and that answer found at least one event.
pub open spec fn cache_consistent(cache: Map<Seq<char>, Seq<u8>>, evs: Seq<PkaEvent>) -> bool {
    forall|k: Seq<char>|
        #[trigger] cache.contains_key(k) ==> exists|q: Seq<char>|
            k == cache_key_spec(q) && cache[k] == event_search_bytes(q, evs) && event_ranking(q, evs).len()
                > 0
}

/// The outcome of an event query under cache-aside: the bytes to answer
/// with, whether they must be written through to the cache, and whether they
/// were computed rather than taken from the cache.
pub struct EventSearchOutcome {
    pub bytes: Vec<u8>,
    pub store: bool,
    pub computed: bool,
}

/// The key under which the answer to an event query is cached.
pub fn cache_key(query: &str) -> (r: String)
    ensures
        r@ == cache_key_spec(query@),
{
    let mut key: Vec<char> = Vec::new();
    key.push('E');
    key.push('V');
    key.push('E');
    key.push('N');
    key.push('T');
    key.push('S');
    key.push(':');
    let trimmed = trim_chars(&chars_of(query));
    let ghost head = key@;
    let mut i: usize = 0;
    while i < trimmed.len()
        invariant
            i <= trimmed@.len(),
            key@ == head + trimmed@.take(i as int),
        decreases trimmed.len() - i,
    {
        key.push(trimmed[i]);
        assert(key@ =~= head + trimmed@.take(i + 1));
        i = i + 1;
    }
    assert(trimmed@.take(trimmed@.len() as int) =~= trimmed@);
    assert(key@ =~= cache_key_spec(query@));
    string_from_chars(&key)
}

proof fn lemma_records_match(rs: Seq<PkaEventSearchResult>, es: Seq<PkaEvent>)
    requires
        rs.len() == es.len(),
        forall|k: int| 0 <= k < rs.len() ==> projects_event(#[trigger] rs[k], es[k]),
    ensures
        records_bytes(rs) == events_records(es),
    decreases rs.len(),
{
    if rs.len() > 0 {
        assert forall|k: int| 0 <= k < rs.len() - 1 implies projects_event(
            #[trigger] rs.drop_last()[k],
            es.drop_last()[k],
        ) by {
            assert(projects_event(rs[k], es[k]));
        }
        lemma_records_match(rs.drop_last(), es.drop_last());
        assert(projects_event(rs.last(), es.last()));
    }
}

/// Answers an event query under cache-aside. `cached` is what the result
/// cache returned for `cache_key(query)`. A hit (non-empty bytes) is answered
/// as it is; anything else is computed from the snapshot, and written through
/// only when the query found at least one event.
pub fn search_events(cached: Option<Vec<u8>>, query: &str, snapshot: &Snapshot) -> (r: Result<
    EventSearchOutcome,
    MatcherError,
>)
    ensures
        is_hit(
            match cached {
                Some(b) => Some(b@),
                None => None,
            },
        ) ==> r is Ok && r->Ok_0.bytes@ == cached->0@ && !r->Ok_0.store && !r->Ok_0.computed,
        !is_hit(
            match cached {
                Some(b) => Some(b@),
                None => None,
            },
        ) && r is Ok ==> r->Ok_0.computed && r->Ok_0.bytes@ == event_search_bytes(
            query@,
            snapshot.spec_events(),
        ) && r->Ok_0.store == (event_ranking(query@, snapshot.spec_events()).len() > 0),
        !is_hit(
            match cached {
                Some(b) => Some(b@),
                None => None,
            },
        ) ==> (r is Ok <==> query_buildable(query@)),
{
    match cached {
        Some(bytes) => {
            if bytes.len() > 0 {
                return Ok(EventSearchOutcome { bytes, store: false, computed: false });
            }
        },
        None => {},
    }
    let events = snapshot.events();
    let results = search_event_results(query, events)?;
    let bytes = encode_event_results(&results);
    proof {
        let rank = event_ranking(query@, events@);
        let es = Seq::new(rank.len(), |k: int| events@[rank[k] as int]);
        lemma_records_match(results@, es);
    }
    let store = results.len() > 0;
    Ok(EventSearchOutcome { bytes, store, computed: true })
}

/// Determinism: over one snapshot, event search has exactly one possible
/// order, so every computation for a query yields the same ranking and the
/// same bytes.
pub proof fn lemma_event_search_deterministic(
    q: Seq<char>,
    evs: Seq<PkaEvent>,
    r1: Seq<usize>,
    r2: Seq<usize>,
)
    requires
        is_ranking(evs.len() as int, event_selected(q, evs), event_key(evs), r1),
        is_ranking(evs.len() as int, event_selected(q, evs), event_key(evs), r2),
    ensures
        r1 == r2,
        r1 == event_ranking(q, evs),
{
    lemma_ranking_unique(evs.len() as int, event_selected(q, evs), event_key(evs), r1, r2);
    lemma_ranking_unique(evs.len() as int, event_selected(q, evs), event_key(evs), r1, event_ranking(q, evs));
}

/// Two queries with the same trimmed text have the same cache key, the same
/// answer and the same ranking.
pub proof fn lemma_answer_depends_on_trimmed_query(q1: Seq<char>, q2: Seq<char>, evs: Seq<PkaEvent>)
    requires
        trim(q1) == trim(q2),
    ensures
        cache_key_spec(q1) == cache_key_spec(q2),
        event_ranking(q1, evs) == event_ranking(q2, evs),
        event_search_bytes(q1, evs) == event_search_bytes(q2, evs),
{
    assert(event_selected(q1, evs) =~= event_selected(q2, evs));
}

/// Equal cache keys name queries with the same trimmed text.
pub proof fn lemma_cache_key_injective(q1: Seq<char>, q2: Seq<char>)
    requires
        cache_key_spec(q1) == cache_key_spec(q2),
    ensures
        trim(q1) == trim(q2),
{
    assert(trim(q1) =~= cache_key_spec(q1).skip(7));
    assert(trim(q2) =~= cache_key_spec(q2).skip(7));
}

/// Cache transparency: while the snapshot stays the same, an answer taken
/// from a cache that only ever stored computed answers equals a fresh
/// computation, and answering keeps the cache that way.
pub proof fn lemma_cache_transparent(cache: Map<Seq<char>, Seq<u8>>, q: Seq<char>, evs: Seq<PkaEvent>)
    requires
        cache_consistent(cache, evs),
    ensures
        answer_bytes(lookup(cache, cache_key_spec(q)), q, evs) == event_search_bytes(q, evs),
        cache_consistent(cache_after(cache, q, evs), evs),
{
    let k = cache_key_spec(q);
    if cache.contains_key(k) {
        let q2 = choose|q2: Seq<char>|
            k == cache_key_spec(q2) && cache[k] == event_search_bytes(q2, evs) && event_ranking(q2, evs).len()
                > 0;
        lemma_cache_key_injective(q, q2);
        lemma_answer_depends_on_trimmed_query(q, q2, evs);
    }
    let after = cache_after(cache, q, evs);
    assert forall|k2: Seq<char>| #[trigger] after.contains_key(k2) implies exists|q3: Seq<char>|
        k2 == cache_key_spec(q3) && after[k2] == event_search_bytes(q3, evs) && event_ranking(q3, evs).len()
            > 0 by {
        if k2 == k && answer_stores(lookup(cache, k), q, evs) {
            assert(k2 == cache_key_spec(q) && after[k2] == event_search_bytes(q, evs));
        } else {
            assert(cache.contains_key(k2));
            assert(after[k2] == cache[k2]);
        }
    }
}

/// Empty results are never cached: when `q` finds no event, a cache that
/// only ever stored computed answers holds no entry for it, answering `q`
/// computes and leaves the cache as it was, so the next identical query
/// computes again.
pub proof fn lemma_empty_results_not_cached(
    cache: Map<Seq<char>, Seq<u8>>,
    q: Seq<char>,
    evs: Seq<PkaEvent>,
)
    requires
        cache_consistent(cache, evs),
        event_ranking(q, evs).len() == 0,
    ensures
        !is_hit(lookup(cache, cache_key_spec(q))),
        !answer_stores(lookup(cache, cache_key_spec(q)), q, evs),
        cache_after(cache, q, evs) == cache,
        !is_hit(lookup(cache_after(cache, q, evs), cache_key_spec(q))),
{
    let k = cache_key_spec(q);
    if cache.contains_key(k) {
        let q2 = choose|q2: Seq<char>|
            k == cache_key_spec(q2) && cache[k] == event_search_bytes(q2, evs) && event_ranking(q2, evs).len()
                > 0;
        lemma_cache_key_injective(q, q2);
        lemma_answer_depends_on_trimmed_query(q, q2, evs);
    }
}

/// Determinism under cache-aside: over one snapshot, with a cache that only
/// ever stored computed answers, two consecutive answers to the same query,
/// the second after the first has updated the cache, are the same bytes, and
/// both equal a fresh computation.
pub proof fn lemma_repeated_answers_identical(
    cache: Map<Seq<char>, Seq<u8>>,
    q: Seq<char>,
    evs: Seq<PkaEvent>,
)
    requires
        cache_consistent(cache, evs),
    ensures
        answer_bytes(lookup(cache, cache_key_spec(q)), q, evs) == event_search_bytes(q, evs),
        answer_bytes(lookup(cache_after(cache, q, evs), cache_key_spec(q)), q, evs)
            == event_search_bytes(q, evs),
{
    lemma_cache_transparent(cache, q, evs);
    lemma_cache_transparent(cache_after(cache, q, evs), q, evs);
}

} // verus!
