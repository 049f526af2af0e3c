//! Picking a random event.

use vstd::prelude::*;

use crate::models::{projects_event, PkaEvent, PkaEventSearchResult};
use crate::text::{chars_of, contains_folded, contains_folded_exec};

verus! {

/// An event may be offered as a random pick unless its description mentions
/// an outro, an intro or an ad read (ASCII letters in any case).
pub open spec fn is_random_candidate(e: PkaEvent) -> bool {
    &&& !contains_folded(e.description@, "outro"@)
    &&& !contains_folded(e.description@, "intro"@)
    &&& !contains_folded(e.description@, "ad read"@)
}

/// `c` lists, ascending and without repetition, exactly the indices of the
/// events that may be picked at random.
pub open spec fn is_candidate_list(events: Seq<PkaEvent>, c: Seq<usize>) -> bool {
    &&& forall|k: int| 0 <= k < c.len() ==> #[trigger] c[k] < events.len() && is_random_candidate(events[c[k] as int])
    &&& forall|a: int, b: int| 0 <= a < b < c.len() ==> #[trigger] c[a] < #[trigger] c[b]
    &&& forall|i: int| 0 <= i < events.len() && is_random_candidate(#[trigger] events[i]) ==> c.contains(i as usize)
}

/// The indices of the events that may be picked at random, ascending.
pub fn random_event_candidates(events: &Vec<PkaEvent>) -> (r: Vec<usize>)
    ensures
        is_candidate_list(events@, r@),
{
    let outro = chars_of("outro");
    let intro = chars_of("intro");
    let ad_read = chars_of("ad read");
    let mut r: Vec<usize> = Vec::new();
    let mut i: usize = 0;
    while i < events.len()
        invariant
            i <= events.len(),
            outro@ == "outro"@,
            intro@ == "intro"@,
            ad_read@ == "ad read"@,
            forall|k: int| 0 <= k < r.len() ==> #[trigger] r[k] < i && is_random_candidate(events[r[k] as int]),
            forall|a: int, b: int| 0 <= a < b < r.len() ==> #[trigger] r[a] < #[trigger] r[b],
            forall|j: int| 0 <= j < i && is_random_candidate(#[trigger] events[j]) ==> r@.contains(j as usize),
        decreases events.len() - i,
    {
        let d = chars_of(events[i].description.as_str());
        if !contains_folded_exec(&d, &outro) && !contains_folded_exec(&d, &intro) && !contains_folded_exec(&d, &ad_read) {
            let ghost before = r@;
            r.push(i);
            assert forall|j: int| 0 <= j < i + 1 && is_random_candidate(#[trigger] events[j]) implies r@.contains(j as usize) by {
                if j < i {
                    let k = choose|k: int| 0 <= k < before.len() && before[k] == j as usize;
                    assert(r@[k] == j as usize);
                } else {
                    assert(r@[r.len() - 1] == j as usize);
                }
            }
        }
        i = i + 1;
    }
    r
}

/// Picks an event at random: `draw` is a random number, and the pick is the
/// candidate at `draw` modulo the number of candidates. `None` when no event
/// is a candidate.
pub fn pick_random_event(events: &Vec<PkaEvent>, draw: u64) -> (r: Option<PkaEventSearchResult>)
    ensures
        r is None <==> forall|i: int| 0 <= i < events.len() ==> !is_random_candidate(#[trigger] events[i]),
        r is Some ==> exists|c: Seq<usize>|
            #[trigger] is_candidate_list(events@, c) && c.len() > 0 && projects_event(
                r->0,
                events[c[(draw as int) % c.len() as int] as int],
            ),
{
    let cands = random_event_candidates(events);
    if cands.len() == 0 {
        assert forall|i: int| 0 <= i < events.len() implies !is_random_candidate(#[trigger] events[i]) by {
            if is_random_candidate(events[i]) {
                assert(cands@.contains(i as usize));
            }
        }
        return None;
    }
    let k = (draw % (cands.len() as u64)) as usize;
    let idx = cands[k];
    let r = PkaEventSearchResult::from_event(&events[idx]);
    assert(is_candidate_list(events@, cands@));
    Some(r)
}

/// The candidate list is unique, so the pick is determined by the events and
/// the draw.
pub proof fn lemma_candidate_list_unique(events: Seq<PkaEvent>, c1: Seq<usize>, c2: Seq<usize>)
    requires
        is_candidate_list(events, c1),
        is_candidate_list(events, c2),
    ensures
        c1 == c2,
{
    let key = |i: int| (0u32, 0i32);
    assert forall|x: usize| c1.contains(x) <==> c2.contains(x) by {
        if c1.contains(x) {
            let j = choose|j: int| 0 <= j < c1.len() && c1[j] == x;
            assert(c1[j] < events.len() && is_random_candidate(events[c1[j] as int]));
        }
        if c2.contains(x) {
            let j = choose|j: int| 0 <= j < c2.len() && c2[j] == x;
            assert(c2[j] < events.len() && is_random_candidate(events[c2[j] as int]));
        }
    }
    assert forall|a: int, b: int| 0 <= a < b < c1.len() implies crate::search::key_lt(
        #[trigger] crate::search::rank_key(key, c1[a]),
        #[trigger] crate::search::rank_key(key, c1[b]),
    ) by {
        assert(c1[a] < c1[b]);
    }
    assert forall|a: int, b: int| 0 <= a < b < c2.len() implies crate::search::key_lt(
        #[trigger] crate::search::rank_key(key, c2[a]),
        #[trigger] crate::search::rank_key(key, c2[b]),
    ) by {
        assert(c2[a] < c2[b]);
    }
    crate::search::lemma_sorted_unique(c1, c2, key);
}

} // verus!
