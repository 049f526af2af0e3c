//! The multi-term matcher: every query term must occur in the field,
//! ASCII letters compared without regard to case.

use vstd::prelude::*;

use crate::text::{
    chars_of, contains_folded, split_terms, split_terms_exec, trim, trim_chars, views,
};
use aho_corasick::{AhoCorasick, AhoCorasickBuilder, BuildError, MatchKind};

verus! {

#[verifier::external_type_specification]
#[verifier::external_body]
pub struct ExAhoCorasick(AhoCorasick);

#[verifier::external_type_specification]
#[verifier::external_body]
pub struct ExBuildError(BuildError);

/// The patterns an automaton searches for, pattern `k` at index `k`.
pub uninterp spec fn automaton_terms(ac: AhoCorasick) -> Seq<Seq<char>>;

/// The automaton was built with standard match semantics, which permit
/// overlapping search, and with ASCII case folding.
pub uninterp spec fn overlapping_folded(ac: AhoCorasick) -> bool;

/// Whether an automaton for these patterns can be built (the builder refuses
/// only pattern sets too large for its state and pattern identifiers).
pub uninterp spec fn automaton_builds(terms: Seq<Seq<char>>) -> bool;

/// The query's automaton can be built, or the query has no terms and needs
/// none.
pub open spec fn query_buildable(q: Seq<char>) -> bool {
    query_terms(q).len() == 0 || automaton_builds(query_terms(q))
}

/// Relies on aho_corasick's `AhoCorasickBuilder::build`, with
/// `MatchKind::Standard` and `ascii_case_insensitive(true)`: when it succeeds,
/// pattern `k` of the automaton is `terms[k]`. Whether it succeeds depends on
/// the patterns alone.
#[verifier::external_body]
fn build_automaton(terms: &Vec<Vec<char>>) -> (r: Result<AhoCorasick, BuildError>)
    ensures
        r is Ok <==> automaton_builds(views(terms@)),
        r is Ok ==> automaton_terms(r->Ok_0) == views(terms@) && overlapping_folded(r->Ok_0),
{
    AhoCorasickBuilder::new().match_kind(MatchKind::Standard).ascii_case_insensitive(true).build(
        terms.iter().map(|t| t.iter().collect::<String>()),
    )
}

/// Relies on aho_corasick's `AhoCorasick::find_overlapping_iter`, which
/// reports every match of every pattern at every position of `field`; the
/// index of the pattern of each match is kept, in order.
#[verifier::external_body]
fn overlapping_hits(ac: &AhoCorasick, field: &str) -> (r: Vec<usize>)
    requires
        overlapping_folded(*ac),
        forall|k: int|
            0 <= k < automaton_terms(*ac).len() ==> #[trigger] automaton_terms(*ac)[k].len() > 0,
    ensures
        forall|k: int|
            0 <= k < r.len() ==> #[trigger] r[k] < automaton_terms(*ac).len() && contains_folded(
                field@,
                automaton_terms(*ac)[r[k] as int],
            ),
        forall|i: int|
            0 <= i < automaton_terms(*ac).len() && contains_folded(
                field@,
                #[trigger] automaton_terms(*ac)[i],
            ) ==> r@.contains(i as usize),
{
    ac.find_overlapping_iter(field).map(|m| m.pattern().as_usize()).collect()
}

/// The terms of a query: the query trimmed, then split on ASCII whitespace.
pub open spec fn query_terms(q: Seq<char>) -> Seq<Seq<char>> {
    split_terms(trim(q))
}

/// Every one of `terms` occurs in `field`, comparing ASCII letters without
/// regard to case.
pub open spec fn all_terms_occur(terms: Seq<Seq<char>>, field: Seq<char>) -> bool {
    forall|k: int| 0 <= k < terms.len() ==> contains_folded(field, #[trigger] terms[k])
}

/// A query matches a field when every term of the query occurs in the field,
/// comparing ASCII letters without regard to case. A query without terms
/// matches every field.
pub open spec fn matches_query(q: Seq<char>, field: Seq<char>) -> bool {
    all_terms_occur(query_terms(q), field)
}

/// The automaton for a query could not be built.
#[derive(Debug, Clone, Copy, PartialEq, Eq, Structural)]
pub enum MatcherError {
    AutomatonUnavailable,
}

/// Every term that splitting yields holds at least one character.
pub proof fn lemma_terms_nonempty(s: Seq<char>)
    ensures
        forall|k: int| 0 <= k < split_terms(s).len() ==> #[trigger] split_terms(s)[k].len() > 0,
    decreases s.len(),
{
    if s.len() > 0 {
        lemma_terms_nonempty(s.drop_last());
        let prev = split_terms(s.drop_last());
        assert forall|k: int| 0 <= k < split_terms(s).len() implies #[trigger] split_terms(s)[k].len()
            > 0 by {
            if k < prev.len() {
                assert(prev[k].len() > 0);
            }
        }
    }
}

/// A query that is empty after trimming matches every field.
pub proof fn lemma_blank_query_matches_all(q: Seq<char>, field: Seq<char>)
    requires
        trim(q).len() == 0,
    ensures
        matches_query(q, field),
{
    assert(split_terms(trim(q)) =~= Seq::<Seq<char>>::empty());
}

/// Number of `false` entries of `s`.
pub open spec fn unseen(s: Seq<bool>) -> nat
    decreases s.len(),
{
    if s.len() == 0 {
        0
    } else {
        unseen(s.drop_last()) + if s.last() {
            0nat
        } else {
            1nat
        }
    }
}

proof fn lemma_unseen_update(s: Seq<bool>, j: int)
    requires
        0 <= j < s.len(),
        !s[j],
    ensures
        unseen(s.update(j, true)) + 1 == unseen(s),
    decreases s.len(),
{
    if j < s.len() - 1 {
        assert(s.update(j, true).drop_last() =~= s.drop_last().update(j, true));
        lemma_unseen_update(s.drop_last(), j);
    } else {
        assert(s.update(j, true).drop_last() =~= s.drop_last());
    }
}

proof fn lemma_unseen_zero(s: Seq<bool>)
    requires
        unseen(s) == 0,
    ensures
        forall|j: int| 0 <= j < s.len() ==> s[j],
    decreases s.len(),
{
    if s.len() > 0 {
        lemma_unseen_zero(s.drop_last());
        assert forall|j: int| 0 <= j < s.len() implies s[j] by {
            if j < s.len() - 1 {
                assert(s.drop_last()[j] == s[j]);
            }
        }
    }
}

proof fn lemma_unseen_all_false(n: nat)
    ensures
        unseen(Seq::new(n, |i: int| false)) == n,
    decreases n,
{
    if n > 0 {
        assert(Seq::new(n, |i: int| false).drop_last() =~= Seq::new((n - 1) as nat, |i: int| false));
        lemma_unseen_all_false((n - 1) as nat);
    }
}

/// A multi-term matcher built once for a query and evaluated on many fields.
pub struct Matcher {
    terms: Vec<Vec<char>>,
    automaton: Option<AhoCorasick>,
}

impl Matcher {
    /// The terms that every matching field must contain.
    pub closed spec fn terms(&self) -> Seq<Seq<char>> {
        views(self.terms@)
    }

    pub closed spec fn wf(&self) -> bool {
        &&& forall|k: int| 0 <= k < self.terms@.len() ==> #[trigger] self.terms@[k]@.len() > 0
        &&& match self.automaton {
            None => self.terms@.len() == 0,
            Some(ac) => automaton_terms(ac) == views(self.terms@) && overlapping_folded(ac),
        }
    }

    /// Builds the matcher of a query: its terms are those of the trimmed
    /// query split on ASCII whitespace. Fails only when the automaton cannot
    /// be built.
    pub fn new(query: &str) -> (r: Result<Matcher, MatcherError>)
        ensures
            r is Ok ==> r->Ok_0.wf() && r->Ok_0.terms() == query_terms(query@),
            r is Ok <==> query_buildable(query@),
    {
        let chars = chars_of(query);
        let trimmed = trim_chars(&chars);
        let terms = split_terms_exec(&trimmed);
        proof {
            lemma_terms_nonempty(trimmed@);
            assert forall|k: int| 0 <= k < terms@.len() implies #[trigger] terms@[k]@.len() > 0 by {
                assert(views(terms@)[k] == terms@[k]@);
            }
        }
        if terms.len() == 0 {
            return Ok(Matcher { terms, automaton: None });
        }
        match build_automaton(&terms) {
            Ok(ac) => Ok(Matcher { terms, automaton: Some(ac) }),
            Err(_) => Err(MatcherError::AutomatonUnavailable),
        }
    }

    /// Whether every term of the matcher occurs in `field`. The field is
    /// scanned once; evaluation stops as soon as every term has been seen.
    pub fn is_match(&self, field: &str) -> (r: bool)
        requires
            self.wf(),
        ensures
            r == all_terms_occur(self.terms(), field@),
    {
        match &self.automaton {
            None => true,
            Some(ac) => {
                let n = self.terms.len();
                proof {
                    assert forall|k: int| 0 <= k < automaton_terms(*ac).len() implies #[trigger] automaton_terms(*ac)[k].len() > 0 by {
                        assert(views(self.terms@)[k] == self.terms@[k]@);
                    }
                }
                if n == 0 {
                    return true;
                }
                let hits = overlapping_hits(ac, field);
                let mut seen: Vec<bool> = Vec::new();
                let mut j: usize = 0;
                while j < n
                    invariant
                        j <= n == self.terms@.len(),
                        seen@ == Seq::new(j as nat, |i: int| false),
                    decreases n - j,
                {
                    seen.push(false);
                    assert(seen@ =~= Seq::new(j as nat + 1, |i: int| false));
                    j = j + 1;
                }
                proof {
                    lemma_unseen_all_false(n as nat);
                }
                let mut remaining: usize = n;
                let mut h: usize = 0;
                while h < hits.len()
                    invariant
                        n == self.terms@.len(),
                        automaton_terms(*ac) == self.terms(),
                        seen@.len() == n,
                        remaining == unseen(seen@),
                        remaining > 0,
                        h <= hits.len(),
                        forall|k: int| 0 <= k < hits.len() ==> #[trigger] hits[k] < n,
                        forall|k: int| 0 <= k < hits.len() ==> contains_folded(field@, self.terms()[#[trigger] hits[k] as int]),
                        forall|i: int| 0 <= i < n && contains_folded(field@, #[trigger] self.terms()[i]) ==> hits@.contains(i as usize),
                        forall|i: int| 0 <= i < n && #[trigger] seen@[i] ==> contains_folded(field@, self.terms()[i]),
                        forall|k: int| 0 <= k < h ==> seen@[#[trigger] hits[k] as int],
                    decreases hits.len() - h,
                {
                    let id = hits[h];
                    assert(hits[h as int] < n);
                    assert(contains_folded(field@, self.terms()[id as int]));
                    if !seen[id] {
                        proof {
                            lemma_unseen_update(seen@, id as int);
                        }
                        seen.set(id, true);
                        remaining = remaining - 1;
                        if remaining == 0 {
                            proof {
                                lemma_unseen_zero(seen@);
                                assert forall|k: int| 0 <= k < self.terms().len() implies contains_folded(
                                    field@,
                                    #[trigger] self.terms()[k],
                                ) by {
                                    assert(seen@[k]);
                                }
                            }
                            return true;
                        }
                    }
                    h = h + 1;
                }
                proof {
                    assert(unseen(seen@) > 0);
                    if forall|i: int| 0 <= i < n ==> seen@[i] {
                        lemma_all_seen_zero(seen@);
                    }
                    let i = choose|i: int| 0 <= i < n && !seen@[i];
                    if contains_folded(field@, self.terms()[i]) {
                        let k = choose|k: int| 0 <= k < hits.len() && hits@[k] == i as usize;
                        assert(seen@[hits[k] as int]);
                    }
                }
                false
            },
        }
    }
}

proof fn lemma_all_seen_zero(s: Seq<bool>)
    requires
        forall|j: int| 0 <= j < s.len() ==> s[j],
    ensures
        unseen(s) == 0,
    decreases s.len(),
{
    if s.len() > 0 {
        lemma_all_seen_zero(s.drop_last());
    }
}

/// Whether `field` matches `query`: every whitespace-separated term of the
/// trimmed query occurs in the field, ASCII letters compared without regard
/// to case.
pub fn matches(query: &str, field: &str) -> (r: Result<bool, MatcherError>)
    ensures
        r is Ok ==> r->Ok_0 == matches_query(query@, field@),
        r is Ok <==> query_buildable(query@),
        query_terms(query@).len() == 0 ==> r == Ok::<bool, MatcherError>(true),
{
    let m = Matcher::new(query)?;
    Ok(m.is_match(field))
}

} // verus!
