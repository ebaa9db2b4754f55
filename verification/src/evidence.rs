//! What speaks for the results of a search: the hits that they were made of, named by their places.

use vstd::prelude::*;
use crate::candidates;
use crate::candidates::{ByRelevance, Candidate, CandidateView, FoundView, HitView};
use crate::models::{GroupedResultRecord, ScoreKey};
use crate::order;
use crate::search;
use crate::strings;

verus! {

/// The place of a hit: the chunk of the query that it is for, whether it is one by terms, and its
/// place among the hits that came with it.
#[verifier::ext_equal]
pub struct Place {
    pub chunk: int,
    pub by_terms: bool,
    pub at: int,
}

/// The hit at a place, if there is one.
pub open spec fn hit_at(found: Seq<FoundView>, p: Place) -> Option<HitView> {
    if 0 <= p.chunk < found.len() {
        let hits = if p.by_terms {
            found[p.chunk].lexical
        } else {
            found[p.chunk].dense
        };
        if 0 <= p.at < hits.len() {
            hits[p.at]
        } else {
            None
        }
    } else {
        None
    }
}

/// Whether a place comes before another: chunk by chunk, the hits by terms first.
pub open spec fn earlier(a: Place, b: Place) -> bool {
    a.chunk < b.chunk || a.chunk == b.chunk && (a.by_terms && !b.by_terms || a.by_terms
        == b.by_terms && a.at < b.at)
}

/// Whether there is a hit under a key at a place.
pub open spec fn hits_key(found: Seq<FoundView>, p: Place, key: i64) -> bool {
    hit_at(found, p) matches Some(h) && h.key == key
}

/// Whether the places are those of all hits under a key, in order.
pub open spec fn places_of(found: Seq<FoundView>, key: i64, log: Seq<Place>) -> bool {
    &&& forall|m: int| 0 <= m < log.len() ==> hits_key(found, #[trigger] log[m], key)
    &&& forall|p: Place| #[trigger] hits_key(found, p, key) ==> log.contains(p)
    &&& forall|m: int, n: int|
        0 <= m < n < log.len() ==> earlier(#[trigger] log[m], #[trigger] log[n])
}

/// Whether the hit at a place brought a text.
pub open spec fn brought(found: Seq<FoundView>, p: Place, snippet: Seq<char>) -> bool {
    hit_at(found, p) matches Some(h) && h.snippet == snippet
}

/// Whether a text is no better than another for the chunk that a place is for.
pub open spec fn no_better(
    found: Seq<FoundView>,
    p: Place,
    text: Seq<char>,
    than: Seq<char>,
) -> bool {
    let terms = found[p.chunk].chunk.terms;
    match (candidates::snippet_score(text, terms), candidates::snippet_score(than, terms)) {
        (Some(a), Some(b)) => !candidates::beats(a, b),
        _ => false,
    }
}

/// How many terms of its chunk the text of the hit at a place holds.
pub open spec fn overlap_at(found: Seq<FoundView>, p: Place) -> int {
    match candidates::snippet_overlap(
        hit_at(found, p)->Some_0.snippet,
        found[p.chunk].chunk.terms,
    ) {
        Some(n) => n as int,
        None => -1,
    }
}

/// Whether the chunk at a place is the first of those whose hits hold most of their terms.
pub open spec fn holds_most(
    found: Seq<FoundView>,
    log: Seq<Place>,
    m: int,
    text: Seq<char>,
    overlap: int,
) -> bool {
    &&& found[log[m].chunk].chunk.text == text
    &&& overlap_at(found, log[m]) == overlap
    &&& forall|n: int| 0 <= n < m ==> overlap_at(found, #[trigger] log[n]) < overlap
}

/// Whether a candidate is made of the hits at these places.
pub open spec fn made_of(c: CandidateView, found: Seq<FoundView>, log: Seq<Place>) -> bool {
    &&& log.len() > 0
    &&& c.card == hit_at(found, log[0])->Some_0.card
    &&& c.ranks.len() == log.len()
    &&& forall|m: int| 0 <= m < log.len() ==> c.ranks[m] == (#[trigger] log[m]).at as usize
    &&& c.lexical_bonus == log.filter(|p: Place| p.by_terms).len()
    &&& forall|m: int|
        0 <= m < log.len() ==> hit_at(found, #[trigger] log[m])->Some_0.score <= c.rerank_score
    &&& exists|m: int|
        0 <= m < log.len() && hit_at(found, #[trigger] log[m])->Some_0.score == c.rerank_score
    &&& exists|m: int| 0 <= m < log.len() && brought(found, #[trigger] log[m], c.best_snippet)
    &&& forall|m: int|
        0 <= m < log.len() && (#[trigger] log[m]).chunk == log.last().chunk ==> no_better(
            found,
            log[m],
            hit_at(found, log[m])->Some_0.snippet,
            c.best_snippet,
        )
    &&& forall|k: int|
        0 <= k < c.matched_labels.len() ==> labelled(found, log, #[trigger] c.matched_labels[k])
    &&& c.matched_labels.len() <= 6
    &&& c.matched_labels.len() < 6 ==> forall|m: int|
        0 <= m < log.len() ==> c.matched_labels.contains(
            found[(#[trigger] log[m]).chunk].chunk.label,
        )
    &&& forall|m: int|
        0 <= m < log.len() ==> overlap_at(found, #[trigger] log[m]) <= c.best_query_overlap
    &&& exists|m: int|
        0 <= m < log.len() && #[trigger] holds_most(
            found,
            log,
            m,
            c.best_query_text,
            c.best_query_overlap,
        )
}

/// Whether a label is that of a chunk that one of the hits is for.
pub open spec fn labelled(found: Seq<FoundView>, log: Seq<Place>, label: Seq<char>) -> bool {
    exists|m: int| 0 <= m < log.len() && found[(#[trigger] log[m]).chunk].chunk.label == label
}

/// Whether a candidate is made of all hits under its key.
#[verifier::opaque]
pub open spec fn has_evidence(c: CandidateView, found: Seq<FoundView>) -> bool {
    exists|log: Seq<Place>| #[trigger] places_of(found, c.key, log) && made_of(c, found, log)
}

/// Whether some hit under a key comes before a place.
#[verifier::opaque]
pub open spec fn hit_before(found: Seq<FoundView>, key: i64, p: Place) -> bool {
    exists|q: Place| #[trigger] hits_key(found, q, key) && earlier(q, p)
}

/// Whether the candidates are those of the hits: every one is made of the hits under its key, every
/// hit has its candidate, no two are under one key, and those that were hit first come first.
pub open spec fn evident(cs: Seq<CandidateView>, found: Seq<FoundView>) -> bool {
    &&& forall|i: int| 0 <= i < cs.len() ==> has_evidence(#[trigger] cs[i], found)
    &&& forall|p: Place| #[trigger]
        hit_at(found, p) is Some ==> candidates::has_key(cs, hit_at(found, p)->Some_0.key)
    &&& forall|i: int, j: int|
        0 <= i < j < cs.len() ==> (#[trigger] cs[i]).key != (#[trigger] cs[j]).key
    &&& forall|i: int, j: int, p: Place|
        0 <= i < j < cs.len() && #[trigger] hits_key(found, p, (#[trigger] cs[j]).key)
            ==> hit_before(found, (#[trigger] cs[i]).key, p)
}

/// Whether the hits are those of before and one more, behind all of them.
spec fn one_more(
    found: Seq<FoundView>,
    more: Seq<FoundView>,
    new: Place,
    hit: Option<HitView>,
) -> bool {
    &&& found.len() == more.len()
    &&& forall|i: int|
        0 <= i < found.len() ==> (#[trigger] more[i]).chunk == found[i].chunk
    &&& hit_at(more, new) == hit
    &&& hit_at(found, new) is None
    &&& forall|p: Place| p != new ==> #[trigger] hit_at(more, p) == hit_at(found, p)
    &&& forall|p: Place| #[trigger] hit_at(found, p) is Some ==> earlier(p, new)
}

proof fn lemma_same_evidence(
    c: CandidateView,
    found: Seq<FoundView>,
    more: Seq<FoundView>,
    new: Place,
    hit: Option<HitView>,
)
    requires
        one_more(found, more, new, hit),
        has_evidence(c, found),
        hit matches Some(h) ==> h.key != c.key,
    ensures
        has_evidence(c, more),
{
    reveal(has_evidence);
    let log = choose|log: Seq<Place>| #[trigger]
        places_of(found, c.key, log) && made_of(c, found, log);
    assert forall|m: int| 0 <= m < log.len() implies hit_at(more, #[trigger] log[m]) == hit_at(
        found,
        log[m],
    ) && hits_key(more, log[m], c.key) && 0 <= log[m].chunk < found.len() by {
        assert(hits_key(found, log[m], c.key));
        assert(hit_at(found, log[m]) is Some);
    }
    assert forall|p: Place| #[trigger] hits_key(more, p, c.key) implies log.contains(p) by {
        assert(hit_at(more, p) is Some);
        assert(p != new);
        assert(hits_key(found, p, c.key));
    }
    assert(places_of(more, c.key, log));
    lemma_made_of_same(c, found, more, log);
}

/// What a candidate is made of depends on its own hits alone.
proof fn lemma_made_of_same(
    c: CandidateView,
    found: Seq<FoundView>,
    more: Seq<FoundView>,
    log: Seq<Place>,
)
    requires
        made_of(c, found, log),
        forall|m: int|
            0 <= m < log.len() ==> hit_at(more, #[trigger] log[m]) == hit_at(found, log[m])
                && more[log[m].chunk].chunk == found[log[m].chunk].chunk,
    ensures
        made_of(c, more, log),
{
    let a = choose|m: int|
        0 <= m < log.len() && hit_at(found, #[trigger] log[m])->Some_0.score == c.rerank_score;
    assert(hit_at(more, log[a])->Some_0.score == c.rerank_score);
    let b = choose|m: int|
        0 <= m < log.len() && brought(found, #[trigger] log[m], c.best_snippet);
    assert(brought(more, log[b], c.best_snippet));
    assert forall|m: int|
        0 <= m < log.len() && (#[trigger] log[m]).chunk == log.last().chunk implies no_better(
        more,
        log[m],
        hit_at(more, log[m])->Some_0.snippet,
        c.best_snippet,
    ) by {
        assert(no_better(
            found,
            log[m],
            hit_at(found, log[m])->Some_0.snippet,
            c.best_snippet,
        ));
    }
    assert forall|k: int| 0 <= k < c.matched_labels.len() implies labelled(
        more,
        log,
        #[trigger] c.matched_labels[k],
    ) by {
        assert(labelled(found, log, c.matched_labels[k]));
        let m = choose|m: int|
            0 <= m < log.len() && found[(#[trigger] log[m]).chunk].chunk.label
                == c.matched_labels[k];
        assert(more[log[m].chunk].chunk.label == c.matched_labels[k]);
    }
    assert forall|m: int| 0 <= m < log.len() implies overlap_at(more, #[trigger] log[m])
        == overlap_at(found, log[m]) by {}
    let m = choose|m: int|
        0 <= m < log.len() && #[trigger] holds_most(
            found,
            log,
            m,
            c.best_query_text,
            c.best_query_overlap,
        );
    assert forall|n: int| 0 <= n < m implies overlap_at(more, #[trigger] log[n])
        < c.best_query_overlap by {
        assert(overlap_at(found, log[n]) < c.best_query_overlap);
    }
    assert(holds_most(more, log, m, c.best_query_text, c.best_query_overlap));
}

/// A candidate with one more hit counted is made of its hits and the new one.
proof fn lemma_counted_made_of(
    c: CandidateView,
    after: CandidateView,
    found: Seq<FoundView>,
    log: Seq<Place>,
    new: Place,
    hit: HitView,
)
    requires
        made_of(c, found, log),
        candidates::in_order(c.matched_labels),
        c.matched_labels.len() <= candidates::MAX_LABELS,
        forall|m: int|
            0 <= m < log.len() ==> hit_at(found, #[trigger] log[m]) is Some && earlier(
                log[m],
                new,
            ),
        forall|m: int, n: int|
            0 <= m < n < log.len() ==> earlier(#[trigger] log[m], #[trigger] log[n]),
        0 <= new.chunk < found.len(),
        hit_at(found, new) == Some(hit),
        candidates::counted(
            c,
            found[new.chunk].chunk,
            new.at as usize,
            hit.score,
            hit.snippet,
            hit.lexical,
        ) == Some(after),
        hit.lexical == new.by_terms,
    ensures
        made_of(after, found, log.push(new)),
{
    let chunk = found[new.chunk].chunk;
    let all = log.push(new);
    let by_terms = |p: Place| p.by_terms;
    candidates::law_labels(c.matched_labels, chunk.label);
    assert forall|m: int| 0 <= m < log.len() implies all[m] == log[m] by {}
    assert(all[log.len() as int] == new);
    reveal(Seq::filter);
    assert(all.drop_last() =~= log);
    assert(all.filter(by_terms).len() == log.filter(by_terms).len() + if new.by_terms {
        1int
    } else {
        0
    });
    // The scores.
    let a = choose|m: int|
        0 <= m < log.len() && hit_at(found, #[trigger] log[m])->Some_0.score == c.rerank_score;
    assert(hit_at(found, all[a])->Some_0.score == c.rerank_score);
    assert(hit_at(found, all[log.len() as int])->Some_0.score == hit.score);
    // The snippet.
    let b = choose|m: int|
        0 <= m < log.len() && brought(found, #[trigger] log[m], c.best_snippet);
    assert(brought(found, all[b], c.best_snippet));
    assert(brought(found, all[log.len() as int], hit.snippet));
    assert forall|m: int|
        0 <= m < all.len() && (#[trigger] all[m]).chunk == all.last().chunk implies no_better(
        found,
        all[m],
        hit_at(found, all[m])->Some_0.snippet,
        after.best_snippet,
    ) by {
        if m < log.len() {
            assert(earlier(log[m], new));
            if m < log.len() - 1 {
                assert(earlier(log[m], log[log.len() - 1]));
                assert(earlier(log[log.len() - 1], new));
            }
            assert(log[m].chunk == new.chunk);
            assert(log.last() == log[log.len() - 1]);
            if log.last().chunk == log[m].chunk {
                assert(no_better(
                    found,
                    log[m],
                    hit_at(found, log[m])->Some_0.snippet,
                    c.best_snippet,
                ));
            }
        }
    }
    // The labels.
    assert forall|k: int| 0 <= k < after.matched_labels.len() implies labelled(
        found,
        all,
        #[trigger] after.matched_labels[k],
    ) by {
        let label = after.matched_labels[k];
        assert(after.matched_labels.contains(label));
        if label == chunk.label {
            assert(found[all[log.len() as int].chunk].chunk.label == label);
        } else {
            let j = choose|j: int| 0 <= j < c.matched_labels.len() && c.matched_labels[j] == label;
            assert(labelled(found, log, c.matched_labels[j]));
            let m = choose|m: int|
                0 <= m < log.len() && found[(#[trigger] log[m]).chunk].chunk.label == label;
            assert(found[all[m].chunk].chunk.label == label);
        }
    }
    if after.matched_labels.len() < 6 {
        assert forall|m: int| 0 <= m < all.len() implies after.matched_labels.contains(
            found[(#[trigger] all[m]).chunk].chunk.label,
        ) by {
            if m < log.len() {
                assert(c.matched_labels.contains(found[log[m].chunk].chunk.label));
            }
        }
    }
    // The query.
    let h = choose|m: int|
        0 <= m < log.len() && #[trigger] holds_most(
            found,
            log,
            m,
            c.best_query_text,
            c.best_query_overlap,
        );
    assert(overlap_at(found, all[log.len() as int]) >= 0);
    assert forall|n: int| 0 <= n < log.len() implies overlap_at(found, #[trigger] all[n])
        <= c.best_query_overlap by {
        assert(overlap_at(found, log[n]) <= c.best_query_overlap);
    }
    if overlap_at(found, new) > c.best_query_overlap {
        assert(holds_most(
            found,
            all,
            log.len() as int,
            after.best_query_text,
            after.best_query_overlap,
        ));
    } else {
        assert forall|n: int| 0 <= n < h implies overlap_at(found, #[trigger] all[n])
            < c.best_query_overlap by {
            assert(overlap_at(found, log[n]) < c.best_query_overlap);
        }
        assert(holds_most(found, all, h, after.best_query_text, after.best_query_overlap));
    }
}


proof fn lemma_fresh_made_of(
    after: CandidateView,
    found: Seq<FoundView>,
    new: Place,
    hit: HitView,
)
    requires
        0 <= new.chunk < found.len(),
        hit_at(found, new) == Some(hit),
        candidates::counted(
            candidates::fresh(found[new.chunk].chunk, hit),
            found[new.chunk].chunk,
            new.at as usize,
            hit.score,
            hit.snippet,
            hit.lexical,
        ) == Some(after),
        hit.lexical == new.by_terms,
    ensures
        made_of(after, found, seq![new]),
{
    let chunk = found[new.chunk].chunk;
    let log = seq![new];
    let by_terms = |p: Place| p.by_terms;
    candidates::law_labels(Seq::empty(), chunk.label);
    reveal(Seq::filter);
    assert(log.drop_last() =~= Seq::<Place>::empty());
    assert(log.drop_last().filter(by_terms).len() == 0);
    assert(log.filter(by_terms).len() == if new.by_terms {
        1int
    } else {
        0
    });
    assert(hit_at(found, log[0])->Some_0.score == after.rerank_score);
    assert(brought(found, log[0], after.best_snippet));
    assert(overlap_at(found, log[0]) >= 0);
    assert(holds_most(found, log, 0, after.best_query_text, after.best_query_overlap));
    assert forall|k: int| 0 <= k < after.matched_labels.len() implies labelled(
        found,
        log,
        #[trigger] after.matched_labels[k],
    ) by {
        assert(after.matched_labels.contains(after.matched_labels[k]));
        assert(found[log[0].chunk].chunk.label == after.matched_labels[k]);
    }
}

/// The hits under a key are those of before, and the new one where it is under the key.
proof fn lemma_keys_one_more(
    found: Seq<FoundView>,
    more: Seq<FoundView>,
    new: Place,
    hit: HitView,
)
    requires
        one_more(found, more, new, Some(hit)),
    ensures
        hits_key(more, new, hit.key),
        forall|p: Place, key: i64| #[trigger]
            hits_key(found, p, key) ==> hits_key(more, p, key) && earlier(p, new) && p != new,
        forall|p: Place, key: i64| #[trigger]
            hits_key(more, p, key) ==> hits_key(found, p, key) || p == new && key == hit.key,
{
    assert forall|p: Place, key: i64| #[trigger] hits_key(found, p, key) implies hits_key(
        more,
        p,
        key,
    ) && earlier(p, new) && p != new by {
        assert(hit_at(found, p) is Some);
    }
    assert forall|p: Place, key: i64| #[trigger] hits_key(more, p, key) implies hits_key(
        found,
        p,
        key,
    ) || p == new && key == hit.key by {
        if p != new {
            assert(hit_at(more, p) == hit_at(found, p));
        }
    }
}

proof fn lemma_counted_evidence(
    c: CandidateView,
    after: CandidateView,
    found: Seq<FoundView>,
    more: Seq<FoundView>,
    new: Place,
    hit: HitView,
)
    requires
        has_evidence(c, found),
        candidates::sound_one(c),
        one_more(found, more, new, Some(hit)),
        hit.lexical == new.by_terms,
        hit.key == c.key,
        candidates::counted(
            c,
            more[new.chunk].chunk,
            new.at as usize,
            hit.score,
            hit.snippet,
            hit.lexical,
        ) == Some(after),
    ensures
        has_evidence(after, more),
{
    lemma_keys_one_more(found, more, new, hit);
    reveal(has_evidence);
    let log = choose|log: Seq<Place>| #[trigger]
        places_of(found, c.key, log) && made_of(c, found, log);
    assert forall|m: int| 0 <= m < log.len() implies hit_at(more, #[trigger] log[m]) == hit_at(
        found,
        log[m],
    ) && more[log[m].chunk].chunk == found[log[m].chunk].chunk && hit_at(more, log[m]) is Some
        && earlier(log[m], new) by {
        assert(hits_key(found, log[m], c.key));
        assert(hit_at(found, log[m]) is Some);
    }
    lemma_made_of_same(c, found, more, log);
    lemma_counted_made_of(c, after, more, log, new, hit);
    let all = log.push(new);
    assert forall|m: int| 0 <= m < all.len() implies hits_key(more, #[trigger] all[m], c.key) by {
        if m < log.len() {
            assert(hits_key(found, log[m], c.key));
        }
    }
    assert forall|p: Place| #[trigger] hits_key(more, p, c.key) implies all.contains(p) by {
        if p == new {
            assert(all[log.len() as int] == new);
        } else {
            assert(hits_key(found, p, c.key));
            let m = choose|m: int| 0 <= m < log.len() && log[m] == p;
            assert(all[m] == p);
        }
    }
    assert forall|m: int, n: int| 0 <= m < n < all.len() implies earlier(
        #[trigger] all[m],
        #[trigger] all[n],
    ) by {
        if n < log.len() {
            assert(earlier(log[m], log[n]));
        } else {
            assert(earlier(log[m], new));
        }
    }
    assert(places_of(more, after.key, all));
}

proof fn lemma_fresh_evidence(
    cs: Seq<CandidateView>,
    after: CandidateView,
    found: Seq<FoundView>,
    more: Seq<FoundView>,
    new: Place,
    hit: HitView,
)
    requires
        evident(cs, found),
        !candidates::has_key(cs, hit.key),
        one_more(found, more, new, Some(hit)),
        hit.lexical == new.by_terms,
        candidates::counted(
            candidates::fresh(more[new.chunk].chunk, hit),
            more[new.chunk].chunk,
            new.at as usize,
            hit.score,
            hit.snippet,
            hit.lexical,
        ) == Some(after),
    ensures
        has_evidence(after, more),
{
    reveal(has_evidence);
    lemma_keys_one_more(found, more, new, hit);
    lemma_fresh_made_of(after, more, new, hit);
    let all = seq![new];
    assert forall|p: Place| #[trigger] hits_key(more, p, hit.key) implies all.contains(p) by {
        if p != new {
            assert(hits_key(found, p, hit.key));
            assert(hit_at(found, p) is Some);
        } else {
            assert(all[0] == new);
        }
    }
    assert(places_of(more, after.key, all));
}

proof fn lemma_hit_before_new(
    c: CandidateView,
    found: Seq<FoundView>,
    more: Seq<FoundView>,
    new: Place,
    hit: HitView,
)
    requires
        has_evidence(c, found),
        one_more(found, more, new, Some(hit)),
    ensures
        hit_before(more, c.key, new),
{
    reveal(has_evidence);
    reveal(hit_before);
    lemma_keys_one_more(found, more, new, hit);
    let log = choose|log: Seq<Place>| #[trigger]
        places_of(found, c.key, log) && made_of(c, found, log);
    assert(hits_key(found, log[0], c.key));
    assert(hits_key(more, log[0], c.key) && earlier(log[0], new));
}

proof fn lemma_hit_before_kept(
    found: Seq<FoundView>,
    more: Seq<FoundView>,
    new: Place,
    hit: HitView,
    key: i64,
    p: Place,
)
    requires
        hit_before(found, key, p),
        one_more(found, more, new, Some(hit)),
    ensures
        hit_before(more, key, p),
{
    reveal(hit_before);
    lemma_keys_one_more(found, more, new, hit);
    let q = choose|q: Place| #[trigger] hits_key(found, q, key) && earlier(q, p);
    assert(hits_key(more, q, key) && earlier(q, p));
}

/// Candidates keep their keys when a hit is taken in; a new one comes last.
proof fn lemma_after_hit_keys(
    cs: Seq<CandidateView>,
    after: Seq<CandidateView>,
    found: Seq<FoundView>,
    more: Seq<FoundView>,
    new: Place,
    hit: HitView,
)
    requires
        evident(cs, found),
        one_more(found, more, new, Some(hit)),
        cs.len() <= after.len() <= cs.len() + 1,
        forall|i: int| 0 <= i < cs.len() ==> (#[trigger] after[i]).key == cs[i].key,
        after.len() > cs.len() ==> after[cs.len() as int].key == hit.key && !candidates::has_key(
            cs,
            hit.key,
        ),
        candidates::has_key(after, hit.key),
    ensures
        forall|p: Place| #[trigger]
            hit_at(more, p) is Some ==> candidates::has_key(after, hit_at(more, p)->Some_0.key),
        forall|i: int, j: int|
            0 <= i < j < after.len() ==> (#[trigger] after[i]).key != (#[trigger] after[j]).key,
        forall|i: int, j: int, p: Place|
            0 <= i < j < after.len() && #[trigger] hits_key(more, p, (#[trigger] after[j]).key)
                ==> hit_before(more, (#[trigger] after[i]).key, p),
{
    lemma_keys_one_more(found, more, new, hit);
    assert forall|p: Place| #[trigger] hit_at(more, p) is Some implies candidates::has_key(
        after,
        hit_at(more, p)->Some_0.key,
    ) by {
        let key = hit_at(more, p)->Some_0.key;
        if p != new {
            assert(hit_at(found, p) is Some);
            let k = choose|k: int| 0 <= k < cs.len() && (#[trigger] cs[k]).key == key;
            assert(after[k].key == key);
        }
    }
    assert forall|i: int, j: int| 0 <= i < j < after.len() implies (#[trigger] after[i]).key != (
    #[trigger] after[j]).key by {
        assert(after[i].key == cs[i].key);
        if j < cs.len() {
            assert(cs[i].key != cs[j].key);
        }
    }
    assert forall|i: int, j: int, p: Place|
        0 <= i < j < after.len() && #[trigger] hits_key(more, p, (#[trigger] after[j]).key) implies
        hit_before(more, (#[trigger] after[i]).key, p) by {
        assert(after[i].key == cs[i].key);
        if p == new {
            assert(has_evidence(cs[i], found));
            lemma_hit_before_new(cs[i], found, more, new, hit);
        } else {
            assert(hits_key(found, p, after[j].key));
            if j < cs.len() {
                assert(after[j].key == cs[j].key);
                assert(hits_key(found, p, cs[j].key));
                assert(hit_before(found, cs[i].key, p));
                lemma_hit_before_kept(found, more, new, hit, cs[i].key, p);
            } else {
                assert(hit_at(found, p) is Some);
                assert(candidates::has_key(cs, hit.key));
            }
        }
    }
}

/// Taking a hit in keeps the candidates those of the hits.
proof fn lemma_after_hit_evident(
    cs: Seq<CandidateView>,
    found: Seq<FoundView>,
    more: Seq<FoundView>,
    new: Place,
    hit: HitView,
)
    requires
        evident(cs, found),
        forall|i: int| 0 <= i < cs.len() ==> candidates::sound_one(#[trigger] cs[i]),
        one_more(found, more, new, Some(hit)),
        hit.lexical == new.by_terms,
    ensures
        match candidates::after_hit(cs, more[new.chunk].chunk, new.at as usize, hit) {
            Some(after) => evident(after, more),
            None => true,
        },
{
    let chunk = more[new.chunk].chunk;
    let at = candidates::place_of(cs, hit.key);
    candidates::lemma_place_of_bounds(cs, hit.key);
    if let Some(after) = candidates::after_hit(cs, chunk, new.at as usize, hit) {
        assert(after[at].key == hit.key);
        if at == cs.len() {
            assert(!candidates::has_key(cs, hit.key));
        }
        lemma_after_hit_keys(cs, after, found, more, new, hit);
        assert forall|i: int| 0 <= i < after.len() implies has_evidence(
            #[trigger] after[i],
            more,
        ) by {
            if i == at && at < cs.len() {
                assert(candidates::sound_one(cs[at]));
                lemma_counted_evidence(cs[at], after[i], found, more, new, hit);
            } else if i == at {
                lemma_fresh_evidence(cs, after[i], found, more, new, hit);
            } else {
                assert(after[i] == cs[i]);
                if i < at {
                    assert(cs[i].key != hit.key);
                } else {
                    assert(cs[at].key != cs[i].key);
                }
                lemma_same_evidence(cs[i], found, more, new, Some(hit));
            }
        }
    }
}

/// Places without a hit leave the candidates those of the hits.
proof fn lemma_same_hits_evident(
    cs: Seq<CandidateView>,
    found: Seq<FoundView>,
    more: Seq<FoundView>,
)
    requires
        evident(cs, found),
        found.len() <= more.len(),
        forall|i: int| 0 <= i < found.len() ==> (#[trigger] more[i]).chunk == found[i].chunk,
        forall|p: Place| #[trigger] hit_at(more, p) == hit_at(found, p),
    ensures
        evident(cs, more),
{
    assert forall|p: Place, key: i64| #[trigger] hits_key(more, p, key) implies hits_key(
        found,
        p,
        key,
    ) by {
        assert(hit_at(more, p) == hit_at(found, p));
    }
    assert forall|p: Place, key: i64| #[trigger] hits_key(found, p, key) implies hits_key(
        more,
        p,
        key,
    ) by {
        assert(hit_at(more, p) == hit_at(found, p));
    }
    assert forall|i: int| 0 <= i < cs.len() implies has_evidence(#[trigger] cs[i], more) by {
        let c = cs[i];
        assert(has_evidence(c, found));
        reveal(has_evidence);
        let log = choose|log: Seq<Place>| #[trigger]
            places_of(found, c.key, log) && made_of(c, found, log);
        assert forall|m: int| 0 <= m < log.len() implies hit_at(more, #[trigger] log[m]) == hit_at(
            found,
            log[m],
        ) && more[log[m].chunk].chunk == found[log[m].chunk].chunk && hits_key(
            more,
            log[m],
            c.key,
        ) by {
            assert(hits_key(found, log[m], c.key));
        }
        lemma_made_of_same(c, found, more, log);
        assert forall|p: Place| #[trigger] hits_key(more, p, c.key) implies log.contains(p) by {
            assert(hits_key(found, p, c.key));
        }
        assert(places_of(more, c.key, log));
    }
    assert forall|p: Place| #[trigger] hit_at(more, p) is Some implies candidates::has_key(
        cs,
        hit_at(more, p)->Some_0.key,
    ) by {
        assert(hit_at(found, p) is Some);
    }
    assert forall|i: int, j: int, p: Place|
        0 <= i < j < cs.len() && #[trigger] hits_key(more, p, (#[trigger] cs[j]).key) implies
        hit_before(more, (#[trigger] cs[i]).key, p) by {
        assert(hits_key(found, p, cs[j].key));
        assert(hit_before(found, cs[i].key, p));
        reveal(hit_before);
        let q = choose|q: Place| #[trigger] hits_key(found, q, cs[i].key) && earlier(q, p);
        assert(hits_key(more, q, cs[i].key));
    }
}

/// Whether hits by terms stand among those by terms, and hits by nearness among the others.
pub open spec fn kept_apart(found: Seq<FoundView>) -> bool {
    forall|p: Place| #[trigger]
        hit_at(found, p) is Some ==> hit_at(found, p)->Some_0.lexical == p.by_terms
}

/// The hits of the chunks before, and some of the last chunk.
spec fn so_far(
    before: Seq<FoundView>,
    last: FoundView,
    lexical: Seq<Option<HitView>>,
    dense: Seq<Option<HitView>>,
) -> Seq<FoundView> {
    before.push(FoundView { chunk: last.chunk, lexical, dense })
}

proof fn lemma_after_hits_evident(
    cs: Seq<CandidateView>,
    before: Seq<FoundView>,
    last: FoundView,
    by_terms: bool,
    hits: Seq<Option<HitView>>,
)
    requires
        candidates::sound(cs),
        evident(
            cs,
            so_far(
                before,
                last,
                if by_terms {
                    Seq::empty()
                } else {
                    last.lexical
                },
                Seq::empty(),
            ),
        ),
        forall|j: int|
            0 <= j < hits.len() ==> match #[trigger] hits[j] {
                Some(h) => h.lexical == by_terms,
                None => true,
            },
    ensures
        match candidates::after_hits(cs, last.chunk, hits) {
            Some(after) => candidates::sound(after) && evident(
                after,
                if by_terms {
                    so_far(before, last, hits, Seq::empty())
                } else {
                    so_far(before, last, last.lexical, hits)
                },
            ),
            None => true,
        },
    decreases hits.len(),
{
    if hits.len() == 0 {
        assert(hits =~= Seq::empty());
    } else {
        let fewer = hits.drop_last();
        assert forall|j: int| 0 <= j < fewer.len() implies match #[trigger] fewer[j] {
            Some(h) => h.lexical == by_terms,
            None => true,
        } by {
            assert(hits[j] == fewer[j]);
        }
        lemma_after_hits_evident(cs, before, last, by_terms, fewer);
        if let Some(front) = candidates::after_hits(cs, last.chunk, fewer) {
            let found = if by_terms {
                so_far(before, last, fewer, Seq::empty())
            } else {
                so_far(before, last, last.lexical, fewer)
            };
            let more = if by_terms {
                so_far(before, last, hits, Seq::empty())
            } else {
                so_far(before, last, last.lexical, hits)
            };
            let new = Place { chunk: before.len() as int, by_terms, at: fewer.len() as int };
            let hit = hits[hits.len() - 1];
            assert forall|p: Place| p != new implies #[trigger] hit_at(more, p) == hit_at(
                found,
                p,
            ) by {
                if p.chunk == new.chunk && p.by_terms == by_terms {
                    assert(p.at != new.at);
                    if 0 <= p.at < fewer.len() {
                        assert(fewer[p.at] == hits[p.at]);
                    }
                }
            }
            assert(one_more(found, more, new, hit));
            match hit {
                Some(h) => {
                    lemma_after_hit_evident(front, found, more, new, h);
                    candidates::lemma_after_hit_sound(front, last.chunk, new.at as usize, h);
                },
                None => {
                    assert forall|p: Place| #[trigger] hit_at(more, p) == hit_at(found, p) by {}
                    lemma_same_hits_evident(front, found, more);
                },
            }
        }
    }
}

/// Every candidate is made of the hits for its card and of nothing else: its card, its places, the
/// number of its hits by terms, its score, its text and its labels are those of the hits. Its text
/// is one that some hit brought, and of the texts that came with the last chunk that hit it none is
/// better. It is ranked against the first of the chunks whose hits hold most of their terms. No hit
/// is lost, no card has two candidates, and cards that were hit first come first.
pub proof fn law_candidates_are_made_of_hits(found: Seq<FoundView>)
    requires
        kept_apart(found),
    ensures
        match candidates::gathered(found) {
            Some(cs) => evident(cs, found),
            None => true,
        },
    decreases found.len(),
{
    candidates::law_gathered_is_sound(found);
    if found.len() > 0 {
        let before = found.drop_last();
        let last = found[found.len() - 1];
        assert forall|p: Place| #[trigger] hit_at(before, p) is Some implies hit_at(
            before,
            p,
        )->Some_0.lexical == p.by_terms by {
            assert(hit_at(found, p) == hit_at(before, p));
        }
        law_candidates_are_made_of_hits(before);
        candidates::law_gathered_is_sound(before);
        if let Some(front) = candidates::gathered(before) {
            let none = so_far(before, last, Seq::empty(), Seq::empty());
            assert forall|p: Place| #[trigger] hit_at(none, p) == hit_at(before, p) by {}
            lemma_same_hits_evident(front, before, none);
            assert forall|j: int| 0 <= j < last.lexical.len() implies match (
            #[trigger] last.lexical[j]) {
                Some(h) => h.lexical == true,
                None => true,
            } by {
                let p = Place { chunk: found.len() - 1, by_terms: true, at: j };
                assert(hit_at(found, p) == last.lexical[j]);
            }
            assert forall|j: int| 0 <= j < last.dense.len() implies match (
            #[trigger] last.dense[j]) {
                Some(h) => h.lexical == false,
                None => true,
            } by {
                let p = Place { chunk: found.len() - 1, by_terms: false, at: j };
                assert(hit_at(found, p) == last.dense[j]);
            }
            lemma_after_hits_evident(front, before, last, true, last.lexical);
            if let Some(cs) = candidates::after_hits(front, last.chunk, last.lexical) {
                lemma_after_hits_evident(cs, before, last, false, last.dense);
                assert(so_far(before, last, last.lexical, last.dense) =~= found);
            }
        }
    } else {
        assert(candidates::gathered(found)->Some_0.len() == 0);
    }
}


/// Whether a score is the one that a place gets: the last one that the ranking gave it, or its own
/// where the ranking gave none.
pub open spec fn score_of_place(
    own: ScoreKey,
    scores: Option<Seq<(usize, ScoreKey)>>,
    n: int,
    score: ScoreKey,
) -> bool {
    match scores {
        None => score == own,
        Some(given) => if given_to(given, n) {
            exists|t: int| #[trigger] last_for(given, n, t) && given[t].1 == score
        } else {
            score == own
        },
    }
}

/// Whether a ranking gave a place a score.
pub open spec fn given_to(given: Seq<(usize, ScoreKey)>, n: int) -> bool {
    exists|t: int| 0 <= t < given.len() && (#[trigger] given[t]).0 == n
}

/// Whether a score is the last one that was given to a place.
pub open spec fn last_for(given: Seq<(usize, ScoreKey)>, n: int, t: int) -> bool {
    0 <= t < given.len() && given[t].0 == n && forall|u: int|
        t < u < given.len() ==> (#[trigger] given[u]).0 != n
}

proof fn lemma_rescored_scores(cs: Seq<Candidate>, given: Seq<(usize, ScoreKey)>, n: int)
    requires
        0 <= n < cs.len(),
    ensures
        search::rescored(cs, given).len() == cs.len(),
        score_of_place(
            cs[n].rerank_score,
            Some(given),
            n,
            search::rescored(cs, given)[n].rerank_score,
        ),
    decreases given.len(),
{
    search::lemma_rescored_keeps(cs, given);
    if given.len() > 0 {
        let fewer = given.drop_last();
        search::lemma_rescored_keeps(cs, fewer);
        lemma_rescored_scores(cs, fewer, n);
        let last = given.len() - 1;
        let score = search::rescored(cs, given)[n].rerank_score;
        let before = search::rescored(cs, fewer)[n].rerank_score;
        assert(given.last() == given[last]);
        if given[last].0 as int == n {
            assert(given_to(given, n));
            assert(last_for(given, n, last) && given[last].1 == score);
        } else {
            assert(score == before);
            if given_to(fewer, n) {
                let w = choose|t: int| 0 <= t < fewer.len() && (#[trigger] fewer[t]).0 == n;
                assert(given[w].0 == n);
                let t = choose|t: int| #[trigger] last_for(fewer, n, t) && fewer[t].1 == before;
                assert forall|u: int| t < u < given.len() implies (#[trigger] given[u]).0 != n by {
                    if u < last {
                        assert(fewer[u] == given[u]);
                    }
                }
                assert(given[t] == fewer[t]);
                assert(last_for(given, n, t) && given[t].1 == score);
            } else {
                assert forall|t: int| 0 <= t < given.len() implies (#[trigger] given[t]).0 != n by {
                    if t < last {
                        assert(fewer[t] == given[t]);
                    }
                }
            }
        }
    }
}

/// Whether a result is made of the hits at these places, but for its scores.
pub open spec fn shows_hits(
    r: GroupedResultRecord,
    found: Seq<FoundView>,
    log: Seq<Place>,
) -> bool {
    let labels = strings::texts(r.matched_labels@);
    &&& log.len() > 0
    &&& r.card_id == hit_at(found, log[0])->Some_0.card.card_id
    &&& log.len() <= i64::MAX ==> r.chunk_hits == log.len()
    &&& log.len() <= i64::MAX ==> r.lexical_bonus == log.filter(|p: Place| p.by_terms).len()
    &&& exists|m: int| 0 <= m < log.len() && brought(found, #[trigger] log[m], r.best_snippet@)
    &&& forall|m: int|
        0 <= m < log.len() && (#[trigger] log[m]).chunk == log.last().chunk ==> no_better(
            found,
            log[m],
            hit_at(found, log[m])->Some_0.snippet,
            r.best_snippet@,
        )
    &&& forall|k: int| 0 <= k < labels.len() ==> labelled(found, log, #[trigger] labels[k])
    &&& labels.len() <= 6
    &&& labels.len() < 6 ==> forall|m: int|
        0 <= m < log.len() ==> labels.contains(found[(#[trigger] log[m]).chunk].chunk.label)
}

/// Whether a result is that of one of the candidates on the short list, with the score of its
/// place there, and made of all hits under the candidate's key.
pub open spec fn result_has_evidence(
    r: GroupedResultRecord,
    search_id: i64,
    found: Seq<FoundView>,
    cs: Seq<Candidate>,
    fusion: Seq<ScoreKey>,
    short: Seq<Candidate>,
    scores: Option<Seq<(usize, ScoreKey)>>,
) -> bool {
    &&& r.search_id == search_id
    &&& exists|k: int, n: int, log: Seq<Place>|
        #![trigger cs[k], short[n], places_of(found, cs[k].key, log)]
        {
            &&& 0 <= k < cs.len()
            &&& 0 <= n < short.len()
            &&& short[n].key == cs[k].key
            &&& places_of(found, cs[k].key, log)
            &&& shows_hits(r, found, log)
            &&& r.fused_score == if k < fusion.len() {
                fusion[k]
            } else {
                cs[k].fused_score
            }
            &&& score_of_place(best_score(found, log), scores, n, r.rerank_score)
        }
}

/// Whether a score is the greatest of the hits at these places.
pub open spec fn is_best_score(found: Seq<FoundView>, log: Seq<Place>, score: ScoreKey) -> bool {
    &&& forall|m: int|
        0 <= m < log.len() ==> hit_at(found, #[trigger] log[m])->Some_0.score <= score
    &&& exists|m: int|
        0 <= m < log.len() && hit_at(found, #[trigger] log[m])->Some_0.score == score
}

/// The greatest score of the hits at these places.
pub open spec fn best_score(found: Seq<FoundView>, log: Seq<Place>) -> ScoreKey {
    choose|score: ScoreKey| #[trigger] is_best_score(found, log, score)
}

proof fn lemma_best_score(c: CandidateView, found: Seq<FoundView>, log: Seq<Place>)
    requires
        made_of(c, found, log),
    ensures
        best_score(found, log) == c.rerank_score,
{
    let best = best_score(found, log);
    assert(is_best_score(found, log, c.rerank_score));
    let a = choose|m: int|
        0 <= m < log.len() && hit_at(found, #[trigger] log[m])->Some_0.score == c.rerank_score;
    let b = choose|m: int|
        0 <= m < log.len() && hit_at(found, #[trigger] log[m])->Some_0.score == best;
    assert(hit_at(found, log[a])->Some_0.score <= best);
    assert(hit_at(found, log[b])->Some_0.score <= c.rerank_score);
}

proof fn lemma_result_has_evidence(
    r: GroupedResultRecord,
    search_id: i64,
    found: Seq<FoundView>,
    cs: Seq<Candidate>,
    fusion: Seq<ScoreKey>,
    short: Seq<Candidate>,
    scores: Option<Seq<(usize, ScoreKey)>>,
    k: int,
    n: int,
)
    requires
        0 <= k < cs.len(),
        0 <= n < short.len(),
        has_evidence(cs[k]@, found),
        candidates::sound_one(cs[k]@),
        short[n] == candidates::fused(cs, fusion)[k],
        search::is_scored(search::scored(short, scores)[n], short[n]),
        r == search::result_of(search_id, search::scored(short, scores)[n]),
        score_of_place(
            short[n].rerank_score,
            scores,
            n,
            search::scored(short, scores)[n].rerank_score,
        ),
    ensures
        result_has_evidence(r, search_id, found, cs, fusion, short, scores),
{
    let c = cs[k]@;
    reveal(has_evidence);
    let log = choose|log: Seq<Place>| #[trigger]
        places_of(found, c.key, log) && made_of(c, found, log);
    lemma_best_score(c, found, log);
    assert(r.best_snippet@ == c.best_snippet);
    assert(strings::texts(r.matched_labels@) == c.matched_labels);
    let m = choose|m: int|
        0 <= m < log.len() && brought(found, #[trigger] log[m], c.best_snippet);
    assert(brought(found, log[m], r.best_snippet@));
    assert(shows_hits(r, found, log));
    assert(short[n].key == cs[k].key);
    assert(places_of(found, cs[k].key, log));
}

/// Every result of a search is made of hits that were gathered: its card is one that was hit, its
/// text is one that a hit for the card brought and no worse than any that came with the last chunk
/// that hit it, its labels are those of the chunks that hit it, it counts all hits for its card
/// and those by terms among them, and its scores are the one from the places of the hits and the
/// one that the ranking gave it, or the best of the hits where the ranking gave none.
pub proof fn law_results_are_made_of_hits(
    search_id: i64,
    found: Seq<FoundView>,
    cs: Seq<Candidate>,
    fusion: Seq<ScoreKey>,
    short: Seq<Candidate>,
    scores: Option<Seq<(usize, ScoreKey)>>,
)
    requires
        kept_apart(found),
        candidates::gathered(found) == Some(candidates::candidate_views(cs)),
        candidates::shortlisted(candidates::fused(cs, fusion)) == Some(short),
    ensures
        search::final_results(search_id, short, scores).len() == short.len(),
        forall|i: int|
            0 <= i < short.len() ==> result_has_evidence(
                #[trigger] search::final_results(search_id, short, scores)[i],
                search_id,
                found,
                cs,
                fusion,
                short,
                scores,
            ),
{
    let results = search::final_results(search_id, short, scores);
    let ordered = search::final_candidates(short, scores);
    let all = search::scored(short, scores);
    let given = candidates::fused(cs, fusion);
    let views = candidates::candidate_views(cs);
    let by_key = |a: Candidate, b: Candidate| a.key != b.key;
    law_candidates_are_made_of_hits(found);
    candidates::law_gathered_is_sound(found);
    assert(order::pairwise(given, by_key)) by {
        assert forall|i: int, j: int| 0 <= i < j < given.len() implies by_key(
            #[trigger] given[i],
            #[trigger] given[j],
        ) by {
            assert(views[i].key != views[j].key);
        }
    }
    candidates::law_shortlist_is_drawn(given, by_key);
    search::lemma_scored_keeps(short, scores);
    order::law_ranked::<ByRelevance, Candidate>(all);
    order::lemma_ranked_contains::<ByRelevance, Candidate>(all);
    assert(ordered.len() == all.len()) by {
        ordered.to_multiset_ensures();
        all.to_multiset_ensures();
    }
    assert forall|i: int| 0 <= i < short.len() implies result_has_evidence(
        #[trigger] results[i],
        search_id,
        found,
        cs,
        fusion,
        short,
        scores,
    ) by {
        let r = results[i];
        assert(all.contains(ordered[i]));
        let n = choose|n: int| 0 <= n < all.len() && all[n] == ordered[i];
        assert(search::is_scored(all[n], short[n]));
        assert(given.contains(short[n]));
        let k = choose|k: int| 0 <= k < given.len() && given[k] == short[n];
        assert(views[k] == cs[k]@);
        assert(has_evidence(views[k], found));
        assert(candidates::sound_one(views[k]));
        if let Some(ranking) = scores {
            lemma_rescored_scores(short, ranking, n);
        }
        lemma_result_has_evidence(r, search_id, found, cs, fusion, short, scores, k, n);
    }
}

} // verus!
