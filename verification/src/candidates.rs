//! The candidates of a search: cards that a hit was found for, with what speaks for each of them.

use vstd::prelude::*;
use crate::models::{CardRecord, ScoreKey};
use crate::order;
use crate::order::RankBy;
use crate::query;
use crate::query::QueryChunk;
use crate::strings;
use crate::text;

verus! {

/// How many labels a candidate carries at most.
pub const MAX_LABELS: usize = 6;

/// How many candidates are ranked at most.
pub const MAX_CANDIDATES: usize = 100;

/// With fewer results than this, a search has found little.
pub const GOOD_COVERAGE: usize = 3;

/// A card that some chunk of the query hit.
#[derive(Debug, Clone)]
pub struct Candidate {
    /// The id under which hits for the card are gathered.
    pub key: i64,
    pub card: CardRecord,
    /// The place of each hit for the card among the hits that came with it.
    pub ranks: Vec<usize>,
    pub fused_score: ScoreKey,
    pub rerank_score: ScoreKey,
    pub lexical_bonus: usize,
    pub best_snippet: String,
    /// The labels of the chunks that hit the card, in alphabetical order.
    pub matched_labels: Vec<String>,
    pub best_query_text: String,
    pub best_query_overlap: usize,
}

/// What is known of a candidate.
#[verifier::ext_equal]
pub struct CandidateView {
    pub key: i64,
    pub card: CardRecord,
    pub ranks: Seq<usize>,
    pub fused_score: ScoreKey,
    pub rerank_score: ScoreKey,
    pub lexical_bonus: int,
    pub best_snippet: Seq<char>,
    pub matched_labels: Seq<Seq<char>>,
    pub best_query_text: Seq<char>,
    pub best_query_overlap: int,
}

impl View for Candidate {
    type V = CandidateView;

    open spec fn view(&self) -> CandidateView {
        CandidateView {
            key: self.key,
            card: self.card,
            ranks: self.ranks@,
            fused_score: self.fused_score,
            rerank_score: self.rerank_score,
            lexical_bonus: self.lexical_bonus as int,
            best_snippet: self.best_snippet@,
            matched_labels: strings::texts(self.matched_labels@),
            best_query_text: self.best_query_text@,
            best_query_overlap: self.best_query_overlap as int,
        }
    }
}

/// The views of a list of candidates.
pub open spec fn candidate_views(v: Seq<Candidate>) -> Seq<CandidateView> {
    Seq::new(v.len(), |i: int| v[i]@)
}

/// Whether labels are in alphabetical order, none of them twice.
pub open spec fn in_order(labels: Seq<Seq<char>>) -> bool {
    forall|i: int, j: int|
        0 <= i < j < labels.len() ==> #[trigger] labels[i] != #[trigger] labels[j]
            && strings::text_le(labels[i], labels[j])
}

/// `labels` with `label` in its alphabetical place.
pub open spec fn with_label(labels: Seq<Seq<char>>, label: Seq<char>) -> Seq<Seq<char>>
    decreases labels.len(),
{
    if labels.len() == 0 || strings::text_le(labels.last(), label) {
        labels.push(label)
    } else {
        with_label(labels.drop_last(), label).push(labels.last())
    }
}

/// The labels after a hit under `label`: it joins them as long as there is room.
pub open spec fn labels_after(labels: Seq<Seq<char>>, label: Seq<char>) -> Seq<Seq<char>> {
    if labels.len() < MAX_LABELS && !labels.contains(label) {
        with_label(labels, label)
    } else {
        labels
    }
}

proof fn lemma_with_label(labels: Seq<Seq<char>>, label: Seq<char>, pos: int)
    requires
        0 <= pos <= labels.len(),
        pos == 0 || strings::text_le(labels[pos - 1], label),
        forall|j: int| pos <= j < labels.len() ==> !strings::text_le(#[trigger] labels[j], label),
    ensures
        with_label(labels, label) == labels.insert(pos, label),
    decreases labels.len(),
{
    if pos == labels.len() {
        assert(labels.insert(pos, label) =~= labels.push(label));
    } else {
        let front = labels.drop_last();
        lemma_with_label(front, label, pos);
        assert(front.insert(pos, label).push(labels.last()) =~= labels.insert(pos, label));
    }
}

proof fn lemma_with_label_in_order(labels: Seq<Seq<char>>, label: Seq<char>)
    requires
        in_order(labels),
        !labels.contains(label),
    ensures
        in_order(with_label(labels, label)),
        with_label(labels, label).len() == labels.len() + 1,
        forall|x: Seq<char>|
            #[trigger] with_label(labels, label).contains(x) <==> labels.contains(x) || x == label,
    decreases labels.len(),
{
    let res = with_label(labels, label);
    if labels.len() == 0 || strings::text_le(labels.last(), label) {
        assert forall|i: int, j: int| 0 <= i < j < res.len() implies #[trigger] res[i] != #[trigger] res[j]
            && strings::text_le(res[i], res[j]) by {
            if j == labels.len() {
                assert(labels.contains(labels[i]));
                if i < labels.len() - 1 {
                    assert(strings::text_le(labels[i], labels[labels.len() - 1]));
                    strings::law_text_order_transitive(labels[i], labels.last(), label);
                }
            } else {
                assert(strings::text_le(labels[i], labels[j]));
            }
        }
        assert forall|x: Seq<char>| #[trigger] res.contains(x) <==> labels.contains(x) || x == label by {
            if labels.contains(x) {
                let i = choose|i: int| 0 <= i < labels.len() && labels[i] == x;
                assert(res[i] == x);
            }
            if x == label {
                assert(res[labels.len() as int] == x);
            }
        }
    } else {
        let front = labels.drop_last();
        let last = labels.last();
        assert(in_order(front)) by {
            assert forall|i: int, j: int| 0 <= i < j < front.len() implies #[trigger] front[i]
                != #[trigger] front[j] && strings::text_le(front[i], front[j]) by {
                assert(strings::text_le(labels[i], labels[j]));
            }
        }
        assert(!front.contains(label)) by {
            if front.contains(label) {
                let i = choose|i: int| 0 <= i < front.len() && front[i] == label;
                assert(labels[i] == label);
            }
        }
        lemma_with_label_in_order(front, label);
        let inner = with_label(front, label);
        strings::law_text_order_total(labels.last(), label);
        assert forall|i: int, j: int| 0 <= i < j < res.len() implies #[trigger] res[i] != #[trigger] res[j]
            && strings::text_le(res[i], res[j]) by {
            if j < inner.len() {
                assert(strings::text_le(inner[i], inner[j]));
            } else {
                assert(inner.contains(inner[i]));
                assert(front.contains(inner[i]) || inner[i] == label);
                if inner[i] == label {
                    assert(labels.contains(last));
                } else {
                    let k = choose|k: int| 0 <= k < front.len() && front[k] == inner[i];
                    assert(strings::text_le(labels[k], labels[labels.len() - 1]));
                }
            }
        }
        assert forall|x: Seq<char>| #[trigger] res.contains(x) <==> labels.contains(x) || x == label by {
            if res.contains(x) {
                let i = choose|i: int| 0 <= i < res.len() && res[i] == x;
                if i < inner.len() {
                    assert(inner.contains(x));
                    if x != label {
                        let k = choose|k: int| 0 <= k < front.len() && front[k] == x;
                        assert(labels[k] == x);
                    }
                } else {
                    assert(labels[labels.len() - 1] == x);
                }
            }
            if labels.contains(x) {
                let k = choose|k: int| 0 <= k < labels.len() && labels[k] == x;
                if k < front.len() {
                    assert(front[k] == x);
                    assert(inner.contains(x));
                    let i = choose|i: int| 0 <= i < inner.len() && inner[i] == x;
                    assert(res[i] == x);
                } else {
                    assert(res[inner.len() as int] == x);
                }
            }
            if x == label {
                assert(inner.contains(x));
                let i = choose|i: int| 0 <= i < inner.len() && inner[i] == x;
                assert(res[i] == x);
            }
        }
    }
}

/// Hits keep the labels in order, each of them once, and at most six; no label is lost, the label
/// of the hit joins them where there is room, and no other does.
pub proof fn law_labels(labels: Seq<Seq<char>>, label: Seq<char>)
    requires
        in_order(labels),
        labels.len() <= MAX_LABELS,
    ensures
        in_order(labels_after(labels, label)),
        labels_after(labels, label).len() <= MAX_LABELS,
        forall|x: Seq<char>|
            labels.contains(x) ==> #[trigger] labels_after(labels, label).contains(x),
        labels.len() < MAX_LABELS ==> labels_after(labels, label).contains(label),
        forall|x: Seq<char>| #[trigger]
            labels_after(labels, label).contains(x) ==> labels.contains(x) || x == label,
        labels.len() <= labels_after(labels, label).len() <= labels.len() + 1,
{
    if labels.len() < MAX_LABELS && !labels.contains(label) {
        lemma_with_label_in_order(labels, label);
    }
}

/// Notes that a chunk with a label hit.
pub fn push_match_label(labels: &mut Vec<String>, label: &str)
    ensures
        strings::texts(final(labels)@) == labels_after(strings::texts(old(labels)@), label@),
{
    let ghost before = strings::texts(labels@);
    assert(before.len() == labels@.len());
    if labels.len() >= MAX_LABELS {
        return;
    }
    let n: usize = labels.len();
    for i in 0..n
        invariant
            n == labels@.len(),
            labels@ == old(labels)@,
            n < MAX_LABELS,
            before == strings::texts(labels@),
            forall|j: int| 0 <= j < i ==> before[j] != label@,
    {
        if strings::same(labels[i].as_str(), label) {
            assert(before[i as int] == label@);
            return;
        }
    }
    assert(!before.contains(label@));
    let mut pos: usize = n;
    while pos > 0 && !strings::is_le(labels[pos - 1].as_str(), label)
        invariant
            n == labels@.len(),
            pos <= n,
            before == strings::texts(labels@),
            forall|j: int| pos <= j < n ==> !strings::text_le(#[trigger] before[j], label@),
        decreases pos,
    {
        assert(before[pos - 1] == labels@[pos - 1]@);
        pos = pos - 1;
    }
    proof {
        if pos > 0 {
            assert(before[pos - 1] == labels@[pos - 1]@);
        }
        lemma_with_label(before, label@, pos as int);
    }
    labels.insert(pos, strings::copy(label));
    assert(strings::texts(labels@) =~= before.insert(pos as int, label@));
}

/// How well a snippet suits a query: the terms it holds, the words in it that say something, and
/// its length. `plain` is the snippet's plain text, and `plainer` the plain text of that.
pub open spec fn plain_score(
    plain: Seq<char>,
    plainer: Seq<char>,
    terms: Seq<Seq<char>>,
) -> (nat, nat, nat) {
    (
        strings::count_in(terms, plainer),
        query::informative_words(strings::words(plain), 4),
        strings::byte_len(plain),
    )
}

/// How well a snippet suits a query, `None` where it cannot be laid out.
pub open spec fn snippet_score(s: Seq<char>, terms: Seq<Seq<char>>) -> Option<(nat, nat, nat)> {
    match text::normalized(s) {
        None => None,
        Some(plain) => match text::normalized(plain) {
            None => None,
            Some(plainer) => Some(plain_score(plain, plainer, terms)),
        },
    }
}

/// How many of the terms a snippet holds, `None` where it cannot be laid out.
pub open spec fn snippet_overlap(s: Seq<char>, terms: Seq<Seq<char>>) -> Option<nat> {
    match text::normalized(s) {
        None => None,
        Some(plain) => Some(strings::count_in(terms, plain)),
    }
}

/// Whether score `a` is greater than score `b`; the first number that differs decides.
pub open spec fn beats(a: (nat, nat, nat), b: (nat, nat, nat)) -> bool {
    a.0 > b.0 || a.0 == b.0 && (a.1 > b.1 || a.1 == b.1 && a.2 > b.2)
}

/// Scores a snippet whose plain text is known.
pub fn score_plain(plain: &str, plainer: &str, query_terms: &Vec<String>) -> (res: (
    usize,
    usize,
    usize,
))
    ensures
        (res.0 as nat, res.1 as nat, res.2 as nat) == plain_score(
            plain@,
            plainer@,
            strings::texts(query_terms@),
        ),
{
    (
        strings::count_terms(query_terms, plainer),
        query::count_informative(plain, 4),
        strings::utf8_len(plain),
    )
}

/// Counts the terms that a snippet holds.
pub fn score_query_overlap(snippet: &str, query_terms: &Vec<String>) -> (res: Option<usize>)
    ensures
        match (snippet_overlap(snippet@, strings::texts(query_terms@)), res) {
            (Some(overlap), Some(n)) => n == overlap,
            (None, None) => true,
            _ => false,
        },
{
    match text::normalize_text(snippet) {
        Some(plain) => Some(strings::count_terms(query_terms, plain.as_str())),
        None => None,
    }
}

/// Scores a snippet.
pub fn score_snippet(snippet: &str, query_terms: &Vec<String>) -> (res: Option<
    (usize, usize, usize),
>)
    ensures
        match (snippet_score(snippet@, strings::texts(query_terms@)), res) {
            (Some(score), Some(r)) => (r.0 as nat, r.1 as nat, r.2 as nat) == score,
            (None, None) => true,
            _ => false,
        },
{
    match text::normalize_text(snippet) {
        Some(plain) => match text::normalize_text(plain.as_str()) {
            Some(plainer) => Some(score_plain(plain.as_str(), plainer.as_str(), query_terms)),
            None => None,
        },
        None => None,
    }
}

/// Whether one score is greater than another.
pub fn is_better(a: (usize, usize, usize), b: (usize, usize, usize)) -> (res: bool)
    ensures
        res == beats(
            (a.0 as nat, a.1 as nat, a.2 as nat),
            (b.0 as nat, b.1 as nat, b.2 as nat),
        ),
{
    a.0 > b.0 || a.0 == b.0 && (a.1 > b.1 || a.1 == b.1 && a.2 > b.2)
}

/// The snippet that suits the query better; the current one where neither does. `None` where one
/// of them cannot be laid out.
pub open spec fn better_snippet(
    current: Seq<char>,
    other: Seq<char>,
    terms: Seq<Seq<char>>,
) -> Option<Seq<char>> {
    match (snippet_score(current, terms), snippet_score(other, terms)) {
        (Some(a), Some(b)) => Some(
            if beats(b, a) {
                other
            } else {
                current
            },
        ),
        _ => None,
    }
}

/// Chooses the snippet that suits the query better.
pub fn select_better_snippet(current: &str, candidate: &str, query_terms: &Vec<String>) -> (res:
    Option<String>)
    ensures
        match (better_snippet(current@, candidate@, strings::texts(query_terms@)), res) {
            (Some(snippet), Some(r)) => r@ == snippet,
            (None, None) => true,
            _ => false,
        },
{
    match (score_snippet(current, query_terms), score_snippet(candidate, query_terms)) {
        (Some(a), Some(b)) => {
            if is_better(b, a) {
                Some(strings::copy(candidate))
            } else {
                Some(strings::copy(current))
            }
        },
        _ => None,
    }
}

/// A hit: a card that a search for a chunk of the query came up with.
#[derive(Debug, Clone)]
pub struct Hit {
    /// The id under which hits for the card are gathered.
    pub key: i64,
    pub score: ScoreKey,
    pub snippet: String,
    /// Whether the card holds terms of the chunk, rather than lying near it.
    pub lexical: bool,
    pub card: CardRecord,
}

/// What a hit says.
#[verifier::ext_equal]
pub struct HitView {
    pub key: i64,
    pub score: ScoreKey,
    pub snippet: Seq<char>,
    pub lexical: bool,
    pub card: CardRecord,
}

impl View for Hit {
    type V = HitView;

    open spec fn view(&self) -> HitView {
        HitView {
            key: self.key,
            score: self.score,
            snippet: self.snippet@,
            lexical: self.lexical,
            card: self.card,
        }
    }
}

/// What the hits at a list of places say, where their cards are still there.
pub open spec fn hit_views(v: Seq<Option<Hit>>) -> Seq<Option<HitView>> {
    Seq::new(
        v.len(),
        |i: int|
            match v[i] {
                Some(hit) => Some(hit@),
                None => None,
            },
    )
}

/// The hit by terms for a card.
pub open spec fn lexical_view(card_id: i64, score: ScoreKey, card: CardRecord) -> HitView {
    HitView { key: card_id, score, snippet: card.card_text_clean@, lexical: true, card }
}

/// The hit by nearness for a card.
pub open spec fn dense_view(score: ScoreKey, snippet: Seq<char>, card: CardRecord) -> HitView {
    HitView { key: card.card_id, score, snippet, lexical: false, card }
}

/// A hit by terms: the snippet is the card's text.
pub fn lexical_hit(card_id: i64, score: ScoreKey, card: CardRecord) -> (res: Hit)
    ensures
        res@ == lexical_view(card_id, score, card),
{
    Hit { key: card_id, score, snippet: card.card_text_clean.clone(), lexical: true, card }
}

/// A hit by nearness, with its own snippet.
pub fn dense_hit(score: ScoreKey, snippet: String, card: CardRecord) -> (res: Hit)
    ensures
        res@ == dense_view(score, snippet@, card),
{
    Hit { key: card.card_id, score, snippet, lexical: false, card }
}

/// The candidate that a first hit makes, before the hit is counted.
pub open spec fn fresh(chunk: query::QueryView, hit: HitView) -> CandidateView {
    CandidateView {
        key: hit.key,
        card: hit.card,
        ranks: Seq::empty(),
        fused_score: 0,
        rerank_score: hit.score,
        lexical_bonus: 0,
        best_snippet: hit.snippet,
        matched_labels: Seq::empty(),
        best_query_text: chunk.text,
        best_query_overlap: 0,
    }
}

/// A candidate with one more hit counted. `None` where a snippet cannot be laid out.
pub open spec fn counted(
    c: CandidateView,
    chunk: query::QueryView,
    rank: usize,
    score: ScoreKey,
    snippet: Seq<char>,
    lexical: bool,
) -> Option<CandidateView> {
    match (
        better_snippet(c.best_snippet, snippet, chunk.terms),
        snippet_overlap(snippet, chunk.terms),
    ) {
        (Some(best), Some(overlap)) => Some(
            CandidateView {
                ranks: c.ranks.push(rank),
                rerank_score: if score > c.rerank_score {
                    score
                } else {
                    c.rerank_score
                },
                lexical_bonus: if lexical {
                    c.lexical_bonus + 1
                } else {
                    c.lexical_bonus
                },
                best_snippet: best,
                matched_labels: labels_after(c.matched_labels, chunk.label),
                best_query_text: if overlap > c.best_query_overlap {
                    chunk.text
                } else {
                    c.best_query_text
                },
                best_query_overlap: if overlap > c.best_query_overlap {
                    overlap as int
                } else {
                    c.best_query_overlap
                },
                ..c
            },
        ),
        _ => None,
    }
}

impl Candidate {
    /// Whether no more hits by terms are counted than hits.
    pub open spec fn wf(self) -> bool {
        self.lexical_bonus <= self.ranks@.len()
    }

    /// Keeps the chunk as the one to rank the card against, if the snippet holds more of its terms
    /// than of any chunk before it.
    pub fn maybe_update_best_query(&mut self, query_chunk: &QueryChunk, overlap: usize)
        ensures
            final(self)@ == (CandidateView {
                best_query_text: if overlap > old(self).best_query_overlap {
                    query_chunk.text@
                } else {
                    old(self).best_query_text@
                },
                best_query_overlap: if overlap > old(self).best_query_overlap {
                    overlap as int
                } else {
                    old(self).best_query_overlap as int
                },
                ..old(self)@
            }),
            old(self).wf() ==> final(self).wf(),
    {
        if overlap > self.best_query_overlap {
            self.best_query_overlap = overlap;
            self.best_query_text = query_chunk.text.clone();
        }
    }

    /// Counts a hit for the card; says whether its snippet could be laid out.
    fn count_hit(
        &mut self,
        chunk: &QueryChunk,
        rank: usize,
        score: ScoreKey,
        snippet: &str,
        lexical: bool,
    ) -> (res: bool)
        requires
            old(self).wf(),
        ensures
            match counted(old(self)@, chunk@, rank, score, snippet@, lexical) {
                Some(c) => res && final(self)@ == c && final(self).wf(),
                None => !res,
            },
    {
        let best = match select_better_snippet(self.best_snippet.as_str(), snippet, &chunk.terms) {
            Some(best) => best,
            None => {
                return false;
            },
        };
        let overlap: usize = match score_query_overlap(snippet, &chunk.terms) {
            Some(overlap) => overlap,
            None => {
                return false;
            },
        };
        self.ranks.push(rank);
        if score > self.rerank_score {
            self.rerank_score = score;
        }
        if lexical {
            assert(self.lexical_bonus < self.ranks.len());
            self.lexical_bonus = self.lexical_bonus + 1;
        }
        self.best_snippet = best;
        push_match_label(&mut self.matched_labels, chunk.label.as_str());
        self.maybe_update_best_query(chunk, overlap);
        true
    }
}

/// The place of the candidate with a key, or the end.
pub open spec fn place_of(cs: Seq<CandidateView>, key: i64) -> int
    decreases cs.len(),
{
    if cs.len() == 0 {
        0
    } else if cs[0].key == key {
        0
    } else {
        1 + place_of(cs.skip(1), key)
    }
}

/// The candidates after a hit.
pub open spec fn after_hit(
    cs: Seq<CandidateView>,
    chunk: query::QueryView,
    rank: usize,
    hit: HitView,
) -> Option<Seq<CandidateView>> {
    let at = place_of(cs, hit.key);
    if at < cs.len() {
        match counted(cs[at], chunk, rank, hit.score, hit.snippet, hit.lexical) {
            Some(c) => Some(cs.update(at, c)),
            None => None,
        }
    } else {
        match counted(fresh(chunk, hit), chunk, rank, hit.score, hit.snippet, hit.lexical) {
            Some(c) => Some(cs.push(c)),
            None => None,
        }
    }
}

proof fn lemma_place_of(cs: Seq<CandidateView>, key: i64, at: int)
    requires
        0 <= at <= cs.len(),
        forall|j: int| 0 <= j < at ==> (#[trigger] cs[j]).key != key,
        at < cs.len() ==> cs[at].key == key,
    ensures
        place_of(cs, key) == at,
    decreases cs.len(),
{
    if cs.len() > 0 && at > 0 {
        assert(cs[0].key != key);
        assert forall|j: int| 0 <= j < at - 1 implies (#[trigger] cs.skip(1)[j]).key != key by {
            assert(cs[j + 1].key != key);
        }
        lemma_place_of(cs.skip(1), key, at - 1);
    }
}

/// Whether every candidate of a list is well formed.
pub open spec fn all_wf(cs: Seq<Candidate>) -> bool {
    forall|i: int| 0 <= i < cs.len() ==> (#[trigger] cs[i]).wf()
}

/// Whether a list of candidates, if there is one, is what it should be.
pub open spec fn are_candidates(
    res: Option<Vec<Candidate>>,
    cs: Option<Seq<CandidateView>>,
) -> bool {
    match (res, cs) {
        (Some(v), Some(views)) => candidate_views(v@) == views && all_wf(v@),
        (None, None) => true,
        _ => false,
    }
}

/// Takes a hit in: it counts for the candidate with its key, or makes a new one.
pub fn take_hit(candidates: Vec<Candidate>, chunk: &QueryChunk, rank: usize, hit: Hit) -> (res:
    Option<Vec<Candidate>>)
    requires
        all_wf(candidates@),
    ensures
        are_candidates(res, after_hit(candidate_views(candidates@), chunk@, rank, hit@)),
{
    let ghost before = candidate_views(candidates@);
    let ghost the_hit = hit@;
    let n: usize = candidates.len();
    let mut at: usize = 0;
    while at < n && candidates[at].key != hit.key
        invariant
            at <= n,
            n == candidates@.len(),
            before == candidate_views(candidates@),
            forall|j: int| 0 <= j < at ==> (#[trigger] before[j]).key != hit.key,
        decreases n - at,
    {
        assert(before[at as int].key == candidates@[at as int].key);
        at = at + 1;
    }
    proof {
        if at < n {
            assert(before[at as int].key == candidates@[at as int].key);
        }
        lemma_place_of(before, hit.key, at as int);
    }
    let mut res = candidates;
    if at < n {
        let ghost was = res@[at as int];
        assert(before[at as int] == was@);
        let fine = res[at].count_hit(chunk, rank, hit.score, hit.snippet.as_str(), hit.lexical);
        if !fine {
            return None;
        }
        assert(candidate_views(res@) =~= before.update(at as int, res@[at as int]@));
        Some(res)
    } else {
        let Hit { key, score, snippet, lexical, card } = hit;
        let mut c = Candidate {
            key,
            card,
            ranks: Vec::new(),
            fused_score: 0,
            rerank_score: score,
            lexical_bonus: 0,
            best_snippet: snippet.clone(),
            matched_labels: Vec::new(),
            best_query_text: chunk.text.clone(),
            best_query_overlap: 0,
        };
        assert(c@ =~= fresh(chunk@, the_hit));
        let fine = c.count_hit(chunk, rank, score, snippet.as_str(), lexical);
        if !fine {
            return None;
        }
        let ghost added = c@;
        res.push(c);
        assert(candidate_views(res@) =~= before.push(added));
        Some(res)
    }
}

/// The candidates after a list of hits, best first. A place whose card is gone counts for nothing.
pub open spec fn after_hits(
    cs: Seq<CandidateView>,
    chunk: query::QueryView,
    hits: Seq<Option<HitView>>,
) -> Option<Seq<CandidateView>>
    decreases hits.len(),
{
    if hits.len() == 0 {
        Some(cs)
    } else {
        match after_hits(cs, chunk, hits.drop_last()) {
            None => None,
            Some(front) => match hits.last() {
                None => Some(front),
                Some(hit) => after_hit(front, chunk, (hits.len() - 1) as usize, hit),
            },
        }
    }
}

proof fn lemma_after_hits_none(
    cs: Seq<CandidateView>,
    chunk: query::QueryView,
    hits: Seq<Option<HitView>>,
    n: int,
)
    requires
        0 <= n <= hits.len(),
        after_hits(cs, chunk, hits.take(n)) is None,
    ensures
        after_hits(cs, chunk, hits) is None,
    decreases hits.len(),
{
    if n == hits.len() {
        assert(hits.take(n) =~= hits);
    } else {
        assert(hits.drop_last().take(n) =~= hits.take(n));
        lemma_after_hits_none(cs, chunk, hits.drop_last(), n);
    }
}

/// Takes a list of hits in, best first.
pub fn take_hits(candidates: Vec<Candidate>, chunk: &QueryChunk, hits: Vec<Option<Hit>>) -> (res:
    Option<Vec<Candidate>>)
    requires
        all_wf(candidates@),
    ensures
        are_candidates(res, after_hits(candidate_views(candidates@), chunk@, hit_views(hits@))),
{
    let ghost before = candidate_views(candidates@);
    let ghost all = hit_views(hits@);
    let ghost whole = hits@;
    let mut res = candidates;
    let mut rank: usize = 0;
    let n: usize = hits.len();
    for hit in it: hits
        invariant
            it.seq() == whole,
            all == hit_views(whole),
            n == all.len(),
            rank == it.index(),
            before == candidate_views(candidates@),
            all_wf(res@),
            after_hits(before, chunk@, all.take(it.index() as int)) == Some(candidate_views(res@)),
    {
        assert(all.take(rank + 1).drop_last() =~= all.take(rank as int));
        assert(all[rank as int] == hit_views(whole)[rank as int]);
        assert(hit == whole[rank as int]);
        match hit {
            None => {},
            Some(hit) => {
                match take_hit(res, chunk, rank, hit) {
                    None => {
                        proof {
                            lemma_after_hits_none(before, chunk@, all, rank + 1);
                        }
                        return None;
                    },
                    Some(more) => {
                        res = more;
                    },
                }
            },
        }
        rank = rank + 1;
    }
    assert(all.take(all.len() as int) =~= all);
    Some(res)
}

/// A chunk of the query with the hits for it, those of each search best first.
#[derive(Debug, Clone)]
pub struct ChunkHits {
    pub chunk: QueryChunk,
    pub lexical: Vec<Option<Hit>>,
    pub dense: Vec<Option<Hit>>,
}

/// What is known of the hits for a chunk.
#[verifier::ext_equal]
pub struct FoundView {
    pub chunk: query::QueryView,
    pub lexical: Seq<Option<HitView>>,
    pub dense: Seq<Option<HitView>>,
}

impl View for ChunkHits {
    type V = FoundView;

    open spec fn view(&self) -> FoundView {
        FoundView {
            chunk: self.chunk@,
            lexical: hit_views(self.lexical@),
            dense: hit_views(self.dense@),
        }
    }
}

/// What is known of the hits for a list of chunks.
pub open spec fn found_views(v: Seq<ChunkHits>) -> Seq<FoundView> {
    Seq::new(v.len(), |i: int| v[i]@)
}

/// The candidates of all hits, in the order in which their cards were first hit.
pub open spec fn gathered(found: Seq<FoundView>) -> Option<Seq<CandidateView>>
    decreases found.len(),
{
    if found.len() == 0 {
        Some(Seq::empty())
    } else {
        match gathered(found.drop_last()) {
            None => None,
            Some(front) => match after_hits(front, found.last().chunk, found.last().lexical) {
                None => None,
                Some(cs) => after_hits(cs, found.last().chunk, found.last().dense),
            },
        }
    }
}

proof fn lemma_gathered_none(found: Seq<FoundView>, n: int)
    requires
        0 <= n <= found.len(),
        gathered(found.take(n)) is None,
    ensures
        gathered(found) is None,
    decreases found.len(),
{
    if n == found.len() {
        assert(found.take(n) =~= found);
    } else {
        assert(found.drop_last().take(n) =~= found.take(n));
        lemma_gathered_none(found.drop_last(), n);
    }
}

/// Gathers the hits for all chunks of a query by card.
pub fn gather_candidates(found: Vec<ChunkHits>) -> (res: Option<Vec<Candidate>>)
    ensures
        are_candidates(res, gathered(found_views(found@))),
{
    let ghost all = found_views(found@);
    let ghost whole = found@;
    let mut res: Vec<Candidate> = Vec::new();
    assert(candidate_views(res@) =~= Seq::<CandidateView>::empty());
    for hits in it: found
        invariant
            it.seq() == whole,
            all == found_views(whole),
            all_wf(res@),
            gathered(all.take(it.index() as int)) == Some(candidate_views(res@)),
    {
        assert(all.take(it.index() + 1).drop_last() =~= all.take(it.index() as int));
        assert(hits == whole[it.index() as int]);
        assert(all[it.index() as int] == hits@);
        let ChunkHits { chunk, lexical, dense } = hits;
        let with_lexical = match take_hits(res, &chunk, lexical) {
            Some(cs) => cs,
            None => {
                proof {
                    lemma_gathered_none(all, it.index() + 1);
                }
                return None;
            },
        };
        match take_hits(with_lexical, &chunk, dense) {
            Some(cs) => {
                res = cs;
            },
            None => {
                proof {
                    lemma_gathered_none(all, it.index() + 1);
                }
                return None;
            },
        }
    }
    assert(all.take(all.len() as int) =~= all);
    Some(res)
}

/// Whether candidates are as gathering leaves them: each card once, hit at least once, with no
/// more hits by terms than hits, and with at most six labels, in order.
pub open spec fn sound(cs: Seq<CandidateView>) -> bool {
    &&& forall|i: int, j: int|
        0 <= i < j < cs.len() ==> (#[trigger] cs[i]).key != (#[trigger] cs[j]).key
    &&& forall|i: int| 0 <= i < cs.len() ==> sound_one(#[trigger] cs[i])
}

/// What gathering leaves of one candidate.
pub open spec fn sound_one(c: CandidateView) -> bool {
    &&& 0 <= c.lexical_bonus <= c.ranks.len()
    &&& c.ranks.len() > 0
    &&& 0 < c.matched_labels.len() <= MAX_LABELS
    &&& in_order(c.matched_labels)
}

proof fn lemma_counted_sound(
    c: CandidateView,
    chunk: query::QueryView,
    rank: usize,
    score: ScoreKey,
    snippet: Seq<char>,
    lexical: bool,
)
    requires
        0 <= c.lexical_bonus <= c.ranks.len(),
        c.matched_labels.len() <= MAX_LABELS,
        in_order(c.matched_labels),
    ensures
        match counted(c, chunk, rank, score, snippet, lexical) {
            Some(after) => sound_one(after) && after.key == c.key,
            None => true,
        },
{
    law_labels(c.matched_labels, chunk.label);
    if c.matched_labels.len() < MAX_LABELS {
        let after = labels_after(c.matched_labels, chunk.label);
        assert(after.contains(chunk.label));
    }
}

pub proof fn lemma_place_of_bounds(cs: Seq<CandidateView>, key: i64)
    ensures
        0 <= place_of(cs, key) <= cs.len(),
        forall|j: int| 0 <= j < place_of(cs, key) ==> (#[trigger] cs[j]).key != key,
        place_of(cs, key) < cs.len() ==> cs[place_of(cs, key)].key == key,
    decreases cs.len(),
{
    if cs.len() > 0 && cs[0].key != key {
        let rest = cs.skip(1);
        lemma_place_of_bounds(rest, key);
        assert forall|j: int| 0 <= j < place_of(cs, key) implies (#[trigger] cs[j]).key != key by {
            if j > 0 {
                assert(rest[j - 1] == cs[j]);
            }
        }
        if place_of(rest, key) < rest.len() {
            assert(rest[place_of(rest, key)] == cs[place_of(cs, key)]);
        }
    }
}

pub proof fn lemma_after_hit_sound(
    cs: Seq<CandidateView>,
    chunk: query::QueryView,
    rank: usize,
    hit: HitView,
)
    requires
        sound(cs),
    ensures
        match after_hit(cs, chunk, rank, hit) {
            Some(after) => sound(after),
            None => true,
        },
{
    lemma_place_of_bounds(cs, hit.key);
    let at = place_of(cs, hit.key);
    if at < cs.len() {
        assert(sound_one(cs[at]));
        lemma_counted_sound(cs[at], chunk, rank, hit.score, hit.snippet, hit.lexical);
    } else {
        lemma_counted_sound(
            fresh(chunk, hit),
            chunk,
            rank,
            hit.score,
            hit.snippet,
            hit.lexical,
        );
    }
}

proof fn lemma_after_hits_sound(
    cs: Seq<CandidateView>,
    chunk: query::QueryView,
    hits: Seq<Option<HitView>>,
)
    requires
        sound(cs),
    ensures
        match after_hits(cs, chunk, hits) {
            Some(after) => sound(after),
            None => true,
        },
    decreases hits.len(),
{
    if hits.len() > 0 {
        lemma_after_hits_sound(cs, chunk, hits.drop_last());
        match (after_hits(cs, chunk, hits.drop_last()), hits.last()) {
            (Some(front), Some(hit)) => {
                lemma_after_hit_sound(front, chunk, (hits.len() - 1) as usize, hit);
            },
            _ => {},
        }
    }
}

/// What the hits under a key amount to: how many there are, how many of them are hits by terms,
/// and the greatest of their scores.
#[verifier::ext_equal]
pub struct Tally {
    pub hits: nat,
    pub by_terms: nat,
    pub best: Option<ScoreKey>,
}

/// What no hits amount to.
pub open spec fn no_hits() -> Tally {
    Tally { hits: 0, by_terms: 0, best: None }
}

/// What hits amount to with one more, which counts where it is under the key.
pub open spec fn with_hit(tally: Tally, key: i64, hit: Option<HitView>) -> Tally {
    match hit {
        Some(h) => if h.key == key {
            Tally {
                hits: tally.hits + 1,
                by_terms: if h.lexical {
                    tally.by_terms + 1
                } else {
                    tally.by_terms
                },
                best: match tally.best {
                    Some(score) => if h.score > score {
                        Some(h.score)
                    } else {
                        Some(score)
                    },
                    None => Some(h.score),
                },
            }
        } else {
            tally
        },
        None => tally,
    }
}

/// What hits amount to with a list of more.
pub open spec fn with_hits(tally: Tally, key: i64, hits: Seq<Option<HitView>>) -> Tally
    decreases hits.len(),
{
    if hits.len() == 0 {
        tally
    } else {
        with_hit(with_hits(tally, key, hits.drop_last()), key, hits.last())
    }
}

/// What all hits under a key amount to.
pub open spec fn tally_of(found: Seq<FoundView>, key: i64) -> Tally
    decreases found.len(),
{
    if found.len() == 0 {
        no_hits()
    } else {
        with_hits(
            with_hits(tally_of(found.drop_last(), key), key, found.last().lexical),
            key,
            found.last().dense,
        )
    }
}

/// Whether hits are gathered under the ids of their cards.
pub open spec fn own_hits(hits: Seq<Option<HitView>>) -> bool {
    forall|j: int|
        0 <= j < hits.len() ==> match #[trigger] hits[j] {
            Some(hit) => hit.key == hit.card.card_id,
            None => true,
        }
}

/// Whether candidates stand under the ids of their cards.
pub open spec fn own_keys(cs: Seq<CandidateView>) -> bool {
    forall|i: int| 0 <= i < cs.len() ==> (#[trigger] cs[i]).key == cs[i].card.card_id
}

proof fn lemma_after_hits_own(
    cs: Seq<CandidateView>,
    chunk: query::QueryView,
    hits: Seq<Option<HitView>>,
)
    requires
        own_keys(cs),
        own_hits(hits),
    ensures
        match after_hits(cs, chunk, hits) {
            Some(after) => own_keys(after),
            None => true,
        },
    decreases hits.len(),
{
    if hits.len() > 0 {
        let fewer = hits.drop_last();
        assert forall|j: int| 0 <= j < fewer.len() implies match #[trigger] fewer[j] {
            Some(hit) => hit.key == hit.card.card_id,
            None => true,
        } by {
            assert(hits[j] == fewer[j]);
        }
        lemma_after_hits_own(cs, chunk, fewer);
        if let (Some(front), Some(hit)) = (after_hits(cs, chunk, fewer), hits.last()) {
            assert(hits[hits.len() - 1] == Some(hit));
            if let Some(after) = after_hit(front, chunk, (hits.len() - 1) as usize, hit) {
                let at = place_of(front, hit.key);
                lemma_place_of_bounds(front, hit.key);
                assert forall|i: int| 0 <= i < after.len() implies (#[trigger] after[i]).key
                    == after[i].card.card_id by {
                    if i < front.len() {
                        assert(front[i].key == front[i].card.card_id);
                    }
                    if at < front.len() {
                        assert(front[at].key == front[at].card.card_id);
                    }
                }
            }
        }
    }
}

/// Candidates stand under the ids of their cards, where the hits that they are gathered from do.
pub proof fn law_gathered_under_own_keys(found: Seq<FoundView>)
    requires
        forall|i: int|
            0 <= i < found.len() ==> own_hits((#[trigger] found[i]).lexical) && own_hits(
                found[i].dense,
            ),
    ensures
        match gathered(found) {
            Some(cs) => own_keys(cs),
            None => true,
        },
    decreases found.len(),
{
    if found.len() > 0 {
        let fewer = found.drop_last();
        assert forall|i: int| 0 <= i < fewer.len() implies own_hits((#[trigger] fewer[i]).lexical)
            && own_hits(fewer[i].dense) by {
            assert(found[i] == fewer[i]);
        }
        law_gathered_under_own_keys(fewer);
        let last = found[found.len() - 1];
        assert(own_hits(last.lexical) && own_hits(last.dense));
        if let Some(front) = gathered(fewer) {
            lemma_after_hits_own(front, last.chunk, last.lexical);
            if let Some(cs) = after_hits(front, last.chunk, last.lexical) {
                lemma_after_hits_own(cs, last.chunk, last.dense);
            }
        }
    }
}

/// Whether a candidate says what the hits under its key amount to.
pub open spec fn tells(c: CandidateView, tally: Tally) -> bool {
    &&& c.ranks.len() == tally.hits
    &&& c.lexical_bonus == tally.by_terms
    &&& tally.best == Some(c.rerank_score)
}

/// Whether a list has a candidate under a key.
pub open spec fn has_key(cs: Seq<CandidateView>, key: i64) -> bool {
    exists|i: int| 0 <= i < cs.len() && (#[trigger] cs[i]).key == key
}

/// Whether candidates are those of the hits: each says what the hits under its key amount to, and
/// under a key without a candidate there are none.
pub open spec fn accounts_for(cs: Seq<CandidateView>, tally: spec_fn(i64) -> Tally) -> bool {
    &&& forall|i: int| 0 <= i < cs.len() ==> tells(#[trigger] cs[i], tally(cs[i].key))
    &&& forall|key: i64| !#[trigger] has_key(cs, key) ==> tally(key) == no_hits()
}

proof fn lemma_after_hit_accounts(
    cs: Seq<CandidateView>,
    chunk: query::QueryView,
    rank: usize,
    hit: HitView,
    tally: spec_fn(i64) -> Tally,
)
    requires
        sound(cs),
        accounts_for(cs, tally),
    ensures
        match after_hit(cs, chunk, rank, hit) {
            Some(after) => accounts_for(
                after,
                |key: i64| with_hit(tally(key), key, Some(hit)),
            ),
            None => true,
        },
{
    let next = |key: i64| with_hit(tally(key), key, Some(hit));
    lemma_place_of_bounds(cs, hit.key);
    let at = place_of(cs, hit.key);
    match after_hit(cs, chunk, rank, hit) {
        Some(after) => {
            if at < cs.len() {
                assert(tells(cs[at], tally(cs[at].key)));
                assert forall|i: int| 0 <= i < after.len() implies tells(
                    #[trigger] after[i],
                    next(after[i].key),
                ) by {
                    if i != at {
                        assert(after[i] == cs[i]);
                        assert(cs[i].key != cs[at].key);
                        assert(tells(cs[i], tally(cs[i].key)));
                    }
                }
                assert forall|key: i64| !#[trigger] has_key(after, key) implies next(key)
                    == no_hits() by {
                    assert(after[at].key != key);
                    if has_key(cs, key) {
                        let i = choose|i: int| 0 <= i < cs.len() && (#[trigger] cs[i]).key == key;
                        assert(after[i].key == key);
                    }
                }
            } else {
                assert(!has_key(cs, hit.key));
                assert(tally(hit.key) == no_hits());
                assert forall|i: int| 0 <= i < after.len() implies tells(
                    #[trigger] after[i],
                    next(after[i].key),
                ) by {
                    if i < cs.len() {
                        assert(after[i] == cs[i]);
                        assert(tells(cs[i], tally(cs[i].key)));
                    }
                }
                assert forall|key: i64| !#[trigger] has_key(after, key) implies next(key)
                    == no_hits() by {
                    assert(after[cs.len() as int].key != key);
                    if has_key(cs, key) {
                        let i = choose|i: int| 0 <= i < cs.len() && (#[trigger] cs[i]).key == key;
                        assert(after[i].key == key);
                    }
                }
            }
        },
        None => {},
    }
}

proof fn lemma_after_hits_accounts(
    cs: Seq<CandidateView>,
    chunk: query::QueryView,
    hits: Seq<Option<HitView>>,
    tally: spec_fn(i64) -> Tally,
)
    requires
        sound(cs),
        accounts_for(cs, tally),
    ensures
        match after_hits(cs, chunk, hits) {
            Some(after) => accounts_for(after, |key: i64| with_hits(tally(key), key, hits)),
            None => true,
        },
    decreases hits.len(),
{
    let whole = |key: i64| with_hits(tally(key), key, hits);
    if hits.len() == 0 {
        assert(whole =~= tally);
    } else {
        let fewer = hits.drop_last();
        let part = |key: i64| with_hits(tally(key), key, fewer);
        lemma_after_hits_accounts(cs, chunk, fewer, tally);
        lemma_after_hits_sound(cs, chunk, fewer);
        match (after_hits(cs, chunk, fewer), hits.last()) {
            (Some(front), Some(hit)) => {
                lemma_after_hit_accounts(front, chunk, (hits.len() - 1) as usize, hit, part);
                assert(whole =~= (|key: i64| with_hit(part(key), key, Some(hit))));
            },
            (Some(_), None) => {
                assert(whole =~= part);
            },
            _ => {},
        }
    }
}

proof fn lemma_gathered_accounts(found: Seq<FoundView>)
    ensures
        match gathered(found) {
            Some(cs) => sound(cs) && accounts_for(cs, |key: i64| tally_of(found, key)),
            None => true,
        },
    decreases found.len(),
{
    let whole = |key: i64| tally_of(found, key);
    if found.len() == 0 {
        assert forall|key: i64| !#[trigger] has_key(Seq::empty(), key) implies whole(key)
            == no_hits() by {}
    } else {
        let fewer = found.drop_last();
        let last = found.last();
        let before = |key: i64| tally_of(fewer, key);
        lemma_gathered_accounts(fewer);
        match gathered(fewer) {
            Some(front) => {
                lemma_after_hits_sound(front, last.chunk, last.lexical);
                lemma_after_hits_accounts(front, last.chunk, last.lexical, before);
                let between = |key: i64| with_hits(before(key), key, last.lexical);
                match after_hits(front, last.chunk, last.lexical) {
                    Some(cs) => {
                        lemma_after_hits_sound(cs, last.chunk, last.dense);
                        lemma_after_hits_accounts(cs, last.chunk, last.dense, between);
                        assert(whole =~= (|key: i64| with_hits(between(key), key, last.dense)));
                    },
                    None => {},
                }
            },
            None => {},
        }
    }
}

/// Whatever the hits are, no card becomes a candidate twice, and every candidate is as gathering
/// should leave it. The places, the hits by terms and the score of a candidate are those of the
/// hits under its key: there are as many, and none has a greater score. No hit is lost: every key
/// with a hit has its candidate.
pub proof fn law_gathered_is_sound(found: Seq<FoundView>)
    ensures
        match gathered(found) {
            Some(cs) => {
                &&& sound(cs)
                &&& forall|i: int|
                    0 <= i < cs.len() ==> tells(#[trigger] cs[i], tally_of(found, cs[i].key))
                &&& forall|key: i64|
                    (#[trigger] tally_of(found, key)).hits > 0 ==> has_key(cs, key)
            },
            None => true,
        },
{
    lemma_gathered_accounts(found);
    let whole = |key: i64| tally_of(found, key);
    match gathered(found) {
        Some(cs) => {
            assert forall|i: int| 0 <= i < cs.len() implies tells(
                #[trigger] cs[i],
                tally_of(found, cs[i].key),
            ) by {
                assert(tells(cs[i], whole(cs[i].key)));
            }
            assert forall|key: i64| (#[trigger] tally_of(found, key)).hits > 0 implies has_key(
                cs,
                key,
            ) by {
                if !has_key(cs, key) {
                    assert(whole(key) == no_hits());
                }
            }
        },
        None => {},
    }
}

/// The places of each candidate's hits.
pub fn candidate_ranks(candidates: &Vec<Candidate>) -> (res: Vec<Vec<usize>>)
    ensures
        res@.len() == candidates@.len(),
        forall|i: int| 0 <= i < res@.len() ==> (#[trigger] res@[i])@ == candidates@[i].ranks@,
{
    let mut res: Vec<Vec<usize>> = Vec::new();
    for i in 0..candidates.len()
        invariant
            res@.len() == i,
            forall|j: int| 0 <= j < i ==> (#[trigger] res@[j])@ == candidates@[j].ranks@,
    {
        let own = &candidates[i].ranks;
        let mut ranks: Vec<usize> = Vec::new();
        for k in 0..own.len()
            invariant
                ranks@ == own@.take(k as int),
        {
            ranks.push(own[k]);
            assert(ranks@ =~= own@.take(k + 1));
        }
        assert(ranks@ =~= own@);
        res.push(ranks);
    }
    res
}

/// Candidates with their scores from the places of their hits, as far as those are given.
pub open spec fn fused(cs: Seq<Candidate>, scores: Seq<ScoreKey>) -> Seq<Candidate> {
    Seq::new(
        cs.len(),
        |i: int|
            if i < scores.len() {
                Candidate { fused_score: scores[i], ..cs[i] }
            } else {
                cs[i]
            },
    )
}

/// Gives candidates their scores from the places of their hits.
pub fn with_fused(candidates: Vec<Candidate>, scores: &Vec<ScoreKey>) -> (res: Vec<Candidate>)
    ensures
        res@ == fused(candidates@, scores@),
{
    let ghost all = candidates@;
    let mut res: Vec<Candidate> = Vec::new();
    let mut i: usize = 0;
    let n: usize = candidates.len();
    for c in it: candidates
        invariant
            it.seq() == all,
            n == all.len(),
            i == it.index(),
            res@ == fused(all, scores@).take(it.index() as int),
    {
        let mut c = c;
        if i < scores.len() {
            c.fused_score = scores[i];
        }
        assert(c == fused(all, scores@)[i as int]);
        res.push(c);
        assert(res@ =~= fused(all, scores@).take(i + 1));
        i = i + 1;
    }
    assert(res@ =~= fused(all, scores@));
    res
}

/// Whether a card whose plain text is known says enough to be shown though no term hit it.
pub open spec fn says_enough(plain: Seq<char>) -> bool {
    query::informative_words(strings::words(plain), 3) >= 6 || query::letters(plain) >= 40
}

/// Whether a card's plain text says enough to be shown.
pub fn is_telling(plain: &str) -> (res: bool)
    ensures
        res == says_enough(plain@),
{
    query::count_informative(plain, 3) >= 6 || query::count_letters(plain) >= 40
}

/// Whether a candidate is worth showing, `None` where its text cannot be laid out.
pub open spec fn useful(c: Candidate) -> Option<bool> {
    if c.lexical_bonus > 0 {
        Some(true)
    } else {
        match text::normalized(c.card.card_text_clean@) {
            Some(plain) => Some(says_enough(plain)),
            None => None,
        }
    }
}

/// Whether a candidate is worth showing.
pub fn is_useful_candidate(candidate: &Candidate) -> (res: Option<bool>)
    ensures
        res == useful(*candidate),
{
    if candidate.lexical_bonus > 0 {
        return Some(true);
    }
    match text::normalize_text(candidate.card.card_text_clean.as_str()) {
        Some(plain) => Some(is_telling(plain.as_str())),
        None => None,
    }
}

/// The candidates that are worth showing, in order; `None` where a text cannot be laid out.
pub open spec fn useful_only(cs: Seq<Candidate>) -> Option<Seq<Candidate>>
    decreases cs.len(),
{
    if cs.len() == 0 {
        Some(Seq::empty())
    } else {
        match (useful_only(cs.drop_last()), useful(cs.last())) {
            (Some(front), Some(wanted)) => Some(
                if wanted {
                    front.push(cs.last())
                } else {
                    front
                },
            ),
            _ => None,
        }
    }
}

proof fn lemma_useful_only_none(cs: Seq<Candidate>, n: int)
    requires
        0 <= n <= cs.len(),
        useful_only(cs.take(n)) is None,
    ensures
        useful_only(cs) is None,
    decreases cs.len(),
{
    if n == cs.len() {
        assert(cs.take(n) =~= cs);
    } else {
        assert(cs.drop_last().take(n) =~= cs.take(n));
        lemma_useful_only_none(cs.drop_last(), n);
    }
}

/// Whether a list, if there is one, is what it should be.
pub open spec fn are_kept(res: Option<Vec<Candidate>>, cs: Option<Seq<Candidate>>) -> bool {
    match (res, cs) {
        (Some(v), Some(kept)) => v@ == kept,
        (None, None) => true,
        _ => false,
    }
}

/// Keeps the candidates that are worth showing.
pub fn keep_useful(candidates: Vec<Candidate>) -> (res: Option<Vec<Candidate>>)
    ensures
        are_kept(res, useful_only(candidates@)),
{
    let ghost all = candidates@;
    let mut res: Vec<Candidate> = Vec::new();
    for c in it: candidates
        invariant
            it.seq() == all,
            useful_only(all.take(it.index() as int)) == Some(res@),
    {
        assert(all.take(it.index() + 1).drop_last() =~= all.take(it.index() as int));
        assert(c == all[it.index() as int]);
        match is_useful_candidate(&c) {
            Some(wanted) => {
                if wanted {
                    res.push(c);
                }
            },
            None => {
                proof {
                    lemma_useful_only_none(all, it.index() + 1);
                }
                return None;
            },
        }
    }
    assert(all.take(all.len() as int) =~= all);
    Some(res)
}

/// Whether candidate `i` is the first one for its note.
pub open spec fn first_of_note(cs: Seq<Candidate>, i: int) -> bool {
    forall|j: int|
        0 <= j < i ==> (#[trigger] cs[j]).card.original_note_id != cs[i].card.original_note_id
}

/// Whether candidate `i` stays: it is the first one for its note, and no first one for a note
/// before it says the same.
pub open spec fn stays(cs: Seq<Candidate>, said: Seq<Seq<char>>, i: int) -> bool {
    first_of_note(cs, i) && forall|j: int|
        0 <= j < i && #[trigger] first_of_note(cs, j) ==> said[j] != said[i]
}

/// The candidates that stay of the first `n`, where `said` are their plain texts.
pub open spec fn collapsed(cs: Seq<Candidate>, said: Seq<Seq<char>>, n: nat) -> Seq<Candidate>
    decreases n,
{
    if n == 0 {
        Seq::empty()
    } else {
        let front = collapsed(cs, said, (n - 1) as nat);
        if stays(cs, said, n - 1) {
            front.push(cs[n - 1])
        } else {
            front
        }
    }
}

fn has_note(notes: &Vec<i64>, note: i64) -> (res: bool)
    ensures
        res == notes@.contains(note),
{
    for i in 0..notes.len()
        invariant
            forall|j: int| 0 <= j < i ==> notes@[j] != note,
    {
        if notes[i] == note {
            assert(notes@[i as int] == note);
            return true;
        }
    }
    false
}

fn has_text(said: &Vec<String>, text: &String) -> (res: bool)
    ensures
        res == strings::texts(said@).contains(text@),
{
    for i in 0..said.len()
        invariant
            forall|j: int| 0 <= j < i ==> strings::texts(said@)[j] != text@,
    {
        if said[i] == *text {
            assert(strings::texts(said@)[i as int] == text@);
            return true;
        }
    }
    false
}

/// Drops candidates that repeat a note or a text, given the plain texts of all of them.
pub fn collapse(candidates: Vec<Candidate>, said: Vec<String>) -> (res: Vec<Candidate>)
    requires
        candidates@.len() == said@.len(),
    ensures
        res@ == collapsed(candidates@, strings::texts(said@), candidates@.len()),
{
    let ghost cs = candidates@;
    let ghost all_said = strings::texts(said@);
    let mut notes: Vec<i64> = Vec::new();
    let mut seen: Vec<String> = Vec::new();
    let mut res: Vec<Candidate> = Vec::new();
    let mut i: usize = 0;
    let n: usize = candidates.len();
    for c in it: candidates
        invariant
            it.seq() == cs,
            n == cs.len(),
            n == said@.len(),
            i == it.index(),
            all_said == strings::texts(said@),
            res@ == collapsed(cs, all_said, i as nat),
            forall|j: int| 0 <= j < i ==> notes@.contains((#[trigger] cs[j]).card.original_note_id),
            forall|x: i64| #[trigger] notes@.contains(x) ==> exists|j: int|
                0 <= j < i && (#[trigger] cs[j]).card.original_note_id == x,
            forall|j: int|
                0 <= j < i && #[trigger] first_of_note(cs, j) ==> strings::texts(seen@).contains(
                    all_said[j],
                ),
            forall|x: Seq<char>| #[trigger] strings::texts(seen@).contains(x) ==> exists|j: int|
                0 <= j < i && #[trigger] first_of_note(cs, j) && all_said[j] == x,
    {
        assert(c == cs[i as int]);
        let note: i64 = c.card.original_note_id;
        let ghost notes_before = notes@;
        let ghost seen_before = strings::texts(seen@);
        let known = has_note(&notes, note);
        assert(known == !first_of_note(cs, i as int)) by {
            if known {
                let j = choose|j: int| 0 <= j < i && (#[trigger] cs[j]).card.original_note_id == note;
                assert(cs[j].card.original_note_id == note);
            }
        }
        if !known {
            notes.push(note);
            assert forall|x: i64| #[trigger] notes@.contains(x) implies exists|j: int|
                0 <= j < i + 1 && (#[trigger] cs[j]).card.original_note_id == x by {
                if x == note {
                    assert(cs[i as int].card.original_note_id == x);
                } else {
                    let k = choose|k: int| 0 <= k < notes@.len() && notes@[k] == x;
                    assert(notes_before[k] == x);
                    assert(notes_before.contains(x));
                }
            }
            assert forall|j: int| 0 <= j < i + 1 implies notes@.contains(
                (#[trigger] cs[j]).card.original_note_id,
            ) by {
                if j < i {
                    assert(notes_before.contains(cs[j].card.original_note_id));
                    let k = choose|k: int|
                        0 <= k < notes_before.len() && notes_before[k]
                            == cs[j].card.original_note_id;
                    assert(notes@[k] == cs[j].card.original_note_id);
                } else {
                    assert(notes@[notes_before.len() as int] == note);
                }
            }
            let repeated = has_text(&seen, &said[i]);
            assert(all_said[i as int] == said@[i as int]@);
            if !repeated {
                seen.push(said[i].clone());
                assert(strings::texts(seen@) =~= seen_before.push(all_said[i as int]));
                assert forall|j: int|
                    0 <= j < i + 1 && #[trigger] first_of_note(cs, j) implies strings::texts(
                    seen@,
                ).contains(all_said[j]) by {
                    if j < i {
                        assert(seen_before.contains(all_said[j]));
                        let k = choose|k: int|
                            0 <= k < seen_before.len() && seen_before[k] == all_said[j];
                        assert(strings::texts(seen@)[k] == all_said[j]);
                    } else {
                        assert(strings::texts(seen@)[seen_before.len() as int] == all_said[j]);
                    }
                }
                assert forall|x: Seq<char>| #[trigger]
                    strings::texts(seen@).contains(x) implies exists|j: int|
                    0 <= j < i + 1 && #[trigger] first_of_note(cs, j) && all_said[j] == x by {
                    let k = choose|k: int|
                        0 <= k < strings::texts(seen@).len() && strings::texts(seen@)[k] == x;
                    if k < seen_before.len() {
                        assert(seen_before[k] == x);
                        assert(seen_before.contains(x));
                    } else {
                        assert(first_of_note(cs, i as int) && all_said[i as int] == x);
                    }
                }
                assert(stays(cs, all_said, i as int));
                res.push(c);
            } else {
                assert(!stays(cs, all_said, i as int));
            }
        }
        i = i + 1;
    }
    res
}

/// The stored texts of the cards of a list of candidates.
pub open spec fn card_texts(cs: Seq<Candidate>) -> Seq<Seq<char>> {
    Seq::new(cs.len(), |i: int| cs[i].card.card_text_clean@)
}

/// The candidates that repeat neither a note nor a text; `None` where a text cannot be laid out.
pub open spec fn without_repeats(cs: Seq<Candidate>) -> Option<Seq<Candidate>> {
    match text::all_normalized(card_texts(cs)) {
        Some(said) => Some(collapsed(cs, said, cs.len())),
        None => None,
    }
}

/// Drops candidates that repeat a note or a text.
pub fn collapse_redundant_candidates(candidates: Vec<Candidate>) -> (res: Option<Vec<Candidate>>)
    ensures
        are_kept(res, without_repeats(candidates@)),
{
    let mut stored: Vec<String> = Vec::new();
    for i in 0..candidates.len()
        invariant
            strings::texts(stored@) == card_texts(candidates@).take(i as int),
    {
        let ghost before = strings::texts(stored@);
        stored.push(candidates[i].card.card_text_clean.clone());
        assert(strings::texts(stored@) =~= before.push(card_texts(candidates@)[i as int]));
        assert(card_texts(candidates@).take(i + 1) =~= card_texts(candidates@).take(i as int).push(
            card_texts(candidates@)[i as int],
        ));
    }
    assert(card_texts(candidates@).take(candidates@.len() as int) =~= card_texts(candidates@));
    match text::normalize_all(&stored) {
        Some(said) => {
            proof {
                text::lemma_all_normalized(card_texts(candidates@));
                assert(strings::texts(said@).len() == said@.len());
            }
            Some(collapse(candidates, said))
        },
        None => None,
    }
}

spec fn stayed(cs: Seq<Candidate>, said: Seq<Seq<char>>, n: nat, c: Candidate) -> bool {
    exists|i: int| 0 <= i < n && #[trigger] stays(cs, said, i) && c == cs[i]
}

proof fn lemma_collapsed(cs: Seq<Candidate>, said: Seq<Seq<char>>, n: nat)
    requires
        n <= cs.len(),
        cs.len() == said.len(),
        forall|i: int|
            0 <= i < cs.len() ==> text::normalized((#[trigger] cs[i]).card.card_text_clean@)
                == Some(said[i]),
    ensures
        forall|a: int|
            0 <= a < collapsed(cs, said, n).len() ==> stayed(
                cs,
                said,
                n,
                #[trigger] collapsed(cs, said, n)[a],
            ),
        forall|a: int, b: int|
            0 <= a < b < collapsed(cs, said, n).len() ==> differ(
                #[trigger] collapsed(cs, said, n)[a],
                #[trigger] collapsed(cs, said, n)[b],
            ),
    decreases n,
{
    if n > 0 {
        let m = (n - 1) as nat;
        lemma_collapsed(cs, said, m);
        let front = collapsed(cs, said, m);
        let all = collapsed(cs, said, n);
        assert forall|a: int| 0 <= a < all.len() implies stayed(
            cs,
            said,
            n,
            #[trigger] all[a],
        ) by {
            if a < front.len() {
                assert(stayed(cs, said, m, front[a]));
            } else {
                assert(stays(cs, said, m as int));
            }
        }
        assert forall|a: int, b: int| 0 <= a < b < all.len() implies differ(
            #[trigger] all[a],
            #[trigger] all[b],
        ) by {
            if b < front.len() {
                assert(differ(front[a], front[b]));
            } else {
                assert(stayed(cs, said, m, front[a]));
                let i = choose|i: int|
                    0 <= i < m && #[trigger] stays(cs, said, i) && front[a] == cs[i];
                assert(first_of_note(cs, i));
                assert(cs[i].card.original_note_id != cs[m as int].card.original_note_id);
                assert(said[i] != said[m as int]);
                assert(text::normalized(cs[i].card.card_text_clean@) == Some(said[i]));
                assert(text::normalized(cs[m as int].card.card_text_clean@) == Some(
                    said[m as int],
                ));
            }
        }
    }
}

/// Whether two candidates are of different notes and say different things.
pub open spec fn differ(a: Candidate, b: Candidate) -> bool {
    a.card.original_note_id != b.card.original_note_id && text::normalized(a.card.card_text_clean@)
        != text::normalized(b.card.card_text_clean@)
}

/// Of the candidates that are left, no two are of one note and no two say the same; the first
/// candidate is always left.
pub proof fn law_without_repeats(cs: Seq<Candidate>)
    ensures
        match without_repeats(cs) {
            Some(kept) => {
                &&& kept.len() <= cs.len()
                &&& forall|a: int, b: int|
                    0 <= a < b < kept.len() ==> differ(#[trigger] kept[a], #[trigger] kept[b])
                &&& cs.len() > 0 ==> kept.len() > 0 && kept[0] == cs[0]
            },
            None => true,
        },
{
    match text::all_normalized(card_texts(cs)) {
        Some(said) => {
            text::lemma_all_normalized(card_texts(cs));
            assert forall|i: int| 0 <= i < cs.len() implies text::normalized(
                (#[trigger] cs[i]).card.card_text_clean@,
            ) == Some(said[i]) by {
                assert(card_texts(cs)[i] == cs[i].card.card_text_clean@);
            }
            lemma_collapsed(cs, said, cs.len());
            lemma_collapsed_len(cs, said, cs.len());
        },
        None => {},
    }
}

proof fn lemma_collapsed_len(cs: Seq<Candidate>, said: Seq<Seq<char>>, n: nat)
    ensures
        collapsed(cs, said, n).len() <= n,
        n > 0 ==> collapsed(cs, said, n).len() > 0 && collapsed(cs, said, n)[0] == cs[0],
    decreases n,
{
    if n > 0 {
        lemma_collapsed_len(cs, said, (n - 1) as nat);
        if n == 1 {
            assert(stays(cs, said, 0));
        }
    }
}

/// Ranking by the scores from the places of hits.
pub struct ByFusion;

impl RankBy<ByFusion> for Candidate {
    open spec fn may_precede(self, other: Self) -> bool {
        self.fused_score >= other.fused_score
    }

    proof fn total(a: Self, b: Self) {
    }

    proof fn transitive(a: Self, b: Self, c: Self) {
    }

    fn precedes(&self, other: &Self) -> (res: bool) {
        self.fused_score >= other.fused_score
    }
}

/// Ranking by the final scores; where they are equal by the number of hits, and where that is
/// equal too by the number of hits by terms.
pub struct ByRelevance;

impl RankBy<ByRelevance> for Candidate {
    open spec fn may_precede(self, other: Self) -> bool {
        self.rerank_score > other.rerank_score || self.rerank_score == other.rerank_score && (
        self.ranks@.len() > other.ranks@.len() || self.ranks@.len() == other.ranks@.len()
            && self.lexical_bonus >= other.lexical_bonus)
    }

    proof fn total(a: Self, b: Self) {
    }

    proof fn transitive(a: Self, b: Self, c: Self) {
    }

    fn precedes(&self, other: &Self) -> (res: bool) {
        self.rerank_score > other.rerank_score || self.rerank_score == other.rerank_score && (
        self.ranks.len() > other.ranks.len() || self.ranks.len() == other.ranks.len()
            && self.lexical_bonus >= other.lexical_bonus)
    }
}

/// The candidates to be ranked: the useful ones, best places first, without repeats, and no more
/// than are wanted. `None` where a text cannot be laid out.
pub open spec fn shortlisted(cs: Seq<Candidate>) -> Option<Seq<Candidate>> {
    match useful_only(cs) {
        None => None,
        Some(wanted) => match without_repeats(order::ranked::<ByFusion, Candidate>(wanted)) {
            None => None,
            Some(kept) => Some(order::first_n(kept, MAX_CANDIDATES as nat)),
        },
    }
}

/// Picks the candidates to be ranked.
pub fn shortlist(candidates: Vec<Candidate>) -> (res: Option<Vec<Candidate>>)
    ensures
        are_kept(res, shortlisted(candidates@)),
{
    match keep_useful(candidates) {
        None => None,
        Some(wanted) => {
            let ordered = order::rank::<ByFusion, Candidate>(wanted);
            match collapse_redundant_candidates(ordered) {
                None => None,
                Some(kept) => Some(order::cut(kept, MAX_CANDIDATES)),
            }
        },
    }
}

proof fn lemma_collapsed_ranked(cs: Seq<Candidate>, said: Seq<Seq<char>>, n: nat)
    requires
        n <= cs.len(),
        order::is_ranked::<ByFusion, Candidate>(cs),
    ensures
        forall|a: int|
            0 <= a < collapsed(cs, said, n).len() ==> stayed(
                cs,
                said,
                n,
                #[trigger] collapsed(cs, said, n)[a],
            ),
        forall|a: int, b: int|
            0 <= a < b < collapsed(cs, said, n).len() ==> (#[trigger] collapsed(
                cs,
                said,
                n,
            )[a]).fused_score >= (#[trigger] collapsed(cs, said, n)[b]).fused_score,
    decreases n,
{
    if n > 0 {
        let m = (n - 1) as nat;
        lemma_collapsed_ranked(cs, said, m);
        let front = collapsed(cs, said, m);
        let all = collapsed(cs, said, n);
        assert forall|a: int| 0 <= a < all.len() implies stayed(
            cs,
            said,
            n,
            #[trigger] all[a],
        ) by {
            if a < front.len() {
                assert(stayed(cs, said, m, front[a]));
            } else {
                assert(stays(cs, said, m as int));
            }
        }
        assert forall|a: int, b: int| 0 <= a < b < all.len() implies (
        #[trigger] all[a]).fused_score >= (#[trigger] all[b]).fused_score by {
            if b < front.len() {
                assert(front[a].fused_score >= front[b].fused_score);
            } else {
                assert(stayed(cs, said, m, front[a]));
                let i = choose|i: int|
                    0 <= i < m && #[trigger] stays(cs, said, i) && front[a] == cs[i];
                assert(RankBy::<ByFusion>::may_precede(cs[i], cs[m as int]));
            }
        }
    }
}

/// The short list is not too long; no two of its candidates are of one note or say the same; and
/// none has a better score from the places of its hits than one before it.
pub proof fn law_shortlisted(cs: Seq<Candidate>)
    ensures
        match shortlisted(cs) {
            Some(short) => {
                &&& short.len() <= MAX_CANDIDATES
                &&& forall|a: int, b: int|
                    0 <= a < b < short.len() ==> differ(#[trigger] short[a], #[trigger] short[b])
                &&& forall|a: int, b: int|
                    0 <= a < b < short.len() ==> (#[trigger] short[a]).fused_score >= (
                    #[trigger] short[b]).fused_score
            },
            None => true,
        },
{
    match useful_only(cs) {
        Some(wanted) => {
            let ordered = order::ranked::<ByFusion, Candidate>(wanted);
            order::law_ranked::<ByFusion, Candidate>(wanted);
            law_without_repeats(ordered);
            match text::all_normalized(card_texts(ordered)) {
                Some(said) => {
                    lemma_collapsed_ranked(ordered, said, ordered.len());
                },
                None => {},
            }
        },
        None => {},
    }
}

proof fn lemma_useful_only_part(cs: Seq<Candidate>, apart: spec_fn(Candidate, Candidate) -> bool)
    requires
        order::pairwise(cs, apart),
    ensures
        match useful_only(cs) {
            Some(part) => {
                &&& order::pairwise(part, apart)
                &&& forall|i: int| 0 <= i < part.len() ==> cs.contains(#[trigger] part[i])
            },
            None => true,
        },
    decreases cs.len(),
{
    if cs.len() > 0 {
        let fewer = cs.drop_last();
        assert(order::pairwise(fewer, apart)) by {
            assert forall|i: int, j: int| 0 <= i < j < fewer.len() implies apart(
                #[trigger] fewer[i],
                #[trigger] fewer[j],
            ) by {
                assert(apart(cs[i], cs[j]));
            }
        }
        lemma_useful_only_part(fewer, apart);
        match (useful_only(fewer), useful_only(cs)) {
            (Some(front), Some(part)) => {
                assert forall|i: int| 0 <= i < part.len() implies cs.contains(
                    #[trigger] part[i],
                ) by {
                    if i < front.len() {
                        let k = choose|k: int| 0 <= k < fewer.len() && fewer[k] == front[i];
                        assert(fewer.contains(front[i]));
                        assert(cs[k] == part[i]);
                    } else {
                        assert(cs[cs.len() - 1] == part[i]);
                    }
                }
                assert forall|i: int, j: int| 0 <= i < j < part.len() implies apart(
                    #[trigger] part[i],
                    #[trigger] part[j],
                ) by {
                    if j < front.len() {
                        assert(apart(front[i], front[j]));
                    } else {
                        assert(fewer.contains(front[i]));
                        let k = choose|k: int| 0 <= k < fewer.len() && fewer[k] == front[i];
                        assert(apart(cs[k], cs[cs.len() - 1]));
                    }
                }
            },
            _ => {},
        }
    }
}

proof fn lemma_collapsed_part(
    cs: Seq<Candidate>,
    said: Seq<Seq<char>>,
    n: nat,
    apart: spec_fn(Candidate, Candidate) -> bool,
)
    requires
        n <= cs.len(),
        order::pairwise(cs, apart),
    ensures
        order::pairwise(collapsed(cs, said, n), apart),
        forall|a: int|
            0 <= a < collapsed(cs, said, n).len() ==> stayed(
                cs,
                said,
                n,
                #[trigger] collapsed(cs, said, n)[a],
            ),
    decreases n,
{
    if n > 0 {
        let m = (n - 1) as nat;
        lemma_collapsed_part(cs, said, m, apart);
        let front = collapsed(cs, said, m);
        let all = collapsed(cs, said, n);
        assert forall|a: int| 0 <= a < all.len() implies stayed(
            cs,
            said,
            n,
            #[trigger] all[a],
        ) by {
            if a < front.len() {
                assert(stayed(cs, said, m, front[a]));
            } else {
                assert(stays(cs, said, m as int));
            }
        }
        assert forall|a: int, b: int| 0 <= a < b < all.len() implies apart(
            #[trigger] all[a],
            #[trigger] all[b],
        ) by {
            if b < front.len() {
                assert(apart(front[a], front[b]));
            } else {
                assert(stayed(cs, said, m, front[a]));
                let i = choose|i: int|
                    0 <= i < m && #[trigger] stays(cs, said, i) && front[a] == cs[i];
                assert(apart(cs[i], cs[m as int]));
            }
        }
    }
}

/// The short list holds candidates of the list that it came from and no others, and what sets any
/// two of those apart sets any two of its own apart.
pub proof fn law_shortlist_is_drawn(
    cs: Seq<Candidate>,
    apart: spec_fn(Candidate, Candidate) -> bool,
)
    requires
        order::sets_apart(apart),
        order::pairwise(cs, apart),
    ensures
        match shortlisted(cs) {
            Some(short) => {
                &&& order::pairwise(short, apart)
                &&& forall|i: int| 0 <= i < short.len() ==> cs.contains(#[trigger] short[i])
            },
            None => true,
        },
{
    lemma_useful_only_part(cs, apart);
    match useful_only(cs) {
        Some(wanted) => {
            let ordered = order::ranked::<ByFusion, Candidate>(wanted);
            order::law_ranked_keeps_apart::<ByFusion, Candidate>(wanted, apart);
            match text::all_normalized(card_texts(ordered)) {
                Some(said) => {
                    let kept = collapsed(ordered, said, ordered.len());
                    lemma_collapsed_part(ordered, said, ordered.len(), apart);
                    let short = order::first_n(kept, MAX_CANDIDATES as nat);
                    assert forall|i: int| 0 <= i < short.len() implies cs.contains(
                        #[trigger] short[i],
                    ) by {
                        assert(short[i] == kept[i]);
                        assert(stayed(ordered, said, ordered.len(), kept[i]));
                        let k = choose|k: int|
                            0 <= k < ordered.len() && #[trigger] stays(ordered, said, k) && kept[i]
                                == ordered[k];
                        assert(wanted.contains(ordered[k]));
                        let m = choose|m: int| 0 <= m < wanted.len() && wanted[m] == ordered[k];
                        assert(cs.contains(wanted[m]));
                    }
                    assert forall|i: int, j: int| 0 <= i < j < short.len() implies apart(
                        #[trigger] short[i],
                        #[trigger] short[j],
                    ) by {
                        assert(apart(kept[i], kept[j]));
                    }
                },
                None => {},
            }
        },
        None => {},
    }
}

} // verus!
