//! Where the results of a search come from: the answers that it was given.

use vstd::prelude::*;
use crate::candidates;
use crate::candidates::{Candidate, FoundView, HitView};
use crate::evidence;
use crate::evidence::Place;
use crate::external::DenseHit;
use crate::models::{CardRecord, GroupedResultRecord, ScoreKey, SearchRecord};
use crate::query;
use crate::search;
use crate::search::{Answer, Ask, SearchRun};

verus! {

/// Whether an answer gave a card.
pub open spec fn gave_card(answer: Answer, card: CardRecord) -> bool {
    answer matches Answer::Card(Ok(Some(given))) && given == card
}

/// Whether some answer gave a card.
pub open spec fn heard_card(heard: Seq<Answer>, card: CardRecord) -> bool {
    exists|i: int| 0 <= i < heard.len() && gave_card(#[trigger] heard[i], card)
}

/// Whether an answer gave a hit by nearness, with its score and its text.
pub open spec fn gave_near(answer: Answer, score: ScoreKey, snippet: Seq<char>) -> bool {
    answer matches Answer::Dense(Ok(hits)) && exists|k: int|
        0 <= k < hits@.len() && (#[trigger] hits@[k]).score == score && hits@[k].snippet@
            == snippet
}

/// Whether some answer gave a hit by nearness, with its score and its text.
pub open spec fn heard_near(heard: Seq<Answer>, score: ScoreKey, snippet: Seq<char>) -> bool {
    exists|i: int| 0 <= i < heard.len() && gave_near(#[trigger] heard[i], score, snippet)
}

/// Whether a hit is one that answers gave. A hit by terms brings the text of its card, one by
/// nearness the text of the chunk that lies near.
pub open spec fn hit_was_heard(h: HitView, by_terms: bool, heard: Seq<Answer>) -> bool {
    &&& h.lexical == by_terms
    &&& heard_card(heard, h.card)
    &&& by_terms ==> h.snippet == h.card.card_text_clean@ && search::heard_hit(
        heard,
        h.key,
        h.score,
    )
    &&& !by_terms ==> h.key == h.card.card_id && heard_near(heard, h.score, h.snippet)
}

/// Whether all hits are ones that answers gave.
pub open spec fn hits_were_heard(found: Seq<FoundView>, heard: Seq<Answer>) -> bool {
    forall|p: Place| #[trigger]
        evidence::hit_at(found, p) is Some ==> hit_was_heard(
            evidence::hit_at(found, p)->Some_0,
            p.by_terms,
            heard,
        )
}

/// The chunks that hits are gathered for.
pub open spec fn chunks_of(found: Seq<FoundView>) -> Seq<query::QueryView> {
    Seq::new(found.len(), |i: int| found[i].chunk)
}

/// Whether an answer gave the query that was cut into these chunks.
pub open spec fn gave_query(answer: Answer, chunks: Seq<query::QueryView>) -> bool {
    match answer {
        Answer::Search(Ok(Some(record))) => record.material_id is None && query::text_query(
            record.query_text@,
        ) == Some(chunks),
        Answer::Material(Ok(Some(material))) => query::material_query(material) == Some(chunks),
        _ => false,
    }
}

/// Whether some answer gave the query that was cut into these chunks.
pub open spec fn heard_query(heard: Seq<Answer>, chunks: Seq<query::QueryView>) -> bool {
    exists|i: int| 0 <= i < heard.len() && gave_query(#[trigger] heard[i], chunks)
}

/// Whether hits for a query that was heard are ones that answers gave.
pub open spec fn accounted(found: Seq<FoundView>, heard: Seq<Answer>) -> bool {
    hits_were_heard(found, heard) && heard_query(heard, chunks_of(found))
}

/// Whether the candidates on a short list are those of hits that are accounted for.
pub open spec fn drawn(
    short: Seq<Candidate>,
    found: Seq<FoundView>,
    cs: Seq<Candidate>,
    fusion: Seq<ScoreKey>,
    heard: Seq<Answer>,
) -> bool {
    &&& accounted(found, heard)
    &&& candidates::gathered(found) == Some(candidates::candidate_views(cs))
    &&& candidates::shortlisted(candidates::fused(cs, fusion)) == Some(short)
}

/// Whether a search has come to where it is on what was heard.
pub open spec fn true_to(run: SearchRun, heard: Seq<Answer>) -> bool {
    match run {
        SearchRun::Embedding(g) => accounted(g@.found, heard),
        SearchRun::Lexical(g) => accounted(g@.found, heard),
        SearchRun::LexicalCards(g, hits) => accounted(g@.found, heard) && forall|k: int|
            0 <= k < hits@.len() ==> search::heard_hit(
                heard,
                (#[trigger] hits@[k]).0,
                hits@[k].1,
            ),
        SearchRun::Dense(g) => accounted(g@.found, heard),
        SearchRun::DenseCards(g, hits) => accounted(g@.found, heard) && forall|k: int|
            0 <= k < hits@.len() ==> heard_near(
                heard,
                (#[trigger] hits@[k]).score,
                hits@[k].snippet@,
            ),
        SearchRun::Fusing(_, _, cs) => exists|found: Seq<FoundView>| #[trigger]
            accounted(found, heard) && candidates::gathered(found) == Some(
                candidates::candidate_views(cs@),
            ),
        SearchRun::Reranking(_, short) => exists|
            found: Seq<FoundView>,
            cs: Seq<Candidate>,
            fusion: Seq<ScoreKey>,
        | #[trigger] drawn(short@, found, cs, fusion, heard),
        _ => true,
    }
}

proof fn lemma_card_heard(heard: Seq<Answer>, answer: Answer, card: CardRecord)
    ensures
        heard_card(heard, card) || gave_card(answer, card) ==> heard_card(heard.push(answer), card),
{
    let more = heard.push(answer);
    if heard_card(heard, card) {
        let i = choose|i: int| 0 <= i < heard.len() && gave_card(#[trigger] heard[i], card);
        assert(gave_card(more[i], card));
    }
    if gave_card(answer, card) {
        assert(gave_card(more[heard.len() as int], card));
    }
}

proof fn lemma_near_heard(
    heard: Seq<Answer>,
    answer: Answer,
    score: ScoreKey,
    snippet: Seq<char>,
)
    ensures
        heard_near(heard, score, snippet) || gave_near(answer, score, snippet) ==> heard_near(
            heard.push(answer),
            score,
            snippet,
        ),
{
    let more = heard.push(answer);
    if heard_near(heard, score, snippet) {
        let i = choose|i: int|
            0 <= i < heard.len() && gave_near(#[trigger] heard[i], score, snippet);
        assert(gave_near(more[i], score, snippet));
    }
    if gave_near(answer, score, snippet) {
        assert(gave_near(more[heard.len() as int], score, snippet));
    }
}

proof fn lemma_query_heard(heard: Seq<Answer>, answer: Answer, chunks: Seq<query::QueryView>)
    ensures
        heard_query(heard, chunks) || gave_query(answer, chunks) ==> heard_query(
            heard.push(answer),
            chunks,
        ),
{
    let more = heard.push(answer);
    if heard_query(heard, chunks) {
        let i = choose|i: int| 0 <= i < heard.len() && gave_query(#[trigger] heard[i], chunks);
        assert(gave_query(more[i], chunks));
    }
    if gave_query(answer, chunks) {
        assert(gave_query(more[heard.len() as int], chunks));
    }
}

proof fn lemma_accounted_on(found: Seq<FoundView>, heard: Seq<Answer>, answer: Answer)
    requires
        accounted(found, heard),
    ensures
        accounted(found, heard.push(answer)),
{
    let more = heard.push(answer);
    lemma_query_heard(heard, answer, chunks_of(found));
    assert forall|p: Place| #[trigger] evidence::hit_at(found, p) is Some implies hit_was_heard(
        evidence::hit_at(found, p)->Some_0,
        p.by_terms,
        more,
    ) by {
        let h = evidence::hit_at(found, p)->Some_0;
        assert(hit_was_heard(h, p.by_terms, heard));
        lemma_card_heard(heard, answer, h.card);
        lemma_near_heard(heard, answer, h.score, h.snippet);
        search::lemma_still_heard(heard, answer, h.key, h.score);
    }
}

/// One hit more that was heard leaves the hits accounted for.
proof fn lemma_accounted_one_more(
    found: Seq<FoundView>,
    more: Seq<FoundView>,
    new: Place,
    heard: Seq<Answer>,
)
    requires
        accounted(found, heard),
        more.len() == found.len(),
        forall|i: int| 0 <= i < found.len() ==> (#[trigger] more[i]).chunk == found[i].chunk,
        forall|p: Place| p != new ==> #[trigger] evidence::hit_at(more, p) == evidence::hit_at(
            found,
            p,
        ),
        evidence::hit_at(more, new) matches Some(h) ==> hit_was_heard(h, new.by_terms, heard),
    ensures
        accounted(more, heard),
{
    assert(chunks_of(more) =~= chunks_of(found));
    assert forall|p: Place| #[trigger] evidence::hit_at(more, p) is Some implies hit_was_heard(
        evidence::hit_at(more, p)->Some_0,
        p.by_terms,
        heard,
    ) by {
        if p != new {
            assert(evidence::hit_at(found, p) is Some);
        }
    }
}

proof fn lemma_unfound_accounted(
    chunks: Seq<query::QueryView>,
    heard: Seq<Answer>,
    answer: Answer,
)
    requires
        gave_query(answer, chunks),
    ensures
        accounted(search::unfound(chunks), heard.push(answer)),
{
    let found = search::unfound(chunks);
    assert(chunks_of(found) =~= chunks);
    lemma_query_heard(heard, answer, chunks);
    assert forall|p: Place| #[trigger] evidence::hit_at(found, p) is Some implies false by {}
}

proof fn lemma_kept_apart(found: Seq<FoundView>, heard: Seq<Answer>)
    requires
        accounted(found, heard),
    ensures
        evidence::kept_apart(found),
{
    assert forall|p: Place| #[trigger] evidence::hit_at(found, p) is Some implies evidence::hit_at(
        found,
        p,
    )->Some_0.lexical == p.by_terms by {
        assert(hit_was_heard(evidence::hit_at(found, p)->Some_0, p.by_terms, heard));
    }
}

/// Whether results are those of hits that are accounted for.
pub open spec fn results_are_from(
    results: Seq<GroupedResultRecord>,
    search_id: i64,
    heard: Seq<Answer>,
    found: Seq<FoundView>,
    cs: Seq<Candidate>,
    fusion: Seq<ScoreKey>,
    short: Seq<Candidate>,
    scores: Option<Seq<(usize, ScoreKey)>>,
) -> bool {
    &&& drawn(short, found, cs, fusion, heard)
    &&& results.len() == short.len()
    &&& forall|i: int|
        0 <= i < results.len() ==> evidence::result_has_evidence(
            #[trigger] results[i],
            search_id,
            found,
            cs,
            fusion,
            short,
            scores,
        )
}

proof fn lemma_next_accounted(
    res: (SearchRun, Ask),
    g: search::GatheringView,
    heard: Seq<Answer>,
)
    requires
        accounted(g.found, heard),
        search::asks_lexical(res, g),
    ensures
        true_to(res.0, heard),
        !(res.1 is Save),
{
    if !(0 <= g.at < g.found.len()) {
        if let SearchRun::Fusing(_, _, cs) = res.0 {
            assert(accounted(g.found, heard) && candidates::gathered(g.found) == Some(
                candidates::candidate_views(cs@),
            ));
        }
    }
}

proof fn lemma_dense_next_accounted(
    res: (SearchRun, Ask),
    g: search::GatheringView,
    heard: Seq<Answer>,
)
    requires
        accounted(g.found, heard),
        search::asks_dense(res, g),
    ensures
        true_to(res.0, heard),
        !(res.1 is Save),
{
    if g.at >= g.embedded {
        lemma_next_accounted(res, search::GatheringView { at: g.at + 1, ..g }, heard);
    }
}

proof fn lemma_step_true(
    res: (SearchRun, Ask),
    run: SearchRun,
    strategy: Seq<char>,
    answer: Answer,
    heard: Seq<Answer>,
)
    requires
        run.wf(),
        search::is_step(res, run, strategy, answer),
        true_to(run, heard),
    ensures
        true_to(res.0, heard.push(answer)),
        match res.1 {
            Ask::Save(id, results, _) => exists|
                found: Seq<FoundView>,
                cs: Seq<Candidate>,
                fusion: Seq<ScoreKey>,
                short: Seq<Candidate>,
                scores: Option<Seq<(usize, ScoreKey)>>,
            | #[trigger]
                results_are_from(results@, id, heard, found, cs, fusion, short, scores),
            _ => true,
        },
{
    let more = heard.push(answer);
    match (run, answer) {
        (SearchRun::Opening(_), Answer::Search(Ok(Some(record)))) => {
            if record.material_id is None {
                if let Some(chunks) = query::text_query(record.query_text@) {
                    lemma_unfound_accounted(chunks, heard, answer);
                }
            }
        },
        (SearchRun::Reading(..), Answer::Material(Ok(Some(material)))) => {
            if let Some(chunks) = query::material_query(material) {
                lemma_unfound_accounted(chunks, heard, answer);
            }
        },
        (SearchRun::Embedding(g), Answer::Embedded(count)) => {
            lemma_accounted_on(g@.found, heard, answer);
            let next = search::GatheringView {
                embedded: match count {
                    Ok(n) => n,
                    Err(_) => 0,
                },
                ..g@
            };
            lemma_next_accounted(res, next, more);
        },
        (SearchRun::Lexical(g), Answer::Lexical(hits)) => {
            lemma_accounted_on(g@.found, heard, answer);
            let given = match hits {
                Ok(v) => v@,
                Err(_) => Seq::empty(),
            };
            assert forall|k: int| 0 <= k < given.len() implies search::heard_hit(
                more,
                (#[trigger] given[k]).0,
                given[k].1,
            ) by {
                assert(given.contains(given[k]));
                search::lemma_still_heard(heard, answer, given[k].0, given[k].1);
            }
            if g@.found[g@.at].lexical.len() >= given.len() {
                lemma_dense_next_accounted(res, g@, more);
            }
        },
        (SearchRun::Dense(g), Answer::Dense(hits)) => {
            lemma_accounted_on(g@.found, heard, answer);
            lemma_dense_answer_true(res, g@, heard, answer);
        },
        (SearchRun::LexicalCards(g, hits), Answer::Card(Ok(card))) => {
            lemma_accounted_on(g@.found, heard, answer);
            assert forall|k: int| 0 <= k < hits@.len() implies search::heard_hit(
                more,
                (#[trigger] hits@[k]).0,
                hits@[k].1,
            ) by {
                search::lemma_still_heard(heard, answer, hits@[k].0, hits@[k].1);
            }
            lemma_lexical_card_true(res, g, hits, card, heard, answer);
        },
        (SearchRun::DenseCards(g, hits), Answer::Card(Ok(card))) => {
            lemma_accounted_on(g@.found, heard, answer);
            assert forall|k: int| 0 <= k < hits@.len() implies heard_near(
                more,
                (#[trigger] hits@[k]).score,
                hits@[k].snippet@,
            ) by {
                lemma_near_heard(heard, answer, hits@[k].score, hits@[k].snippet@);
            }
            lemma_dense_card_true(res, g, hits, card, heard, answer);
        },
        (SearchRun::Fusing(_, _, cs), Answer::Fused(scores)) => {
            let found = choose|found: Seq<FoundView>| #[trigger]
                accounted(found, heard) && candidates::gathered(found) == Some(
                    candidates::candidate_views(cs@),
                );
            lemma_accounted_on(found, heard, answer);
            if let Some(short) = candidates::shortlisted(candidates::fused(cs@, scores@)) {
                assert(drawn(short, found, cs@, scores@, more));
            }
        },
        (SearchRun::Reranking(search_id, short), Answer::Reranked(ranking)) => {
            let (found, cs, fusion) = choose|
                found: Seq<FoundView>,
                cs: Seq<Candidate>,
                fusion: Seq<ScoreKey>,
            | #[trigger] drawn(short@, found, cs, fusion, heard);
            let scores = match ranking {
                Ok(given) => Some(given@),
                Err(_) => None,
            };
            lemma_kept_apart(found, heard);
            evidence::law_results_are_made_of_hits(search_id, found, cs, fusion, short@, scores);
            assert(results_are_from(
                search::final_results(search_id, short@, scores),
                search_id,
                heard,
                found,
                cs,
                fusion,
                short@,
                scores,
            ));
        },
        _ => {},
    }
}

proof fn lemma_dense_answer_true(
    res: (SearchRun, Ask),
    g: search::GatheringView,
    heard: Seq<Answer>,
    answer: Answer,
)
    requires
        answer is Dense,
        accounted(g.found, heard.push(answer)),
        search::asks_dense_card(
            res,
            g,
            match answer->Dense_0 {
                Ok(v) => crate::external::dense_views(v@),
                Err(_) => Seq::empty(),
            },
        ),
    ensures
        true_to(res.0, heard.push(answer)),
        !(res.1 is Save),
{
    let more = heard.push(answer);
    let hits = match answer->Dense_0 {
        Ok(v) => crate::external::dense_views(v@),
        Err(_) => Seq::empty(),
    };
    if g.found[g.at].dense.len() < hits.len() {
        if let SearchRun::DenseCards(now, rest) = res.0 {
            let v = answer->Dense_0->Ok_0;
            assert forall|k: int| 0 <= k < rest@.len() implies heard_near(
                more,
                (#[trigger] rest@[k]).score,
                rest@[k].snippet@,
            ) by {
                assert(crate::external::dense_views(rest@)[k] == hits[k]);
                assert(v@[k]@ == hits[k]);
                assert(v@[k].score == rest@[k].score && v@[k].snippet@ == rest@[k].snippet@);
                assert(gave_near(answer, rest@[k].score, rest@[k].snippet@));
                lemma_near_heard(heard, answer, rest@[k].score, rest@[k].snippet@);
            }
        }
    } else {
        lemma_next_accounted(res, search::GatheringView { at: g.at + 1, ..g }, more);
    }
}

proof fn lemma_lexical_card_true(
    res: (SearchRun, Ask),
    g: search::Gathering,
    hits: Vec<(i64, ScoreKey)>,
    card: Option<CardRecord>,
    heard: Seq<Answer>,
    answer: Answer,
)
    requires
        answer == Answer::Card(Ok(card)),
        SearchRun::LexicalCards(g, hits).wf(),
        accounted(g@.found, heard.push(answer)),
        forall|k: int|
            0 <= k < hits@.len() ==> search::heard_hit(
                heard.push(answer),
                (#[trigger] hits@[k]).0,
                hits@[k].1,
            ),
        search::after_lexical_card(res, g@, hits@, Ok(card)),
    ensures
        true_to(res.0, heard.push(answer)),
        !(res.1 is Save),
{
    let more = heard.push(answer);
    let at = g@.at;
    assert(g.found@[at]@ == g@.found[at]);
    let next = g@.found[at].lexical.len() as int;
    let (id, score) = hits@[next];
    let hit = match card {
        Some(c) => Some(candidates::lexical_view(id, score, c)),
        None => None,
    };
    let after = search::with_lexical(g@, hit);
    let new = Place { chunk: at, by_terms: true, at: next };
    assert forall|p: Place| p != new implies #[trigger] evidence::hit_at(after.found, p)
        == evidence::hit_at(g@.found, p) by {
        if p.chunk == at && p.by_terms {
            assert(p.at != next);
        }
    }
    if let Some(c) = card {
        assert(gave_card(answer, c));
        lemma_card_heard(heard, answer, c);
        assert(search::heard_hit(more, hits@[next].0, hits@[next].1));
    }
    lemma_accounted_one_more(g@.found, after.found, new, more);
    if after.found[at].lexical.len() >= hits@.len() {
        lemma_dense_next_accounted(res, after, more);
    }
}

proof fn lemma_dense_card_true(
    res: (SearchRun, Ask),
    g: search::Gathering,
    hits: Vec<DenseHit>,
    card: Option<CardRecord>,
    heard: Seq<Answer>,
    answer: Answer,
)
    requires
        answer == Answer::Card(Ok(card)),
        SearchRun::DenseCards(g, hits).wf(),
        accounted(g@.found, heard.push(answer)),
        forall|k: int|
            0 <= k < hits@.len() ==> heard_near(
                heard.push(answer),
                (#[trigger] hits@[k]).score,
                hits@[k].snippet@,
            ),
        search::after_dense_card(res, g@, crate::external::dense_views(hits@), Ok(card)),
    ensures
        true_to(res.0, heard.push(answer)),
        !(res.1 is Save),
{
    let more = heard.push(answer);
    let at = g@.at;
    assert(g.found@[at]@ == g@.found[at]);
    let next = g@.found[at].dense.len() as int;
    let views = crate::external::dense_views(hits@);
    assert(views[next] == hits@[next]@);
    let hit = match card {
        Some(c) => Some(candidates::dense_view(views[next].score, views[next].snippet, c)),
        None => None,
    };
    let after = search::with_dense(g@, hit);
    let new = Place { chunk: at, by_terms: false, at: next };
    assert forall|p: Place| p != new implies #[trigger] evidence::hit_at(after.found, p)
        == evidence::hit_at(g@.found, p) by {
        if p.chunk == at && !p.by_terms {
            assert(p.at != next);
        }
    }
    if let Some(c) = card {
        assert(gave_card(answer, c));
        lemma_card_heard(heard, answer, c);
        assert(heard_near(more, hits@[next].score, hits@[next].snippet@));
    }
    lemma_accounted_one_more(g@.found, after.found, new, more);
    if after.found[at].dense.len() >= views.len() {
        lemma_next_accounted(res, search::GatheringView { at: at + 1, ..after }, more);
    } else if let SearchRun::DenseCards(now, rest) = res.0 {
        assert forall|k: int| 0 <= k < rest@.len() implies heard_near(
            more,
            (#[trigger] rest@[k]).score,
            rest@[k].snippet@,
        ) by {
            assert(crate::external::dense_views(rest@)[k] == views[k]);
            assert(hits@[k]@ == views[k]);
            assert(heard_near(more, hits@[k].score, hits@[k].snippet@));
        }
    }
}

proof fn lemma_goes_true(
    steps: Seq<(SearchRun, Ask)>,
    search_id: i64,
    strategy: Seq<char>,
    answers: Seq<Answer>,
    n: int,
)
    requires
        search::goes_through(steps, search_id, strategy, answers),
        0 <= n <= answers.len(),
    ensures
        true_to(steps[n].0, answers.take(n)),
    decreases n,
{
    if n > 0 {
        lemma_goes_true(steps, search_id, strategy, answers, n - 1);
        assert(answers.take(n) =~= answers.take(n - 1).push(answers[n - 1]));
        assert(search::is_step(steps[n - 1 + 1], steps[n - 1].0, strategy, answers[n - 1]));
        lemma_step_true(
            steps[n],
            steps[n - 1].0,
            strategy,
            answers[n - 1],
            answers.take(n - 1),
        );
    }
}

/// The results that a search hands over come from the answers that it was given, and from nothing
/// else: each of them is made of all hits for its card, the hits are ones that answers gave for the
/// chunks of the query that an answer gave, the cards are ones that answers gave, and the text that
/// is shown is the text of such a card or of a chunk that lies near the query.
pub proof fn law_results_come_from_answers(
    steps: Seq<(SearchRun, Ask)>,
    search_id: i64,
    strategy: Seq<char>,
    answers: Seq<Answer>,
    n: int,
)
    requires
        search::goes_through(steps, search_id, strategy, answers),
        0 <= n < steps.len(),
    ensures
        match steps[n].1 {
            Ask::Save(id, results, _) => exists|
                found: Seq<FoundView>,
                cs: Seq<Candidate>,
                fusion: Seq<ScoreKey>,
                short: Seq<Candidate>,
                scores: Option<Seq<(usize, ScoreKey)>>,
            | #[trigger]
                results_are_from(
                    results@,
                    id,
                    answers.take(n - 1),
                    found,
                    cs,
                    fusion,
                    short,
                    scores,
                ),
            _ => true,
        },
{
    if n > 0 {
        lemma_goes_true(steps, search_id, strategy, answers, n - 1);
        assert(search::is_step(steps[n - 1 + 1], steps[n - 1].0, strategy, answers[n - 1]));
        lemma_step_true(
            steps[n],
            steps[n - 1].0,
            strategy,
            answers[n - 1],
            answers.take(n - 1),
        );
    }
}


/// What is known of a search whose hits are being gathered.
pub open spec fn gathering_of(run: SearchRun) -> Option<search::GatheringView> {
    match run {
        SearchRun::Embedding(g) => Some(g@),
        SearchRun::Lexical(g) => Some(g@),
        SearchRun::LexicalCards(g, _) => Some(g@),
        SearchRun::Dense(g) => Some(g@),
        SearchRun::DenseCards(g, _) => Some(g@),
        _ => None,
    }
}

/// Whether a search is made as its record says: with its material, and in its deck.
pub open spec fn keeps_to(run: SearchRun, record: SearchRecord) -> bool {
    match run {
        SearchRun::Reading(_, deck, material_id) => deck == record.selected_deck_import_id
            && record.material_id == Some(material_id),
        _ => gathering_of(run) matches Some(g) ==> g.deck == record.selected_deck_import_id,
    }
}

/// Whether what a search asks for is what its record says: its material; and hits in its deck, or
/// in all where it has none, at most 20 by terms and 40 by nearness for a chunk.
pub open spec fn asks_as(ask: Ask, record: SearchRecord) -> bool {
    match ask {
        Ask::Material(id) => record.material_id == Some(id),
        Ask::Lexical(_, deck, limit) => deck == record.selected_deck_import_id && limit == 20,
        Ask::Dense(_, deck, limit) => deck == record.selected_deck_import_id && limit == 40,
        _ => true,
    }
}

proof fn lemma_keeps_to(
    res: (SearchRun, Ask),
    run: SearchRun,
    strategy: Seq<char>,
    answer: Answer,
    record: SearchRecord,
)
    requires
        run.wf(),
        search::is_step(res, run, strategy, answer),
        !(run is Opening),
        keeps_to(run, record),
    ensures
        keeps_to(res.0, record),
        asks_as(res.1, record),
        !(res.0 is Opening),
{
}

proof fn lemma_goes_keeping_to(
    steps: Seq<(SearchRun, Ask)>,
    search_id: i64,
    strategy: Seq<char>,
    answers: Seq<Answer>,
    record: SearchRecord,
    n: int,
)
    requires
        search::goes_through(steps, search_id, strategy, answers),
        answers.len() > 0,
        answers[0] == Answer::Search(Ok(Some(record))),
        1 <= n < steps.len(),
    ensures
        keeps_to(steps[n].0, record),
        asks_as(steps[n].1, record),
        !(steps[n].0 is Opening),
    decreases n,
{
    assert(search::is_step(steps[n - 1 + 1], steps[n - 1].0, strategy, answers[n - 1]));
    if n > 1 {
        lemma_goes_keeping_to(steps, search_id, strategy, answers, record, n - 1);
        lemma_keeps_to(steps[n], steps[n - 1].0, strategy, answers[n - 1], record);
    }
}

/// A search asks for what its record says: for its material if it has one, and for hits in the deck
/// that it is limited to, or in all decks where it is not.
pub proof fn law_search_keeps_to_its_record(
    steps: Seq<(SearchRun, Ask)>,
    search_id: i64,
    strategy: Seq<char>,
    answers: Seq<Answer>,
    record: SearchRecord,
    n: int,
)
    requires
        search::goes_through(steps, search_id, strategy, answers),
        answers.len() > 0,
        answers[0] == Answer::Search(Ok(Some(record))),
        1 <= n < steps.len(),
    ensures
        asks_as(steps[n].1, record),
{
    lemma_goes_keeping_to(steps, search_id, strategy, answers, record, n);
}

/// The text that hits are asked for is that of the chunk whose turn it is, and so is the vector;
/// the card that is asked for is that of the next hit.
pub proof fn law_search_asks_for_its_chunk(
    res: (SearchRun, Ask),
    run: SearchRun,
    strategy: Seq<char>,
    answer: Answer,
)
    requires
        run.wf(),
        search::is_step(res, run, strategy, answer),
    ensures
        match (res.0, res.1) {
            (SearchRun::Lexical(g), Ask::Lexical(text, _, _)) => text@
                == g@.found[g@.at].chunk.text,
            (SearchRun::Dense(g), Ask::Dense(at, _, _)) => at == g@.at && at < g@.embedded,
            (SearchRun::LexicalCards(g, hits), Ask::Card(id)) => id
                == hits@[g@.found[g@.at].lexical.len() as int].0,
            (SearchRun::DenseCards(g, hits), Ask::Card(id)) => id
                == hits@[g@.found[g@.at].dense.len() as int].card_id,
            (SearchRun::Embedding(g), Ask::Embed(inputs)) => inputs@.len() == g@.found.len()
                && forall|i: int|
                0 <= i < inputs@.len() ==> (#[trigger] inputs@[i])@ == "query: "@
                    + g@.found[i].chunk.text,
            (_, Ask::Search(_)) => false,
            (_, Ask::Lexical(..)) => false,
            (_, Ask::Dense(..)) => false,
            (_, Ask::Card(_)) => false,
            (_, Ask::Embed(_)) => false,
            _ => true,
        },
{
    if let (SearchRun::Embedding(g), Ask::Embed(inputs)) = res {
        lemma_embeds_chunks(res, run, strategy, answer);
    }
    if let (SearchRun::DenseCards(g, hits), Ask::Card(id)) = res {
        let next = g@.found[g@.at].dense.len() as int;
        assert(crate::external::dense_views(hits@)[next] == hits@[next]@);
    }
}

proof fn lemma_embeds_chunks(
    res: (SearchRun, Ask),
    run: SearchRun,
    strategy: Seq<char>,
    answer: Answer,
)
    requires
        run.wf(),
        search::is_step(res, run, strategy, answer),
        res.0 is Embedding,
    ensures
        match (res.0, res.1) {
            (SearchRun::Embedding(g), Ask::Embed(inputs)) => inputs@.len() == g@.found.len()
                && forall|i: int|
                0 <= i < inputs@.len() ==> (#[trigger] inputs@[i])@ == "query: "@
                    + g@.found[i].chunk.text,
            _ => false,
        },
{
    if let (SearchRun::Embedding(g), Ask::Embed(inputs)) = res {
        let texts = crate::strings::texts(inputs@);
        let chunks = match (run, answer) {
            (SearchRun::Opening(_), Answer::Search(Ok(Some(record)))) => query::text_query(
                record.query_text@,
            )->Some_0,
            (SearchRun::Reading(..), Answer::Material(Ok(Some(material)))) => query::material_query(
                material,
            )->Some_0,
            _ => Seq::empty(),
        };
        assert(texts == query::embed_texts(chunks));
        assert(g@.found == search::unfound(chunks));
        assert(texts.len() == inputs@.len());
        assert forall|i: int| 0 <= i < inputs@.len() implies (#[trigger] inputs@[i])@ == "query: "@
            + g@.found[i].chunk.text by {
            assert(texts[i] == inputs@[i]@);
        }
    }
}

/// Hits are gathered for every chunk of a query in turn: a step stays with its chunk or goes on to
/// the next one, and hits are only counted together behind the last.
pub proof fn law_chunks_come_in_turn(
    res: (SearchRun, Ask),
    run: SearchRun,
    strategy: Seq<char>,
    answer: Answer,
)
    requires
        run.wf(),
        search::is_step(res, run, strategy, answer),
        gathering_of(run) is Some,
    ensures
        ({
            let g = gathering_of(run)->Some_0;
            &&& gathering_of(res.0) matches Some(next) ==> {
                &&& next.found.len() == g.found.len()
                &&& next.at == g.at || next.at == g.at + 1 && !(run is Embedding)
                &&& next.at == g.at + 1 ==> res.0 is Lexical
                &&& next.rerank_query == g.rerank_query
                &&& next.search_id == g.search_id
            }
            &&& res.0 is Fusing ==> (if run is Embedding {
                g.at >= g.found.len() || g.at < 0
            } else {
                g.at + 1 >= g.found.len()
            })
            &&& run is Embedding && 0 <= g.at < g.found.len() && answer is Embedded
                ==> res.0 is Lexical
        }),
{
}


/// Whether a step carries hits on: it gathers more of them, counts them together, or ends the
/// search because a text of theirs cannot be laid out.
pub open spec fn carries(res: (SearchRun, Ask), found: Seq<FoundView>) -> bool {
    match res.0 {
        SearchRun::Fusing(_, _, cs) => candidates::gathered(found) == Some(
            candidates::candidate_views(cs@),
        ),
        SearchRun::Over => candidates::gathered(found) is None,
        _ => gathering_of(res.0) matches Some(g) && g.found == found,
    }
}

/// Whether hits are those of before with one place more for a chunk, and all else as it was.
pub open spec fn one_place_more(
    more: Seq<FoundView>,
    found: Seq<FoundView>,
    at: int,
    by_terms: bool,
    hit: Option<HitView>,
) -> bool {
    &&& more.len() == found.len()
    &&& forall|i: int| 0 <= i < found.len() && i != at ==> #[trigger] more[i] == found[i]
    &&& more[at].chunk == found[at].chunk
    &&& more[at].lexical == if by_terms {
        found[at].lexical.push(hit)
    } else {
        found[at].lexical
    }
    &&& more[at].dense == if by_terms {
        found[at].dense
    } else {
        found[at].dense.push(hit)
    }
}

/// Every hit by terms is taken in, in turn: once its card came, there is one place more for the
/// chunk, with the card's id, the hit's score, the card and its text, or empty where the card is
/// gone; and as long as hits are left, the card of the next one is asked for.
pub proof fn law_hits_by_terms_are_taken_in(
    res: (SearchRun, Ask),
    g: search::Gathering,
    hits: Vec<(i64, ScoreKey)>,
    strategy: Seq<char>,
    card: Option<CardRecord>,
)
    requires
        SearchRun::LexicalCards(g, hits).wf(),
        search::is_step(res, SearchRun::LexicalCards(g, hits), strategy, Answer::Card(Ok(card))),
    ensures
        ({
            let next = g@.found[g@.at].lexical.len() as int;
            &&& exists|more: Seq<FoundView>, hit: Option<HitView>| #[trigger]
                one_place_more(more, g@.found, g@.at, true, hit) && carries(res, more) && match (
                card,
                hit,
            ) {
                    (Some(c), Some(h)) => h.key == hits@[next].0 && h.score == hits@[next].1
                        && h.card == c && h.snippet == c.card_text_clean@ && h.lexical,
                    (None, None) => true,
                    _ => false,
                }
            &&& next + 1 < hits@.len() ==> match res.0 {
                SearchRun::LexicalCards(_, rest) => rest@ == hits@,
                _ => false,
            }
        }),
{
    let next = g@.found[g@.at].lexical.len() as int;
    assert(g.found@[g@.at]@ == g@.found[g@.at]);
    let hit = match card {
        Some(c) => Some(candidates::lexical_view(hits@[next].0, hits@[next].1, c)),
        None => None,
    };
    let more = search::with_lexical(g@, hit).found;
    assert(one_place_more(more, g@.found, g@.at, true, hit));
    assert(carries(res, more));
}

/// Every hit by nearness is taken in, in turn: once its card came, there is one place more for the
/// chunk, with the card, the hit's score and the text of the chunk that lies near, or empty where
/// the card is gone; and as long as hits are left, the card of the next one is asked for.
pub proof fn law_hits_by_nearness_are_taken_in(
    res: (SearchRun, Ask),
    g: search::Gathering,
    hits: Vec<DenseHit>,
    strategy: Seq<char>,
    card: Option<CardRecord>,
)
    requires
        SearchRun::DenseCards(g, hits).wf(),
        search::is_step(res, SearchRun::DenseCards(g, hits), strategy, Answer::Card(Ok(card))),
    ensures
        ({
            let next = g@.found[g@.at].dense.len() as int;
            &&& exists|more: Seq<FoundView>, hit: Option<HitView>| #[trigger]
                one_place_more(more, g@.found, g@.at, false, hit) && carries(res, more) && match (
                card,
                hit,
            ) {
                    (Some(c), Some(h)) => h.key == c.card_id && h.score == hits@[next].score
                        && h.card == c && h.snippet == hits@[next].snippet@ && !h.lexical,
                    (None, None) => true,
                    _ => false,
                }
            &&& next + 1 < hits@.len() ==> match res.0 {
                SearchRun::DenseCards(_, rest) => crate::external::dense_views(rest@)
                    == crate::external::dense_views(hits@),
                _ => false,
            }
        }),
{
    let next = g@.found[g@.at].dense.len() as int;
    let views = crate::external::dense_views(hits@);
    assert(g.found@[g@.at]@ == g@.found[g@.at]);
    assert(views[next] == hits@[next]@);
    let hit = match card {
        Some(c) => Some(candidates::dense_view(views[next].score, views[next].snippet, c)),
        None => None,
    };
    let more = search::with_dense(g@, hit).found;
    assert(one_place_more(more, g@.found, g@.at, false, hit));
    assert(carries(res, more));
}

/// The hits that come for a chunk are all gone through: where any came, the card of the first is
/// asked for and all of them are kept; where none came, or a service failed, the search goes on with
/// the hits that it has.
pub proof fn law_hits_are_gone_through(
    res: (SearchRun, Ask),
    run: SearchRun,
    strategy: Seq<char>,
    answer: Answer,
)
    requires
        run.wf(),
        search::is_step(res, run, strategy, answer),
    ensures
        match (run, answer) {
            (SearchRun::Lexical(g), Answer::Lexical(Ok(hits))) => if g@.found[g@.at].lexical.len()
                < hits@.len() {
                res.0 matches SearchRun::LexicalCards(now, rest) && now@ == g@ && rest@ == hits@
            } else {
                carries(res, g@.found)
            },
            (SearchRun::Lexical(g), Answer::Lexical(Err(_))) => carries(res, g@.found),
            (SearchRun::Dense(g), Answer::Dense(Ok(hits))) => if g@.found[g@.at].dense.len()
                < hits@.len() {
                res.0 matches SearchRun::DenseCards(now, rest) && now@ == g@
                    && crate::external::dense_views(rest@) == crate::external::dense_views(hits@)
            } else {
                carries(res, g@.found)
            },
            (SearchRun::Dense(g), Answer::Dense(Err(_))) => carries(res, g@.found),
            (SearchRun::Embedding(g), Answer::Embedded(count)) => carries(res, g@.found) && (
            gathering_of(res.0) matches Some(next) ==> next.embedded == match count {
                Ok(n) => n,
                Err(_) => 0,
            }),
            _ => true,
        },
{
}

/// The results are handed over under the search's own id, one for each candidate that was ranked,
/// and a search with fewer than three has found little.
pub proof fn law_results_are_handed_over(
    res: (SearchRun, Ask),
    search_id: i64,
    short: Vec<Candidate>,
    strategy: Seq<char>,
    answer: Answer,
)
    requires
        search::is_step(res, SearchRun::Reranking(search_id, short), strategy, answer),
        answer is Reranked,
    ensures
        match res.1 {
            Ask::Save(id, results, low_coverage) => id == search_id && results@.len() == short@.len()
                && low_coverage == (results@.len() < 3),
            _ => false,
        },
{
    let scores = match answer->Reranked_0 {
        Ok(given) => Some(given@),
        Err(_) => None,
    };
    search::lemma_scored_keeps(short@, scores);
    crate::order::law_ranked::<candidates::ByRelevance, Candidate>(
        search::scored(short@, scores),
    );
}

/// Candidates are ranked by the texts that stand for them, in order: all against the summary of the
/// query where the strategy says so, and else each against the start of the chunk that it suits
/// best.
pub proof fn law_candidates_are_ranked_by_their_texts(
    request: search::RerankRequest,
    strategy: Seq<char>,
    summary: Seq<char>,
    cs: Seq<Candidate>,
    i: int,
)
    requires
        search::is_request(request, strategy, summary, cs),
        0 <= i < cs.len(),
    ensures
        match request {
            search::RerankRequest::Summary(query, texts) => query@ == summary && texts@.len()
                == cs.len() && texts@[i]@ == cs[i].best_snippet@ && crate::strings::lowered(strategy)
                == "summary"@,
            search::RerankRequest::Pairs(queries, texts) => queries@.len() == cs.len()
                && texts@.len() == cs.len() && texts@[i]@ == cs[i].best_snippet@
                && crate::asked::is_prefix(queries@[i]@, cs[i].best_query_text@, 1000)
                && crate::strings::lowered(strategy) != "summary"@,
        },
{
    match request {
        search::RerankRequest::Summary(_, texts) => {
            assert(crate::strings::texts(texts@)[i] == search::snippets(cs)[i]);
            assert(crate::strings::texts(texts@).len() == texts@.len());
        },
        search::RerankRequest::Pairs(queries, texts) => {
            assert(crate::strings::texts(texts@)[i] == search::snippets(cs)[i]);
            assert(crate::strings::texts(queries@)[i] == search::best_queries(cs)[i]);
            assert(crate::strings::texts(texts@).len() == texts@.len());
            assert(crate::strings::texts(queries@).len() == queries@.len());
            crate::asked::lemma_at_most_is_prefix(cs[i].best_query_text@, 1000);
        },
    }
}

/// Whether a search begins with the chunks of a query: without hits, at the first chunk, in a deck,
/// and with the summary of the chunks to rank against.
pub open spec fn begins_with(
    run: SearchRun,
    search_id: i64,
    deck: Option<i64>,
    query_text: Seq<char>,
    chunks: Seq<query::QueryView>,
) -> bool {
    match run {
        SearchRun::Embedding(g) => {
            &&& g@.search_id == search_id
            &&& g@.deck == deck
            &&& g@.at == 0
            &&& g@.found.len() == chunks.len()
            &&& forall|i: int|
                0 <= i < chunks.len() ==> (#[trigger] g@.found[i]).chunk == chunks[i]
                    && g@.found[i].lexical.len() == 0 && g@.found[i].dense.len() == 0
            &&& chunks.len() > 0 ==> crate::asked::is_summary(g@.rerank_query, chunks)
            &&& chunks.len() == 0 ==> crate::asked::is_prefix(g@.rerank_query, query_text, 4000)
        },
        _ => false,
    }
}

/// A search begins with the chunks of its own text, or of its material where it has one; one that is
/// not there, or whose text cannot be laid out, fails.
pub proof fn law_search_begins_with_its_query(
    res: (SearchRun, Ask),
    run: SearchRun,
    strategy: Seq<char>,
    answer: Answer,
)
    requires
        search::is_step(res, run, strategy, answer),
    ensures
        match (run, answer) {
            (SearchRun::Opening(search_id), Answer::Search(Ok(Some(record)))) => match (
                record.material_id,
                query::text_query(record.query_text@),
            ) {
                (Some(id), _) => res.1 == Ask::Material(id),
                (None, Some(chunks)) => begins_with(
                    res.0,
                    search_id,
                    record.selected_deck_import_id,
                    record.query_text@,
                    chunks,
                ),
                (None, None) => res.1 is Failed,
            },
            (SearchRun::Opening(_), Answer::Search(_)) => res.1 is Failed,
            (SearchRun::Reading(search_id, deck, _), Answer::Material(Ok(Some(material)))) => match (
            query::material_query(material)) {
                Some(chunks) => begins_with(
                    res.0,
                    search_id,
                    deck,
                    material.source_text@,
                    chunks,
                ),
                None => res.1 is Failed,
            },
            (SearchRun::Reading(..), Answer::Material(_)) => res.1 is Failed,
            _ => true,
        },
{
    match (run, answer) {
        (SearchRun::Opening(_), Answer::Search(Ok(Some(record)))) => {
            if let Some(chunks) = query::text_query(record.query_text@) {
                crate::asked::law_rerank_query_is_a_summary(record.query_text@, chunks);
            }
        },
        (SearchRun::Reading(..), Answer::Material(Ok(Some(material)))) => {
            if let Some(chunks) = query::material_query(material) {
                crate::asked::law_rerank_query_is_a_summary(material.source_text@, chunks);
            }
        },
        _ => {},
    }
}

/// What candidates are ranked against is what the search began with, and the candidates that are
/// ranked are those of the short list.
pub proof fn law_ranking_is_asked_for(
    res: (SearchRun, Ask),
    run: SearchRun,
    strategy: Seq<char>,
    answer: Answer,
)
    requires
        run.wf(),
        search::is_step(res, run, strategy, answer),
    ensures
        match res.0 {
            SearchRun::Fusing(id, summary, cs) => match gathering_of(run) {
                Some(g) => id == g.search_id && summary@ == g.rerank_query && match res.1 {
                    Ask::Fuse(ranks) => ranks@.len() == cs@.len() && forall|i: int|
                        0 <= i < ranks@.len() ==> (#[trigger] ranks@[i])@ == cs@[i].ranks@,
                    _ => false,
                },
                None => false,
            },
            SearchRun::Reranking(id, short) => match (run, res.1, answer) {
                (
                    SearchRun::Fusing(search_id, summary, cs),
                    Ask::Rerank(request),
                    Answer::Fused(scores),
                ) => id == search_id && search::is_request(request, strategy, summary@, short@)
                    && candidates::shortlisted(candidates::fused(cs@, scores@)) == Some(short@),
                _ => false,
            },
            _ => true,
        },
{
}

/// Candidates get the scores from the places of their hits one for one, and are otherwise as they
/// were.
pub proof fn law_fused_scores(cs: Seq<Candidate>, scores: Seq<ScoreKey>, i: int)
    requires
        0 <= i < cs.len(),
        scores.len() == cs.len(),
    ensures
        candidates::fused(cs, scores).len() == cs.len(),
        candidates::fused(cs, scores)[i].fused_score == scores[i],
        candidates::fused(cs, scores)[i] == (Candidate { fused_score: scores[i], ..cs[i] }),
{
}

} // verus!
