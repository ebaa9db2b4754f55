//! A run of a search: what is asked of the store, the index and the ranking services, step by
//! step, and what becomes of their answers.

use vstd::prelude::*;
use crate::candidates;
use crate::candidates::{Candidate, ByRelevance, ChunkHits, Hit};
use crate::chars;
use crate::external;
use crate::external::DenseHit;
use crate::models::{CardRecord, GroupedResultRecord, MaterialRecord, ScoreKey, SearchRecord};
use crate::numbers;
use crate::order;
use crate::query;
use crate::query::QueryChunk;
use crate::strings;

verus! {

/// How many hits by terms a chunk of the query gets at most.
pub const LEXICAL_LIMIT: usize = 20;

/// How many hits by nearness a chunk of the query gets at most.
pub const DENSE_LIMIT: usize = 40;

/// What candidates are ranked by.
#[derive(Debug, Clone)]
pub enum RerankRequest {
    /// Every text against one query.
    Summary(String, Vec<String>),
    /// Each text against its own query.
    Pairs(Vec<String>, Vec<String>),
}

/// Whether a strategy ranks against the summary of the query; the case of ASCII letters does not
/// matter.
pub open spec fn by_summary(strategy: Seq<char>) -> bool {
    strategy.map_values(|c: char| chars::ascii_lower(c)) == "summary"@
}

/// The best snippets of a list of candidates.
pub open spec fn snippets(cs: Seq<Candidate>) -> Seq<Seq<char>> {
    Seq::new(cs.len(), |i: int| cs[i].best_snippet@)
}

/// What each of a list of candidates is ranked against when each has its own query.
pub open spec fn best_queries(cs: Seq<Candidate>) -> Seq<Seq<char>> {
    Seq::new(cs.len(), |i: int| strings::at_most(cs[i].best_query_text@, 1000))
}

/// Whether a request asks for the ranking that a strategy wants.
pub open spec fn is_request(
    request: RerankRequest,
    strategy: Seq<char>,
    rerank_query: Seq<char>,
    cs: Seq<Candidate>,
) -> bool {
    match request {
        RerankRequest::Summary(query, texts) => by_summary(strategy) && query@ == rerank_query
            && strings::texts(texts@) == snippets(cs),
        RerankRequest::Pairs(queries, texts) => !by_summary(strategy) && strings::texts(queries@)
            == best_queries(cs) && strings::texts(texts@) == snippets(cs),
    }
}

fn best_snippets(cs: &Vec<Candidate>) -> (res: Vec<String>)
    ensures
        strings::texts(res@) == snippets(cs@),
{
    let mut res: Vec<String> = Vec::new();
    for i in 0..cs.len()
        invariant
            strings::texts(res@) == snippets(cs@).take(i as int),
    {
        let ghost before = strings::texts(res@);
        res.push(cs[i].best_snippet.clone());
        assert(strings::texts(res@) =~= before.push(snippets(cs@)[i as int]));
        assert(snippets(cs@).take(i + 1) =~= snippets(cs@).take(i as int).push(
            snippets(cs@)[i as int],
        ));
    }
    assert(snippets(cs@).take(cs@.len() as int) =~= snippets(cs@));
    res
}

fn own_queries(cs: &Vec<Candidate>) -> (res: Vec<String>)
    ensures
        strings::texts(res@) == best_queries(cs@),
{
    let mut res: Vec<String> = Vec::new();
    for i in 0..cs.len()
        invariant
            strings::texts(res@) == best_queries(cs@).take(i as int),
    {
        let ghost before = strings::texts(res@);
        res.push(query::truncate_for_rerank(cs[i].best_query_text.as_str(), 1000));
        assert(strings::texts(res@) =~= before.push(best_queries(cs@)[i as int]));
        assert(best_queries(cs@).take(i + 1) =~= best_queries(cs@).take(i as int).push(
            best_queries(cs@)[i as int],
        ));
    }
    assert(best_queries(cs@).take(cs@.len() as int) =~= best_queries(cs@));
    res
}

/// Asks for the ranking of a list of candidates.
pub fn rerank_request(strategy: &str, rerank_query: String, cs: &Vec<Candidate>) -> (res:
    RerankRequest)
    ensures
        is_request(res, strategy@, rerank_query@, cs@),
{
    let lower = strings::with_ascii_lowered(strategy);
    if strings::same(lower.as_str(), "summary") {
        RerankRequest::Summary(rerank_query, best_snippets(cs))
    } else {
        RerankRequest::Pairs(own_queries(cs), best_snippets(cs))
    }
}

/// Candidates with the scores of a ranking; a score for a place that is not there is ignored, and
/// of several scores for one place the last one counts.
pub open spec fn rescored(cs: Seq<Candidate>, scores: Seq<(usize, ScoreKey)>) -> Seq<Candidate>
    decreases scores.len(),
{
    if scores.len() == 0 {
        cs
    } else {
        let front = rescored(cs, scores.drop_last());
        let (at, score) = scores.last();
        if at < front.len() {
            front.update(at as int, Candidate { rerank_score: score, ..front[at as int] })
        } else {
            front
        }
    }
}

/// Gives candidates the scores of a ranking.
pub fn apply_scores(candidates: Vec<Candidate>, scores: &Vec<(usize, ScoreKey)>) -> (res: Vec<
    Candidate,
>)
    ensures
        res@ == rescored(candidates@, scores@),
{
    let ghost cs = candidates@;
    let mut res = candidates;
    for i in 0..scores.len()
        invariant
            res@ == rescored(cs, scores@.take(i as int)),
    {
        assert(scores@.take(i + 1).drop_last() =~= scores@.take(i as int));
        let (at, score) = scores[i];
        if at < res.len() {
            let ghost before = res@;
            res[at].rerank_score = score;
            assert(res@ =~= before.update(
                at as int,
                Candidate { rerank_score: score, ..before[at as int] },
            ));
        }
    }
    assert(scores@.take(scores@.len() as int) =~= scores@);
    res
}

/// The result that a candidate makes.
pub open spec fn result_of(search_id: i64, c: Candidate) -> GroupedResultRecord {
    GroupedResultRecord {
        search_id,
        card_id: c.card.card_id,
        rerank_score: c.rerank_score,
        fused_score: c.fused_score,
        chunk_hits: c.ranks@.len() as i64,
        lexical_bonus: c.lexical_bonus as i64,
        best_snippet: c.best_snippet,
        matched_labels: c.matched_labels,
    }
}

/// The results that a list of candidates makes.
pub open spec fn results_of(search_id: i64, cs: Seq<Candidate>) -> Seq<GroupedResultRecord> {
    Seq::new(cs.len(), |i: int| result_of(search_id, cs[i]))
}

/// The candidates with the scores of the ranking, if there was one.
pub open spec fn scored(cs: Seq<Candidate>, scores: Option<Seq<(usize, ScoreKey)>>) -> Seq<
    Candidate,
> {
    match scores {
        Some(given) => rescored(cs, given),
        None => cs,
    }
}

/// The candidates with their final scores, the most relevant first.
pub open spec fn final_candidates(
    cs: Seq<Candidate>,
    scores: Option<Seq<(usize, ScoreKey)>>,
) -> Seq<Candidate> {
    order::ranked::<ByRelevance, Candidate>(scored(cs, scores))
}

/// The results of a search: those of the candidates with their final scores, the most relevant
/// first.
pub open spec fn final_results(
    search_id: i64,
    cs: Seq<Candidate>,
    scores: Option<Seq<(usize, ScoreKey)>>,
) -> Seq<GroupedResultRecord> {
    results_of(search_id, final_candidates(cs, scores))
}

fn to_results(search_id: i64, candidates: Vec<Candidate>) -> (res: Vec<GroupedResultRecord>)
    ensures
        res@ == results_of(search_id, candidates@),
{
    let ghost cs = candidates@;
    let mut res: Vec<GroupedResultRecord> = Vec::new();
    for c in it: candidates
        invariant
            it.seq() == cs,
            res@ == results_of(search_id, cs).take(it.index() as int),
    {
        assert(c == cs[it.index() as int]);
        res.push(
            GroupedResultRecord {
                search_id,
                card_id: c.card.card_id,
                rerank_score: c.rerank_score,
                fused_score: c.fused_score,
                chunk_hits: c.ranks.len() as i64,
                lexical_bonus: c.lexical_bonus as i64,
                best_snippet: c.best_snippet,
                matched_labels: c.matched_labels,
            },
        );
        assert(res@ =~= results_of(search_id, cs).take(it.index() + 1));
    }
    assert(res@ =~= results_of(search_id, cs));
    res
}

/// The results of a search, and whether it has found little.
pub fn finish_search(
    search_id: i64,
    candidates: Vec<Candidate>,
    scores: Option<Vec<(usize, ScoreKey)>>,
) -> (res: (Vec<GroupedResultRecord>, bool))
    ensures
        res.0@ == final_results(
            search_id,
            candidates@,
            match scores {
                Some(given) => Some(given@),
                None => None,
            },
        ),
        res.1 == (candidates@.len() < candidates::GOOD_COVERAGE),
{
    let ghost cs = candidates@;
    let scored = match scores {
        Some(given) => {
            proof {
                lemma_rescored_len(cs, given@);
            }
            apply_scores(candidates, &given)
        },
        None => candidates,
    };
    proof {
        order::law_ranked::<ByRelevance, Candidate>(scored@);
    }
    let ordered = order::rank::<ByRelevance, Candidate>(scored);
    let low_coverage = ordered.len() < candidates::GOOD_COVERAGE;
    (to_results(search_id, ordered), low_coverage)
}

proof fn lemma_rescored_len(cs: Seq<Candidate>, scores: Seq<(usize, ScoreKey)>)
    ensures
        rescored(cs, scores).len() == cs.len(),
    decreases scores.len(),
{
    if scores.len() > 0 {
        lemma_rescored_len(cs, scores.drop_last());
    }
}

/// Whether a candidate is another one up to its final score.
pub open spec fn is_scored(c: Candidate, of: Candidate) -> bool {
    c == Candidate { rerank_score: c.rerank_score, ..of }
}

pub proof fn lemma_rescored_keeps(cs: Seq<Candidate>, scores: Seq<(usize, ScoreKey)>)
    ensures
        rescored(cs, scores).len() == cs.len(),
        forall|i: int|
            0 <= i < cs.len() ==> is_scored(#[trigger] rescored(cs, scores)[i], cs[i]),
    decreases scores.len(),
{
    if scores.len() > 0 {
        let front = rescored(cs, scores.drop_last());
        lemma_rescored_keeps(cs, scores.drop_last());
        assert forall|i: int| 0 <= i < cs.len() implies is_scored(
            #[trigger] rescored(cs, scores)[i],
            cs[i],
        ) by {
            assert(is_scored(front[i], cs[i]));
        }
    }
}

pub proof fn lemma_scored_keeps(cs: Seq<Candidate>, scores: Option<Seq<(usize, ScoreKey)>>)
    ensures
        scored(cs, scores).len() == cs.len(),
        forall|i: int| 0 <= i < cs.len() ==> is_scored(#[trigger] scored(cs, scores)[i], cs[i]),
{
    match scores {
        Some(given) => {
            lemma_rescored_keeps(cs, given);
            assert forall|i: int| 0 <= i < cs.len() implies is_scored(
                #[trigger] scored(cs, scores)[i],
                cs[i],
            ) by {
                assert(is_scored(rescored(cs, given)[i], cs[i]));
            }
        },
        None => {},
    }
}

/// Whether a result is at least as relevant as another: by its score, where the scores are equal by
/// the number of its hits, and where these are equal too by the number of its hits by terms.
pub open spec fn as_relevant(a: GroupedResultRecord, b: GroupedResultRecord) -> bool {
    a.rerank_score > b.rerank_score || a.rerank_score == b.rerank_score && (a.chunk_hits
        > b.chunk_hits || a.chunk_hits == b.chunk_hits && a.lexical_bonus >= b.lexical_bonus)
}

/// Whether the numbers of hits are small enough for a result.
pub open spec fn counts_fit(cs: Seq<Candidate>) -> bool {
    forall|i: int|
        0 <= i < cs.len() ==> (#[trigger] cs[i]).ranks@.len() <= i64::MAX && cs[i].lexical_bonus
            <= i64::MAX
}

/// Every candidate makes one result, all results are of the search, and none is less relevant than
/// one behind it.
pub proof fn law_final_results(
    search_id: i64,
    cs: Seq<Candidate>,
    scores: Option<Seq<(usize, ScoreKey)>>,
)
    requires
        counts_fit(cs),
    ensures
        final_results(search_id, cs, scores).len() == cs.len(),
        forall|i: int|
            0 <= i < cs.len() ==> (#[trigger] final_results(search_id, cs, scores)[i]).search_id
                == search_id,
        forall|i: int, j: int|
            0 <= i < j < cs.len() ==> as_relevant(
                #[trigger] final_results(search_id, cs, scores)[i],
                #[trigger] final_results(search_id, cs, scores)[j],
            ),
{
    let all = scored(cs, scores);
    lemma_scored_keeps(cs, scores);
    order::law_ranked::<ByRelevance, Candidate>(all);
    order::lemma_ranked_contains::<ByRelevance, Candidate>(all);
    let ordered = final_candidates(cs, scores);
    assert forall|i: int| 0 <= i < ordered.len() implies (#[trigger] ordered[i]).ranks@.len()
        <= i64::MAX && ordered[i].lexical_bonus <= i64::MAX by {
        let k = choose|k: int| 0 <= k < all.len() && all[k] == ordered[i];
        assert(all.contains(ordered[i]));
        assert(is_scored(all[k], cs[k]));
    }
    assert forall|i: int, j: int| 0 <= i < j < cs.len() implies as_relevant(
        #[trigger] final_results(search_id, cs, scores)[i],
        #[trigger] final_results(search_id, cs, scores)[j],
    ) by {
        assert(order::RankBy::<ByRelevance>::may_precede(ordered[i], ordered[j]));
        assert(ordered[i].ranks@.len() <= i64::MAX);
        assert(ordered[j].ranks@.len() <= i64::MAX);
    }
}

/// Whether two candidates are of different cards and different notes and say different things.
pub open spec fn tell_apart(a: Candidate, b: Candidate) -> bool {
    a.key != b.key && candidates::differ(a, b)
}

/// Whether the candidates are those of their keys' cards.
pub open spec fn under_own_keys(cs: Seq<Candidate>) -> bool {
    forall|i: int| 0 <= i < cs.len() ==> (#[trigger] cs[i]).key == cs[i].card.card_id
}

/// A search has at most a hundred results. No two of them are of one card, no two of the cards are
/// of one note, and no two of the cards say the same; each result carries at most six labels, in
/// alphabetical order, each once.
pub proof fn law_results_are_distinct(
    search_id: i64,
    cs: Seq<Candidate>,
    fusion: Seq<ScoreKey>,
    scores: Option<Seq<(usize, ScoreKey)>>,
)
    requires
        candidates::sound(candidates::candidate_views(cs)),
        under_own_keys(cs),
    ensures
        match candidates::shortlisted(candidates::fused(cs, fusion)) {
            Some(short) => {
                let ordered = final_candidates(short, scores);
                let results = final_results(search_id, short, scores);
                &&& results.len() <= candidates::MAX_CANDIDATES
                &&& results.len() == ordered.len()
                &&& forall|i: int|
                    0 <= i < results.len() ==> {
                        &&& (#[trigger] results[i]).card_id == ordered[i].card.card_id
                        &&& results[i].matched_labels@.len() <= candidates::MAX_LABELS
                        &&& candidates::in_order(strings::texts(results[i].matched_labels@))
                    }
                &&& forall|i: int, j: int|
                    0 <= i < j < results.len() ==> (#[trigger] results[i]).card_id != (
                    #[trigger] results[j]).card_id
                &&& forall|i: int, j: int|
                    0 <= i < j < ordered.len() ==> candidates::differ(
                        #[trigger] ordered[i],
                        #[trigger] ordered[j],
                    )
            },
            None => true,
        },
{
    let views = candidates::candidate_views(cs);
    let given = candidates::fused(cs, fusion);
    let by_key = |a: Candidate, b: Candidate| a.key != b.key;
    assert(order::pairwise(given, by_key)) by {
        assert forall|i: int, j: int| 0 <= i < j < given.len() implies by_key(
            #[trigger] given[i],
            #[trigger] given[j],
        ) by {
            assert(views[i].key != views[j].key);
        }
    }
    candidates::law_shortlist_is_drawn(given, by_key);
    candidates::law_shortlisted(given);
    match candidates::shortlisted(given) {
        Some(short) => {
            let all = scored(short, scores);
            let apart = |a: Candidate, b: Candidate| tell_apart(a, b);
            lemma_scored_keeps(short, scores);
            assert(order::pairwise(all, apart)) by {
                assert forall|i: int, j: int| 0 <= i < j < all.len() implies apart(
                    #[trigger] all[i],
                    #[trigger] all[j],
                ) by {
                    assert(is_scored(all[i], short[i]));
                    assert(is_scored(all[j], short[j]));
                    assert(by_key(short[i], short[j]));
                    assert(candidates::differ(short[i], short[j]));
                }
            }
            order::law_ranked::<ByRelevance, Candidate>(all);
            order::law_ranked_keeps_apart::<ByRelevance, Candidate>(all, apart);
            let ordered = final_candidates(short, scores);
            let results = final_results(search_id, short, scores);
            assert forall|i: int| 0 <= i < ordered.len() implies {
                &&& (#[trigger] ordered[i]).key == ordered[i].card.card_id
                &&& ordered[i].matched_labels@.len() <= candidates::MAX_LABELS
                &&& candidates::in_order(strings::texts(ordered[i].matched_labels@))
            } by {
                assert(all.contains(ordered[i]));
                let k = choose|k: int| 0 <= k < all.len() && all[k] == ordered[i];
                assert(is_scored(all[k], short[k]));
                assert(given.contains(short[k]));
                let m = choose|m: int| 0 <= m < given.len() && given[m] == short[k];
                assert(cs[m].key == cs[m].card.card_id);
                assert(views[m] == cs[m]@);
                assert(candidates::sound_one(views[m]));
            }
            assert forall|i: int| 0 <= i < results.len() implies {
                &&& (#[trigger] results[i]).card_id == ordered[i].card.card_id
                &&& results[i].matched_labels@.len() <= candidates::MAX_LABELS
                &&& candidates::in_order(strings::texts(results[i].matched_labels@))
            } by {
                assert(ordered[i].key == ordered[i].card.card_id);
            }
            assert forall|i: int, j: int| 0 <= i < j < results.len() implies (
            #[trigger] results[i]).card_id != (#[trigger] results[j]).card_id by {
                assert(apart(ordered[i], ordered[j]));
                assert(ordered[i].key == ordered[i].card.card_id);
                assert(ordered[j].key == ordered[j].card.card_id);
            }
            assert forall|i: int, j: int| 0 <= i < j < ordered.len() implies candidates::differ(
                #[trigger] ordered[i],
                #[trigger] ordered[j],
            ) by {
                assert(apart(ordered[i], ordered[j]));
            }
        },
        None => {},
    }
}

/// Why a search failed.
#[derive(Debug, Clone)]
pub enum SearchError {
    SearchNotFound(i64),
    MaterialNotFound(i64),
    /// The store could not be read or written, with the reason.
    Store(String),
    /// A text cannot be laid out.
    Unrenderable,
    /// An answer came to another question than was asked.
    OutOfTurn,
}

impl SearchError {
    /// The message of the error.
    pub open spec fn text(self) -> Seq<char> {
        match self {
            SearchError::SearchNotFound(id) => "search "@ + numbers::decimal(id as int)
                + " not found"@,
            SearchError::MaterialNotFound(id) => "material "@ + numbers::decimal(id as int)
                + " not found"@,
            SearchError::Store(reason) => reason@,
            SearchError::Unrenderable => "text cannot be laid out"@,
            SearchError::OutOfTurn => "answer out of turn"@,
        }
    }

    /// Says why the search failed.
    pub fn message(&self) -> (res: String)
        ensures
            res@ == self.text(),
    {
        match self {
            SearchError::SearchNotFound(id) => {
                let mut res = strings::copy("search ");
                numbers::push_decimal(&mut res, *id);
                res.append(" not found");
                res
            },
            SearchError::MaterialNotFound(id) => {
                let mut res = strings::copy("material ");
                numbers::push_decimal(&mut res, *id);
                res.append(" not found");
                res
            },
            SearchError::Store(reason) => reason.clone(),
            SearchError::Unrenderable => strings::copy("text cannot be laid out"),
            SearchError::OutOfTurn => strings::copy("answer out of turn"),
        }
    }
}

/// A search whose hits are being gathered.
pub struct Gathering {
    pub search_id: i64,
    /// The deck to which the search is limited, if it is.
    pub deck: Option<i64>,
    pub rerank_query: String,
    /// How many chunks of the query have a vector.
    pub embedded: usize,
    /// The chunks of the query, with the hits so far.
    pub found: Vec<ChunkHits>,
    /// The chunk that hits are being gathered for.
    pub at: usize,
}

/// What is known of a search whose hits are being gathered.
#[verifier::ext_equal]
pub struct GatheringView {
    pub search_id: i64,
    pub deck: Option<i64>,
    pub rerank_query: Seq<char>,
    pub embedded: usize,
    pub found: Seq<candidates::FoundView>,
    pub at: int,
}

impl View for Gathering {
    type V = GatheringView;

    open spec fn view(&self) -> GatheringView {
        GatheringView {
            search_id: self.search_id,
            deck: self.deck,
            rerank_query: self.rerank_query@,
            embedded: self.embedded,
            found: candidates::found_views(self.found@),
            at: self.at as int,
        }
    }
}

/// Where a search stands.
pub enum SearchRun {
    /// The search's own record was asked for.
    Opening(i64),
    /// The material to search with was asked for, for this search and deck.
    Reading(i64, Option<i64>, i64),
    /// Vectors for the chunks of the query were asked for.
    Embedding(Gathering),
    /// Hits by terms were asked for.
    Lexical(Gathering),
    /// The card of one of these hits by terms was asked for.
    LexicalCards(Gathering, Vec<(i64, ScoreKey)>),
    /// Hits by nearness were asked for.
    Dense(Gathering),
    /// The card of one of these hits by nearness was asked for.
    DenseCards(Gathering, Vec<DenseHit>),
    /// Scores from the places of hits were asked for, for this search, with this text to rank
    /// against.
    Fusing(i64, String, Vec<Candidate>),
    /// A ranking was asked for.
    Reranking(i64, Vec<Candidate>),
    /// The results were handed over.
    Saving,
    /// Nothing more will be asked.
    Over,
}

impl Gathering {
    /// Whether there is a chunk that hits are being gathered for.
    pub open spec fn wf(self) -> bool {
        self.at < self.found@.len()
    }
}

impl SearchRun {
    /// Whether there is a chunk, and a hit, that the answer will be for.
    pub open spec fn wf(self) -> bool {
        match self {
            SearchRun::Lexical(g) => g.wf(),
            SearchRun::Dense(g) => g.wf(),
            SearchRun::LexicalCards(g, hits) => g.wf() && g.found@[g.at as int].lexical@.len()
                < hits@.len(),
            SearchRun::DenseCards(g, hits) => g.wf() && g.found@[g.at as int].dense@.len()
                < hits@.len(),
            _ => true,
        }
    }
}

/// What a search asks for.
pub enum Ask {
    /// The record of a search.
    Search(i64),
    /// The record of a material.
    Material(i64),
    /// Vectors for these texts.
    Embed(Vec<String>),
    /// Hits by terms for a text, in a deck or in all, and how many at most.
    Lexical(String, Option<i64>, usize),
    /// The record of a card.
    Card(i64),
    /// Hits by nearness to the vector of a chunk, in a deck or in all, and how many at most.
    Dense(usize, Option<i64>, usize),
    /// A score for each of these lists of places.
    Fuse(Vec<Vec<usize>>),
    /// A ranking.
    Rerank(RerankRequest),
    /// That the results of a search are kept, and whether it has found little.
    Save(i64, Vec<GroupedResultRecord>, bool),
    /// Nothing: the search is done.
    Finished,
    /// Nothing: the search failed.
    Failed(SearchError),
}

/// What a search is answered.
pub enum Answer {
    Search(Result<Option<SearchRecord>, String>),
    Material(Result<Option<MaterialRecord>, String>),
    /// How many texts got a vector.
    Embedded(Result<usize, String>),
    Lexical(Result<Vec<(i64, ScoreKey)>, String>),
    Card(Result<Option<CardRecord>, String>),
    Dense(Result<Vec<DenseHit>, String>),
    Fused(Vec<ScoreKey>),
    Reranked(Result<Vec<(usize, ScoreKey)>, String>),
    Saved(Result<(), String>),
}

/// Whether a step ends a search with an error.
pub open spec fn fails(res: (SearchRun, Ask), error: SearchError) -> bool {
    res.0 is Over && res.1 == Ask::Failed(error)
}

fn fail(error: SearchError) -> (res: (SearchRun, Ask))
    ensures
        fails(res, error),
        res.0.wf(),
{
    (SearchRun::Over, Ask::Failed(error))
}

/// Chunks without any hits.
pub open spec fn unfound(chunks: Seq<query::QueryView>) -> Seq<candidates::FoundView> {
    Seq::new(
        chunks.len(),
        |i: int|
            candidates::FoundView { chunk: chunks[i], lexical: Seq::empty(), dense: Seq::empty() },
    )
}

/// Whether a step starts gathering hits for the chunks of a query: it asks for their vectors. Where
/// there are no chunks because a text cannot be laid out, the search fails.
pub open spec fn begins(
    res: (SearchRun, Ask),
    search_id: i64,
    deck: Option<i64>,
    query_text: Seq<char>,
    chunks: Option<Seq<query::QueryView>>,
) -> bool {
    match chunks {
        None => fails(res, SearchError::Unrenderable),
        Some(chunks) => match res {
            (SearchRun::Embedding(g), Ask::Embed(inputs)) => {
                &&& g@ == (GatheringView {
                    search_id,
                    deck,
                    rerank_query: query::rerank_query(query_text, chunks),
                    embedded: 0,
                    found: unfound(chunks),
                    at: 0,
                })
                &&& strings::texts(inputs@) == query::embed_texts(chunks)
            },
            _ => false,
        },
    }
}

fn begin(search_id: i64, deck: Option<i64>, query_text: &str, chunks: Option<Vec<QueryChunk>>) -> (res: (
    SearchRun,
    Ask,
))
    ensures
        begins(
            res,
            search_id,
            deck,
            query_text@,
            match chunks {
                Some(v) => Some(query::query_views(v@)),
                None => None,
            },
        ),
{
    match chunks {
        None => fail(SearchError::Unrenderable),
        Some(chunks) => {
            let rerank_query = query::build_rerank_query(query_text, &chunks);
            let inputs = query::query_embed_inputs(&chunks);
            let ghost views = query::query_views(chunks@);
            let ghost whole = chunks@;
            let mut found: Vec<ChunkHits> = Vec::new();
            for chunk in it: chunks
                invariant
                    it.seq() == whole,
                    views == query::query_views(whole),
                    candidates::found_views(found@) == unfound(views).take(it.index() as int),
            {
                assert(chunk == whole[it.index() as int]);
                let ghost before = candidates::found_views(found@);
                let hits = ChunkHits { chunk, lexical: Vec::new(), dense: Vec::new() };
                assert(hits@ =~= unfound(views)[it.index() as int]) by {
                    assert(candidates::hit_views(hits.lexical@) =~= Seq::empty());
                    assert(candidates::hit_views(hits.dense@) =~= Seq::empty());
                }
                let ghost added = hits@;
                found.push(hits);
                assert(candidates::found_views(found@) =~= before.push(added));
                assert(unfound(views).take(it.index() + 1) =~= unfound(views).take(
                    it.index() as int,
                ).push(unfound(views)[it.index() as int]));
            }
            assert(unfound(views).take(views.len() as int) =~= unfound(views));
            let g = Gathering { search_id, deck, rerank_query, embedded: 0, found, at: 0 };
            (SearchRun::Embedding(g), Ask::Embed(inputs))
        },
    }
}

/// Whether a step asks for scores from the places of the hits that were gathered.
pub open spec fn asks_fusion(res: (SearchRun, Ask), g: GatheringView) -> bool {
    match candidates::gathered(g.found) {
        None => fails(res, SearchError::Unrenderable),
        Some(views) => match res {
            (SearchRun::Fusing(search_id, rerank_query, cs), Ask::Fuse(ranks)) => {
                &&& search_id == g.search_id
                &&& rerank_query@ == g.rerank_query
                &&& candidates::candidate_views(cs@) == views
                &&& candidates::all_wf(cs@)
                &&& ranks@.len() == cs@.len()
                &&& forall|i: int|
                    0 <= i < ranks@.len() ==> (#[trigger] ranks@[i])@ == cs@[i].ranks@
            },
            _ => false,
        },
    }
}

fn ask_fusion(g: Gathering) -> (res: (SearchRun, Ask))
    ensures
        asks_fusion(res, g@),
        res.0.wf(),
{
    match candidates::gather_candidates(g.found) {
        None => fail(SearchError::Unrenderable),
        Some(cs) => {
            let ranks = candidates::candidate_ranks(&cs);
            (SearchRun::Fusing(g.search_id, g.rerank_query, cs), Ask::Fuse(ranks))
        },
    }
}

/// Whether a step asks for the hits by terms for the chunk that is next, or goes on where there is
/// none.
pub open spec fn asks_lexical(res: (SearchRun, Ask), g: GatheringView) -> bool {
    if 0 <= g.at < g.found.len() {
        match res {
            (SearchRun::Lexical(now), Ask::Lexical(text, deck, limit)) => {
                &&& now@ == g
                &&& text@ == g.found[g.at].chunk.text
                &&& deck == g.deck
                &&& limit == LEXICAL_LIMIT
            },
            _ => false,
        }
    } else {
        asks_fusion(res, g)
    }
}

fn ask_lexical(g: Gathering) -> (res: (SearchRun, Ask))
    ensures
        asks_lexical(res, g@),
        res.0.wf(),
{
    if g.at < g.found.len() {
        let text = g.found[g.at].chunk.text.clone();
        let deck = g.deck;
        (SearchRun::Lexical(g), Ask::Lexical(text, deck, LEXICAL_LIMIT))
    } else {
        ask_fusion(g)
    }
}

/// Whether a step goes on with the chunk behind the present one.
pub open spec fn moves_on(res: (SearchRun, Ask), g: GatheringView) -> bool {
    asks_lexical(res, GatheringView { at: g.at + 1, ..g })
}

fn move_on(g: Gathering) -> (res: (SearchRun, Ask))
    requires
        g.at < g.found@.len(),
    ensures
        moves_on(res, g@),
        res.0.wf(),
{
    let mut g = g;
    let ghost before = g@;
    assert(g.at < g.found.len());
    g.at = g.at + 1;
    assert(g@ =~= (GatheringView { at: before.at + 1, ..before }));
    ask_lexical(g)
}

/// Whether a step asks for the hits by nearness for the present chunk, or goes on where the chunk
/// has no vector.
pub open spec fn asks_dense(res: (SearchRun, Ask), g: GatheringView) -> bool {
    if g.at < g.embedded {
        match res {
            (SearchRun::Dense(now), Ask::Dense(at, deck, limit)) => {
                &&& now@ == g
                &&& at == g.at
                &&& deck == g.deck
                &&& limit == DENSE_LIMIT
            },
            _ => false,
        }
    } else {
        moves_on(res, g)
    }
}

fn ask_dense(g: Gathering) -> (res: (SearchRun, Ask))
    requires
        g.at < g.found@.len(),
    ensures
        asks_dense(res, g@),
        res.0.wf(),
{
    if g.at < g.embedded {
        let at: usize = g.at;
        let deck = g.deck;
        (SearchRun::Dense(g), Ask::Dense(at, deck, DENSE_LIMIT))
    } else {
        move_on(g)
    }
}

/// Whether a step asks for the card of the next hit by terms, or goes on where there is none.
pub open spec fn asks_lexical_card(
    res: (SearchRun, Ask),
    g: GatheringView,
    hits: Seq<(i64, ScoreKey)>,
) -> bool {
    let next = g.found[g.at].lexical.len();
    if next < hits.len() {
        match res {
            (SearchRun::LexicalCards(now, rest), Ask::Card(id)) => now@ == g && rest@ == hits && id
                == hits[next as int].0,
            _ => false,
        }
    } else {
        asks_dense(res, g)
    }
}

fn ask_lexical_card(g: Gathering, hits: Vec<(i64, ScoreKey)>) -> (res: (SearchRun, Ask))
    requires
        g.at < g.found@.len(),
    ensures
        asks_lexical_card(res, g@, hits@),
        res.0.wf(),
{
    let next: usize = g.found[g.at].lexical.len();
    assert(g@.found[g@.at].lexical.len() == next);
    if next < hits.len() {
        let id: i64 = hits[next].0;
        (SearchRun::LexicalCards(g, hits), Ask::Card(id))
    } else {
        ask_dense(g)
    }
}

/// Whether a step asks for the card of the next hit by nearness, or goes on where there is none.
pub open spec fn asks_dense_card(
    res: (SearchRun, Ask),
    g: GatheringView,
    hits: Seq<external::DenseHitView>,
) -> bool {
    let next = g.found[g.at].dense.len();
    if next < hits.len() {
        match res {
            (SearchRun::DenseCards(now, rest), Ask::Card(id)) => now@ == g && external::dense_views(
                rest@,
            ) == hits && id == hits[next as int].card_id,
            _ => false,
        }
    } else {
        moves_on(res, g)
    }
}

fn ask_dense_card(g: Gathering, hits: Vec<DenseHit>) -> (res: (SearchRun, Ask))
    requires
        g.at < g.found@.len(),
    ensures
        asks_dense_card(res, g@, external::dense_views(hits@)),
        res.0.wf(),
{
    let next: usize = g.found[g.at].dense.len();
    assert(g@.found[g@.at].dense.len() == next);
    if next < hits.len() {
        assert(external::dense_views(hits@)[next as int] == hits@[next as int]@);
        let id: i64 = hits[next].card_id;
        (SearchRun::DenseCards(g, hits), Ask::Card(id))
    } else {
        move_on(g)
    }
}

/// What is known once the card at a place is: the hit for it, if the card is still there.
pub open spec fn with_lexical(g: GatheringView, hit: Option<candidates::HitView>) -> GatheringView {
    GatheringView {
        found: g.found.update(
            g.at,
            candidates::FoundView { lexical: g.found[g.at].lexical.push(hit), ..g.found[g.at] },
        ),
        ..g
    }
}

/// What is known once the card at a place is: the hit for it, if the card is still there.
pub open spec fn with_dense(g: GatheringView, hit: Option<candidates::HitView>) -> GatheringView {
    GatheringView {
        found: g.found.update(
            g.at,
            candidates::FoundView { dense: g.found[g.at].dense.push(hit), ..g.found[g.at] },
        ),
        ..g
    }
}

/// What a hit says, if there is one.
pub open spec fn hit_view(hit: Option<Hit>) -> Option<candidates::HitView> {
    match hit {
        Some(h) => Some(h@),
        None => None,
    }
}

fn add_lexical(g: Gathering, hit: Option<Hit>) -> (res: Gathering)
    requires
        g.wf(),
    ensures
        res.wf(),
        res@ == with_lexical(g@, hit_view(hit)),
{
    let mut g = g;
    let ghost before = g@;
    let ghost was = g.found@;
    let at: usize = g.at;
    g.found[at].lexical.push(hit);
    assert(g.found@[at as int]@ =~= (candidates::FoundView {
        lexical: before.found[at as int].lexical.push(hit_view(hit)),
        ..before.found[at as int]
    })) by {
        assert(candidates::hit_views(g.found@[at as int].lexical@) =~= candidates::hit_views(
            was[at as int].lexical@,
        ).push(hit_view(hit)));
    }
    assert(g@ =~= with_lexical(before, hit_view(hit))) by {
        assert(candidates::found_views(g.found@) =~= with_lexical(before, hit_view(hit)).found);
    }
    g
}

fn add_dense(g: Gathering, hit: Option<Hit>) -> (res: Gathering)
    requires
        g.wf(),
    ensures
        res.wf(),
        res@ == with_dense(g@, hit_view(hit)),
{
    let mut g = g;
    let ghost before = g@;
    let ghost was = g.found@;
    let at: usize = g.at;
    g.found[at].dense.push(hit);
    assert(g.found@[at as int]@ =~= (candidates::FoundView {
        dense: before.found[at as int].dense.push(hit_view(hit)),
        ..before.found[at as int]
    })) by {
        assert(candidates::hit_views(g.found@[at as int].dense@) =~= candidates::hit_views(
            was[at as int].dense@,
        ).push(hit_view(hit)));
    }
    assert(g@ =~= with_dense(before, hit_view(hit))) by {
        assert(candidates::found_views(g.found@) =~= with_dense(before, hit_view(hit)).found);
    }
    g
}

/// Starts a search.
pub fn start_search(search_id: i64) -> (res: (SearchRun, Ask))
    ensures
        res == (SearchRun::Opening(search_id), Ask::Search(search_id)),
        res.0.wf(),
{
    (SearchRun::Opening(search_id), Ask::Search(search_id))
}

/// Whether a step is the right one after a search's record came.
pub open spec fn after_record(
    res: (SearchRun, Ask),
    search_id: i64,
    answer: Result<Option<SearchRecord>, String>,
) -> bool {
    match answer {
        Err(reason) => fails(res, SearchError::Store(reason)),
        Ok(None) => fails(res, SearchError::SearchNotFound(search_id)),
        Ok(Some(search)) => match search.material_id {
            Some(material_id) => res == (
                SearchRun::Reading(search_id, search.selected_deck_import_id, material_id),
                Ask::Material(material_id),
            ),
            None => begins(
                res,
                search_id,
                search.selected_deck_import_id,
                search.query_text@,
                query::text_query(search.query_text@),
            ),
        },
    }
}

/// Whether a step is the right one after a material's record came.
pub open spec fn after_material(
    res: (SearchRun, Ask),
    search_id: i64,
    deck: Option<i64>,
    material_id: i64,
    answer: Result<Option<MaterialRecord>, String>,
) -> bool {
    match answer {
        Err(reason) => fails(res, SearchError::Store(reason)),
        Ok(None) => fails(res, SearchError::MaterialNotFound(material_id)),
        Ok(Some(material)) => begins(
            res,
            search_id,
            deck,
            material.source_text@,
            query::material_query(material),
        ),
    }
}

/// Whether a step is the right one after the card of a hit by terms came.
pub open spec fn after_lexical_card(
    res: (SearchRun, Ask),
    g: GatheringView,
    hits: Seq<(i64, ScoreKey)>,
    answer: Result<Option<CardRecord>, String>,
) -> bool {
    let (id, score) = hits[g.found[g.at].lexical.len() as int];
    match answer {
        Err(reason) => fails(res, SearchError::Store(reason)),
        Ok(None) => asks_lexical_card(res, with_lexical(g, None), hits),
        Ok(Some(card)) => asks_lexical_card(
            res,
            with_lexical(g, Some(candidates::lexical_view(id, score, card))),
            hits,
        ),
    }
}

/// Whether a step is the right one after the card of a hit by nearness came.
pub open spec fn after_dense_card(
    res: (SearchRun, Ask),
    g: GatheringView,
    hits: Seq<external::DenseHitView>,
    answer: Result<Option<CardRecord>, String>,
) -> bool {
    let hit = hits[g.found[g.at].dense.len() as int];
    match answer {
        Err(reason) => fails(res, SearchError::Store(reason)),
        Ok(None) => asks_dense_card(res, with_dense(g, None), hits),
        Ok(Some(card)) => asks_dense_card(
            res,
            with_dense(g, Some(candidates::dense_view(hit.score, hit.snippet, card))),
            hits,
        ),
    }
}

/// Whether a step is the right one after scores from the places of hits came: it asks for the
/// ranking of the candidates on the short list.
pub open spec fn after_fusion(
    res: (SearchRun, Ask),
    strategy: Seq<char>,
    search_id: i64,
    rerank_query: Seq<char>,
    cs: Seq<Candidate>,
    scores: Seq<ScoreKey>,
) -> bool {
    match candidates::shortlisted(candidates::fused(cs, scores)) {
        None => fails(res, SearchError::Unrenderable),
        Some(short) => match res {
            (SearchRun::Reranking(id, kept), Ask::Rerank(request)) => id == search_id && kept@
                == short && is_request(request, strategy, rerank_query, short),
            _ => false,
        },
    }
}

/// Whether a step is the right one after a ranking came, or failed to: it hands the results over.
pub open spec fn after_ranking(
    res: (SearchRun, Ask),
    search_id: i64,
    cs: Seq<Candidate>,
    answer: Result<Vec<(usize, ScoreKey)>, String>,
) -> bool {
    match res {
        (SearchRun::Saving, Ask::Save(id, results, low_coverage)) => {
            &&& id == search_id
            &&& results@ == final_results(
                search_id,
                cs,
                match answer {
                    Ok(scores) => Some(scores@),
                    Err(_) => None,
                },
            )
            &&& low_coverage == (cs.len() < candidates::GOOD_COVERAGE)
        },
        _ => false,
    }
}

/// Whether a step of a search is the right one after an answer.
pub open spec fn is_step(
    res: (SearchRun, Ask),
    run: SearchRun,
    strategy: Seq<char>,
    answer: Answer,
) -> bool {
    match (run, answer) {
        (SearchRun::Opening(search_id), Answer::Search(found)) => after_record(
            res,
            search_id,
            found,
        ),
        (SearchRun::Reading(search_id, deck, material_id), Answer::Material(found)) =>
        after_material(res, search_id, deck, material_id, found),
        (SearchRun::Embedding(g), Answer::Embedded(count)) => asks_lexical(
            res,
            GatheringView {
                embedded: match count {
                    Ok(n) => n,
                    Err(_) => 0,
                },
                ..g@
            },
        ),
        (SearchRun::Lexical(g), Answer::Lexical(hits)) => asks_lexical_card(
            res,
            g@,
            match hits {
                Ok(v) => v@,
                Err(_) => Seq::empty(),
            },
        ),
        (SearchRun::LexicalCards(g, hits), Answer::Card(card)) => after_lexical_card(
            res,
            g@,
            hits@,
            card,
        ),
        (SearchRun::Dense(g), Answer::Dense(hits)) => asks_dense_card(
            res,
            g@,
            match hits {
                Ok(v) => external::dense_views(v@),
                Err(_) => Seq::empty(),
            },
        ),
        (SearchRun::DenseCards(g, hits), Answer::Card(card)) => after_dense_card(
            res,
            g@,
            external::dense_views(hits@),
            card,
        ),
        (SearchRun::Fusing(search_id, rerank_query, cs), Answer::Fused(scores)) => after_fusion(
            res,
            strategy,
            search_id,
            rerank_query@,
            cs@,
            scores@,
        ),
        (SearchRun::Reranking(search_id, cs), Answer::Reranked(scores)) => after_ranking(
            res,
            search_id,
            cs@,
            scores,
        ),
        (SearchRun::Saving, Answer::Saved(outcome)) => match outcome {
            Ok(_) => res.0 is Over && res.1 is Finished,
            Err(reason) => fails(res, SearchError::Store(reason)),
        },
        _ => fails(res, SearchError::OutOfTurn),
    }
}

/// Takes an answer in and says what to ask for next.
pub fn run_search(run: SearchRun, strategy: &str, answer: Answer) -> (res: (SearchRun, Ask))
    requires
        run.wf(),
    ensures
        is_step(res, run, strategy@, answer),
        res.0.wf(),
{
    match (run, answer) {
        (SearchRun::Opening(search_id), Answer::Search(found)) => match found {
            Err(reason) => fail(SearchError::Store(reason)),
            Ok(None) => fail(SearchError::SearchNotFound(search_id)),
            Ok(Some(search)) => match search.material_id {
                Some(material_id) => (
                    SearchRun::Reading(search_id, search.selected_deck_import_id, material_id),
                    Ask::Material(material_id),
                ),
                None => {
                    let chunks = query::build_text_query_chunks(search.query_text.as_str());
                    begin(
                        search_id,
                        search.selected_deck_import_id,
                        search.query_text.as_str(),
                        chunks,
                    )
                },
            },
        },
        (SearchRun::Reading(search_id, deck, material_id), Answer::Material(found)) => match found {
            Err(reason) => fail(SearchError::Store(reason)),
            Ok(None) => fail(SearchError::MaterialNotFound(material_id)),
            Ok(Some(material)) => {
                let chunks = query::build_material_query_chunks(&material);
                begin(search_id, deck, material.source_text.as_str(), chunks)
            },
        },
        (SearchRun::Embedding(g), Answer::Embedded(count)) => {
            let mut g = g;
            g.embedded = match count {
                Ok(n) => n,
                Err(_) => 0,
            };
            ask_lexical(g)
        },
        (SearchRun::Lexical(g), Answer::Lexical(hits)) => {
            let hits: Vec<(i64, ScoreKey)> = match hits {
                Ok(v) => v,
                Err(_) => Vec::new(),
            };
            ask_lexical_card(g, hits)
        },
        (SearchRun::LexicalCards(g, hits), Answer::Card(card)) => {
            let next: usize = g.found[g.at].lexical.len();
            assert(g@.found[g@.at].lexical.len() == next);
            let (id, score) = hits[next];
            match card {
                Err(reason) => fail(SearchError::Store(reason)),
                Ok(None) => ask_lexical_card(add_lexical(g, None), hits),
                Ok(Some(card)) => {
                    let hit = candidates::lexical_hit(id, score, card);
                    ask_lexical_card(add_lexical(g, Some(hit)), hits)
                },
            }
        },
        (SearchRun::Dense(g), Answer::Dense(hits)) => {
            let hits: Vec<DenseHit> = match hits {
                Ok(v) => v,
                Err(_) => Vec::new(),
            };
            assert(hits@.len() == 0 ==> external::dense_views(hits@) =~= Seq::empty());
            ask_dense_card(g, hits)
        },
        (SearchRun::DenseCards(g, hits), Answer::Card(card)) => {
            let next: usize = g.found[g.at].dense.len();
            assert(g@.found[g@.at].dense.len() == next);
            assert(external::dense_views(hits@)[next as int] == hits@[next as int]@);
            match card {
                Err(reason) => fail(SearchError::Store(reason)),
                Ok(None) => ask_dense_card(add_dense(g, None), hits),
                Ok(Some(card)) => {
                    let snippet = hits[next].snippet.clone();
                    let hit = candidates::dense_hit(hits[next].score, snippet, card);
                    ask_dense_card(add_dense(g, Some(hit)), hits)
                },
            }
        },
        (SearchRun::Fusing(search_id, rerank_query, cs), Answer::Fused(scores)) => {
            match candidates::shortlist(candidates::with_fused(cs, &scores)) {
                None => fail(SearchError::Unrenderable),
                Some(short) => {
                    let request = rerank_request(strategy, rerank_query, &short);
                    (SearchRun::Reranking(search_id, short), Ask::Rerank(request))
                },
            }
        },
        (SearchRun::Reranking(search_id, cs), Answer::Reranked(scores)) => {
            let given = match scores {
                Ok(v) => Some(v),
                Err(_) => None,
            };
            let (results, low_coverage) = finish_search(search_id, cs, given);
            (SearchRun::Saving, Ask::Save(search_id, results, low_coverage))
        },
        (SearchRun::Saving, Answer::Saved(outcome)) => match outcome {
            Ok(_) => (SearchRun::Over, Ask::Finished),
            Err(reason) => fail(SearchError::Store(reason)),
        },
        _ => fail(SearchError::OutOfTurn),
    }
}

/// How far a search is: its stage, and while hits are gathered the chunk they are gathered for,
/// what was asked for the chunk, and how many hits of it are known.
pub open spec fn progress(run: SearchRun) -> (int, int, int, int) {
    match run {
        SearchRun::Opening(_) => (0, 0, 0, 0),
        SearchRun::Reading(..) => (1, 0, 0, 0),
        SearchRun::Embedding(_) => (2, 0, 0, 0),
        SearchRun::Lexical(g) => (3, g@.at, 0, 0),
        SearchRun::LexicalCards(g, _) => (3, g@.at, 1, g@.found[g@.at].lexical.len() as int),
        SearchRun::Dense(g) => (3, g@.at, 2, 0),
        SearchRun::DenseCards(g, _) => (3, g@.at, 3, g@.found[g@.at].dense.len() as int),
        SearchRun::Fusing(..) => (4, 0, 0, 0),
        SearchRun::Reranking(..) => (5, 0, 0, 0),
        SearchRun::Saving => (6, 0, 0, 0),
        SearchRun::Over => (7, 0, 0, 0),
    }
}

/// Whether `b` is further than `a`; the first number that differs decides.
pub open spec fn further(a: (int, int, int, int), b: (int, int, int, int)) -> bool {
    a.0 < b.0 || a.0 == b.0 && (a.1 < b.1 || a.1 == b.1 && (a.2 < b.2 || a.2 == b.2 && a.3 < b.3))
}

/// Every answer takes a search further, until it is over.
pub proof fn law_search_goes_on(
    res: (SearchRun, Ask),
    run: SearchRun,
    strategy: Seq<char>,
    answer: Answer,
)
    requires
        run.wf(),
        !(run is Over),
        is_step(res, run, strategy, answer),
    ensures
        further(progress(run), progress(res.0)),
{
}

/// The search that a run is for, until its results are handed over.
pub open spec fn search_of(run: SearchRun) -> Option<i64> {
    match run {
        SearchRun::Opening(id) => Some(id),
        SearchRun::Reading(id, _, _) => Some(id),
        SearchRun::Embedding(g) => Some(g@.search_id),
        SearchRun::Lexical(g) => Some(g@.search_id),
        SearchRun::LexicalCards(g, _) => Some(g@.search_id),
        SearchRun::Dense(g) => Some(g@.search_id),
        SearchRun::DenseCards(g, _) => Some(g@.search_id),
        SearchRun::Fusing(id, _, _) => Some(id),
        SearchRun::Reranking(id, _) => Some(id),
        SearchRun::Saving => None,
        SearchRun::Over => None,
    }
}

/// A run stays with its search, and its results are kept for that search and no other.
pub proof fn law_search_keeps_its_id(
    res: (SearchRun, Ask),
    run: SearchRun,
    strategy: Seq<char>,
    answer: Answer,
)
    requires
        run.wf(),
        is_step(res, run, strategy, answer),
    ensures
        search_of(res.0) is Some ==> search_of(res.0) == search_of(run),
        match res.1 {
            Ask::Save(id, results, _) => search_of(run) == Some(id) && forall|i: int|
                0 <= i < results@.len() ==> (#[trigger] results@[i]).search_id == id,
            _ => true,
        },
{
}

/// Whether no chunk of a search's query has a vector, as far as is known.
pub open spec fn without_vectors(run: SearchRun) -> bool {
    match run {
        SearchRun::Embedding(g) => g.embedded == 0,
        SearchRun::Lexical(g) => g.embedded == 0,
        SearchRun::LexicalCards(g, _) => g.embedded == 0,
        SearchRun::Dense(_) => false,
        SearchRun::DenseCards(_, _) => false,
        _ => true,
    }
}

/// Without an embedding service a search goes on by terms alone: where no vectors came, it never
/// asks for hits by nearness.
pub proof fn law_search_without_vectors(
    res: (SearchRun, Ask),
    run: SearchRun,
    strategy: Seq<char>,
    answer: Answer,
)
    requires
        run.wf(),
        without_vectors(run),
        is_step(res, run, strategy, answer),
        match answer {
            Answer::Embedded(Ok(count)) => count == 0,
            _ => true,
        },
    ensures
        without_vectors(res.0),
        !(res.1 is Dense),
{
}

/// Whether an answer says that a service other than the store failed.
pub open spec fn service_failed(answer: Answer) -> bool {
    match answer {
        Answer::Embedded(Err(_)) => true,
        Answer::Lexical(Err(_)) => true,
        Answer::Dense(Err(_)) => true,
        Answer::Reranked(Err(_)) => true,
        _ => false,
    }
}

/// A search goes on where embedding, looking for hits or ranking failed: a failure of one of them
/// is no failure of the search.
pub proof fn law_search_survives_services(
    res: (SearchRun, Ask),
    run: SearchRun,
    strategy: Seq<char>,
    answer: Answer,
)
    requires
        run.wf(),
        is_step(res, run, strategy, answer),
        service_failed(answer),
    ensures
        match res.1 {
            Ask::Failed(error) => error is Unrenderable || error is OutOfTurn,
            _ => true,
        },
        run is Reranking && answer is Reranked ==> res.1 is Save,
{
}

/// Whether an answer gave a hit by terms, with its score.
pub open spec fn gave_hit(answer: Answer, key: i64, score: ScoreKey) -> bool {
    answer matches Answer::Lexical(Ok(hits)) && hits@.contains((key, score))
}

/// Whether some answer gave a hit by terms, with its score.
pub open spec fn heard_hit(heard: Seq<Answer>, key: i64, score: ScoreKey) -> bool {
    exists|i: int| 0 <= i < heard.len() && gave_hit(#[trigger] heard[i], key, score)
}

/// Whether a hit is one by terms that was heard of, with the card of its id.
pub open spec fn is_heard(hit: Option<candidates::HitView>, heard: Seq<Answer>) -> bool {
    match hit {
        Some(h) => h.lexical && h.key == h.card.card_id && heard_hit(heard, h.key, h.score),
        None => true,
    }
}

/// Whether all hits for a chunk are hits by terms that were heard of.
pub open spec fn chunk_by_terms(found: candidates::FoundView, heard: Seq<Answer>) -> bool {
    &&& found.dense.len() == 0
    &&& forall|j: int| 0 <= j < found.lexical.len() ==> is_heard(#[trigger] found.lexical[j], heard)
}

/// Whether all hits are hits by terms that were heard of.
pub open spec fn only_by_terms(found: Seq<candidates::FoundView>, heard: Seq<Answer>) -> bool {
    forall|i: int| 0 <= i < found.len() ==> chunk_by_terms(#[trigger] found[i], heard)
}

/// Whether a candidate speaks for hits by terms alone, with the best of their scores.
pub open spec fn speaks_for_terms(c: Candidate, found: Seq<candidates::FoundView>) -> bool {
    let tally = candidates::tally_of(found, c.card.card_id);
    &&& tally.hits == tally.by_terms
    &&& tally.hits >= 1
    &&& c.ranks@.len() == tally.hits
    &&& c.lexical_bonus == tally.hits
    &&& tally.best == Some(c.rerank_score)
}

/// Whether candidates speak for hits by terms alone that were heard of.
pub open spec fn drawn_from(
    cs: Seq<Candidate>,
    found: Seq<candidates::FoundView>,
    heard: Seq<Answer>,
) -> bool {
    &&& only_by_terms(found, heard)
    &&& forall|i: int| 0 <= i < cs.len() ==> speaks_for_terms(#[trigger] cs[i], found)
}

/// Whether a search has come to where it is by terms alone, on what was heard.
pub open spec fn by_terms(run: SearchRun, heard: Seq<Answer>) -> bool {
    match run {
        SearchRun::Embedding(g) => g.embedded == 0 && only_by_terms(g@.found, heard),
        SearchRun::Lexical(g) => g.embedded == 0 && only_by_terms(g@.found, heard),
        SearchRun::LexicalCards(g, hits) => g.embedded == 0 && only_by_terms(g@.found, heard)
            && forall|k: int|
            0 <= k < hits@.len() ==> heard_hit(
                heard,
                (#[trigger] hits@[k]).0,
                hits@[k].1,
            ),
        SearchRun::Dense(_) => false,
        SearchRun::DenseCards(..) => false,
        SearchRun::Fusing(_, _, cs) => exists|found: Seq<candidates::FoundView>|
            only_by_terms(found, heard) && #[trigger] candidates::gathered(found) == Some(
                candidates::candidate_views(cs@),
            ),
        SearchRun::Reranking(_, cs) => exists|found: Seq<candidates::FoundView>|
            drawn_from(cs@, found, heard),
        _ => true,
    }
}

/// Whether an answer is one that comes without a service for embedding and ranking.
pub open spec fn unserved(answer: Answer) -> bool {
    match answer {
        Answer::Embedded(Ok(count)) => count == 0,
        Answer::Reranked(Ok(_)) => false,
        _ => true,
    }
}

/// Whether a card that answers a search is the one that was asked for.
pub open spec fn is_asked_card(run: SearchRun, answer: Answer) -> bool {
    match (run, answer) {
        (SearchRun::LexicalCards(g, hits), Answer::Card(Ok(Some(card)))) => card.card_id
            == hits@[g@.found[g@.at].lexical.len() as int].0,
        _ => true,
    }
}

/// Whether a result is one of hits by terms alone: as many as hits, and the best of their scores.
pub open spec fn result_by_terms(
    result: GroupedResultRecord,
    tally: candidates::Tally,
) -> bool {
    &&& tally.hits == tally.by_terms
    &&& tally.hits >= 1
    &&& result.chunk_hits == result.lexical_bonus
    &&& tally.hits <= i64::MAX ==> result.chunk_hits == tally.hits
    &&& tally.best == Some(result.rerank_score)
}

/// Whether results are those of hits by terms alone, each of the hits for its card.
pub open spec fn results_by_terms(
    results: Seq<GroupedResultRecord>,
    found: Seq<candidates::FoundView>,
) -> bool {
    forall|i: int|
        0 <= i < results.len() ==> result_by_terms(
            #[trigger] results[i],
            candidates::tally_of(found, results[i].card_id),
        )
}

proof fn lemma_more_heard(found: Seq<candidates::FoundView>, heard: Seq<Answer>, answer: Answer)
    requires
        only_by_terms(found, heard),
    ensures
        only_by_terms(found, heard.push(answer)),
{
    let more = heard.push(answer);
    assert forall|i: int| 0 <= i < found.len() implies chunk_by_terms(#[trigger] found[i], more) by {
        assert(chunk_by_terms(found[i], heard));
        assert forall|j: int| 0 <= j < found[i].lexical.len() implies is_heard(
            #[trigger] found[i].lexical[j],
            more,
        ) by {
            assert(is_heard(found[i].lexical[j], heard));
            if let Some(h) = found[i].lexical[j] {
                lemma_still_heard(heard, answer, h.key, h.score);
            }
        }
    }
}

pub proof fn lemma_still_heard(heard: Seq<Answer>, answer: Answer, key: i64, score: ScoreKey)
    ensures
        heard_hit(heard, key, score) ==> heard_hit(heard.push(answer), key, score),
        gave_hit(answer, key, score) ==> heard_hit(heard.push(answer), key, score),
{
    let more = heard.push(answer);
    if heard_hit(heard, key, score) {
        let i = choose|i: int| 0 <= i < heard.len() && gave_hit(#[trigger] heard[i], key, score);
        assert(gave_hit(more[i], key, score));
    }
    if gave_hit(answer, key, score) {
        assert(gave_hit(more[heard.len() as int], key, score));
    }
}

proof fn lemma_hits_by_terms(
    tally: candidates::Tally,
    key: i64,
    hits: Seq<Option<candidates::HitView>>,
    heard: Seq<Answer>,
)
    requires
        tally.hits == tally.by_terms,
        forall|j: int| 0 <= j < hits.len() ==> is_heard(#[trigger] hits[j], heard),
    ensures
        candidates::with_hits(tally, key, hits).hits == candidates::with_hits(
            tally,
            key,
            hits,
        ).by_terms,
    decreases hits.len(),
{
    if hits.len() > 0 {
        let fewer = hits.drop_last();
        assert forall|j: int| 0 <= j < fewer.len() implies is_heard(#[trigger] fewer[j], heard) by {
            assert(is_heard(hits[j], heard));
        }
        lemma_hits_by_terms(tally, key, fewer, heard);
        assert(is_heard(hits[hits.len() - 1], heard));
    }
}

proof fn lemma_tally_by_terms(found: Seq<candidates::FoundView>, heard: Seq<Answer>, key: i64)
    requires
        only_by_terms(found, heard),
    ensures
        candidates::tally_of(found, key).hits == candidates::tally_of(found, key).by_terms,
    decreases found.len(),
{
    if found.len() > 0 {
        let fewer = found.drop_last();
        assert forall|i: int| 0 <= i < fewer.len() implies chunk_by_terms(
            #[trigger] fewer[i],
            heard,
        ) by {
            assert(chunk_by_terms(found[i], heard));
        }
        lemma_tally_by_terms(fewer, heard, key);
        assert(chunk_by_terms(found[found.len() - 1], heard));
        lemma_hits_by_terms(
            candidates::tally_of(fewer, key),
            key,
            found.last().lexical,
            heard,
        );
        let between = candidates::with_hits(
            candidates::tally_of(fewer, key),
            key,
            found.last().lexical,
        );
        assert(candidates::with_hits(between, key, found.last().dense) == between);
    }
}

proof fn lemma_shortlist_by_terms(
    cs: Seq<Candidate>,
    fusion: Seq<ScoreKey>,
    found: Seq<candidates::FoundView>,
    heard: Seq<Answer>,
)
    requires
        only_by_terms(found, heard),
        candidates::gathered(found) == Some(candidates::candidate_views(cs)),
    ensures
        match candidates::shortlisted(candidates::fused(cs, fusion)) {
            Some(short) => drawn_from(short, found, heard),
            None => true,
        },
{
    let views = candidates::candidate_views(cs);
    let given = candidates::fused(cs, fusion);
    let by_key = |a: Candidate, b: Candidate| a.key != b.key;
    candidates::law_gathered_is_sound(found);
    assert forall|i: int| 0 <= i < found.len() implies candidates::own_hits(
        (#[trigger] found[i]).lexical,
    ) && candidates::own_hits(found[i].dense) by {
        assert(chunk_by_terms(found[i], heard));
        assert forall|j: int| 0 <= j < found[i].lexical.len() implies match (
        #[trigger] found[i].lexical[j]) {
            Some(hit) => hit.key == hit.card.card_id,
            None => true,
        } by {
            assert(is_heard(found[i].lexical[j], heard));
        }
    }
    candidates::law_gathered_under_own_keys(found);
    assert(order::pairwise(given, by_key)) by {
        assert forall|i: int, j: int| 0 <= i < j < given.len() implies by_key(
            #[trigger] given[i],
            #[trigger] given[j],
        ) by {
            assert(views[i].key != views[j].key);
        }
    }
    candidates::law_shortlist_is_drawn(given, by_key);
    match candidates::shortlisted(given) {
        Some(short) => {
            assert forall|i: int| 0 <= i < short.len() implies speaks_for_terms(
                #[trigger] short[i],
                found,
            ) by {
                assert(given.contains(short[i]));
                let m = choose|m: int| 0 <= m < given.len() && given[m] == short[i];
                assert(views[m] == cs[m]@);
                assert(candidates::tells(views[m], candidates::tally_of(found, views[m].key)));
                assert(candidates::sound_one(views[m]));
                lemma_tally_by_terms(found, heard, views[m].key);
            }
        },
        None => {},
    }
}

proof fn lemma_results_by_terms(
    search_id: i64,
    cs: Seq<Candidate>,
    found: Seq<candidates::FoundView>,
    heard: Seq<Answer>,
)
    requires
        drawn_from(cs, found, heard),
    ensures
        results_by_terms(final_results(search_id, cs, None), found),
{
    let ordered = final_candidates(cs, None);
    let results = final_results(search_id, cs, None);
    order::lemma_ranked_contains::<ByRelevance, Candidate>(cs);
    assert forall|i: int| 0 <= i < results.len() implies result_by_terms(
        #[trigger] results[i],
        candidates::tally_of(found, results[i].card_id),
    ) by {
        assert(cs.contains(ordered[i]));
        let k = choose|k: int| 0 <= k < cs.len() && cs[k] == ordered[i];
        assert(speaks_for_terms(cs[k], found));
    }
}

proof fn lemma_step_by_terms(
    res: (SearchRun, Ask),
    run: SearchRun,
    strategy: Seq<char>,
    answer: Answer,
    heard: Seq<Answer>,
)
    requires
        run.wf(),
        is_step(res, run, strategy, answer),
        by_terms(run, heard),
        unserved(answer),
        is_asked_card(run, answer),
    ensures
        by_terms(res.0, heard.push(answer)),
        match res.1 {
            Ask::Save(_, results, _) => exists|found: Seq<candidates::FoundView>|
                #![trigger only_by_terms(found, heard)]
                only_by_terms(found, heard) && results_by_terms(results@, found),
            _ => true,
        },
{
    let more = heard.push(answer);
    match (run, answer) {
        (SearchRun::Embedding(g), Answer::Embedded(_)) => {
            lemma_more_heard(g@.found, heard, answer);
        },
        (SearchRun::Lexical(g), Answer::Lexical(hits)) => {
            lemma_more_heard(g@.found, heard, answer);
            if let Ok(v) = hits {
                assert forall|k: int| 0 <= k < v@.len() implies heard_hit(
                    more,
                    (#[trigger] v@[k]).0,
                    v@[k].1,
                ) by {
                    assert(v@.contains(v@[k]));
                    lemma_still_heard(heard, answer, v@[k].0, v@[k].1);
                }
            }
        },
        (SearchRun::LexicalCards(g, hits), Answer::Card(card)) => {
            lemma_more_heard(g@.found, heard, answer);
            assert forall|k: int| 0 <= k < hits@.len() implies heard_hit(
                more,
                (#[trigger] hits@[k]).0,
                hits@[k].1,
            ) by {
                lemma_still_heard(heard, answer, hits@[k].0, hits@[k].1);
            }
            let next = g@.found[g@.at].lexical.len() as int;
            assert(g.found@[g.at as int]@ == g@.found[g@.at]);
            let (id, score) = hits@[next];
            let hit = match card {
                Ok(Some(card)) => Some(candidates::lexical_view(id, score, card)),
                _ => None,
            };
            let after = with_lexical(g@, hit);
            assert(only_by_terms(after.found, more)) by {
                assert forall|i: int| 0 <= i < after.found.len() implies chunk_by_terms(
                    #[trigger] after.found[i],
                    more,
                ) by {
                    assert(chunk_by_terms(g@.found[i], more));
                    assert forall|j: int| 0 <= j < after.found[i].lexical.len() implies is_heard(
                        #[trigger] after.found[i].lexical[j],
                        more,
                    ) by {
                        if j < g@.found[i].lexical.len() {
                            assert(after.found[i].lexical[j] == g@.found[i].lexical[j]);
                            assert(is_heard(g@.found[i].lexical[j], more));
                        } else {
                            assert(heard_hit(more, hits@[next].0, hits@[next].1));
                        }
                    }
                }
            }
        },
        (SearchRun::Fusing(_, _, cs), Answer::Fused(scores)) => {
            let found = choose|found: Seq<candidates::FoundView>|
                only_by_terms(found, heard) && #[trigger] candidates::gathered(found) == Some(
                    candidates::candidate_views(cs@),
                );
            lemma_more_heard(found, heard, answer);
            lemma_shortlist_by_terms(cs@, scores@, found, more);
        },
        (SearchRun::Reranking(search_id, cs), Answer::Reranked(_)) => {
            let found = choose|found: Seq<candidates::FoundView>| drawn_from(cs@, found, heard);
            lemma_results_by_terms(search_id, cs@, found, heard);
            assert(only_by_terms(found, heard));
        },
        (SearchRun::Opening(_), Answer::Search(_)) => {},
        (SearchRun::Reading(..), Answer::Material(_)) => {},
        _ => {},
    }
}

/// Whether a search goes through these steps on these answers, from its start.
pub open spec fn goes_through(
    steps: Seq<(SearchRun, Ask)>,
    search_id: i64,
    strategy: Seq<char>,
    answers: Seq<Answer>,
) -> bool {
    &&& steps.len() == answers.len() + 1
    &&& steps[0] == (SearchRun::Opening(search_id), Ask::Search(search_id))
    &&& forall|i: int|
        0 <= i < answers.len() ==> steps[i].0.wf() && is_step(
            #[trigger] steps[i + 1],
            steps[i].0,
            strategy,
            answers[i],
        )
}

proof fn lemma_goes_by_terms(
    steps: Seq<(SearchRun, Ask)>,
    search_id: i64,
    strategy: Seq<char>,
    answers: Seq<Answer>,
    n: int,
)
    requires
        goes_through(steps, search_id, strategy, answers),
        forall|i: int|
            0 <= i < answers.len() ==> unserved(#[trigger] answers[i]) && is_asked_card(
                steps[i].0,
                answers[i],
            ),
        0 <= n <= answers.len(),
    ensures
        by_terms(steps[n].0, answers.take(n)),
    decreases n,
{
    if n > 0 {
        lemma_goes_by_terms(steps, search_id, strategy, answers, n - 1);
        assert(answers.take(n) =~= answers.take(n - 1).push(answers[n - 1]));
        assert(is_step(steps[n - 1 + 1], steps[n - 1].0, strategy, answers[n - 1]));
        lemma_step_by_terms(
            steps[n],
            steps[n - 1].0,
            strategy,
            answers[n - 1],
            answers.take(n - 1),
        );
    }
}

/// A whole search without a service for embedding and ranking is one by terms alone: it never asks
/// for hits by nearness, and of the results that it hands over, each has as many hits as there are
/// hits by terms for its card, at least one, and the best of their scores. All those hits are hits
/// by terms that were given in answers. The cards in answers are those that were asked for.
pub proof fn law_search_by_terms_alone(
    steps: Seq<(SearchRun, Ask)>,
    search_id: i64,
    strategy: Seq<char>,
    answers: Seq<Answer>,
    n: int,
)
    requires
        goes_through(steps, search_id, strategy, answers),
        forall|i: int|
            0 <= i < answers.len() ==> unserved(#[trigger] answers[i]) && is_asked_card(
                steps[i].0,
                answers[i],
            ),
        0 <= n < steps.len(),
    ensures
        !(steps[n].1 is Dense),
        match steps[n].1 {
            Ask::Save(_, results, _) => exists|found: Seq<candidates::FoundView>|
                #![trigger only_by_terms(found, answers)]
                only_by_terms(found, answers) && results_by_terms(results@, found),
            _ => true,
        },
{
    if n > 0 {
        lemma_goes_by_terms(steps, search_id, strategy, answers, n - 1);
        let heard = answers.take(n - 1);
        assert(is_step(steps[n - 1 + 1], steps[n - 1].0, strategy, answers[n - 1]));
        lemma_step_by_terms(steps[n], steps[n - 1].0, strategy, answers[n - 1], heard);
        lemma_asks_no_nearness(steps[n], steps[n - 1].0, strategy, answers[n - 1], heard);
        if let Ask::Save(_, results, _) = steps[n].1 {
            let found = choose|found: Seq<candidates::FoundView>|
                #![trigger only_by_terms(found, heard)]
                only_by_terms(found, heard) && results_by_terms(results@, found);
            lemma_all_heard(found, heard, answers);
        }
    }
}

proof fn lemma_asks_no_nearness(
    res: (SearchRun, Ask),
    run: SearchRun,
    strategy: Seq<char>,
    answer: Answer,
    heard: Seq<Answer>,
)
    requires
        run.wf(),
        is_step(res, run, strategy, answer),
        by_terms(run, heard),
        unserved(answer),
    ensures
        !(res.1 is Dense),
{
    law_search_without_vectors(res, run, strategy, answer);
}

proof fn lemma_all_heard(
    found: Seq<candidates::FoundView>,
    heard: Seq<Answer>,
    answers: Seq<Answer>,
)
    requires
        only_by_terms(found, heard),
        heard.len() <= answers.len(),
        heard == answers.take(heard.len() as int),
    ensures
        only_by_terms(found, answers),
{
    assert forall|i: int| 0 <= i < found.len() implies chunk_by_terms(
        #[trigger] found[i],
        answers,
    ) by {
        assert(chunk_by_terms(found[i], heard));
        assert forall|j: int| 0 <= j < found[i].lexical.len() implies is_heard(
            #[trigger] found[i].lexical[j],
            answers,
        ) by {
            assert(is_heard(found[i].lexical[j], heard));
            if let Some(h) = found[i].lexical[j] {
                let k = choose|k: int|
                    0 <= k < heard.len() && gave_hit(#[trigger] heard[k], h.key, h.score);
                assert(gave_hit(answers[k], h.key, h.score));
            }
        }
    }
}

} // verus!
