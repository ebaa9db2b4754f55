//! A run of the ranking service: what is asked of the embedding model and of the language model,
//! step by step, and what becomes of their answers.

use std::collections::HashMap;
use vstd::prelude::*;
use crate::models::ScoreKey;
use crate::order;
use crate::shim;
use crate::shim::{ByScore, PairInputs, RerankItem};
use crate::strings;

verus! {

broadcast use vstd::std_specs::hash::group_hash_axioms;

/// How texts are ranked.
#[derive(Debug, Clone, Copy, PartialEq, Eq, Structural)]
pub struct RerankSettings {
    /// Whether a language model scores the best texts.
    pub llm: bool,
    /// How many texts the language model scores.
    pub top_n: usize,
    /// How many texts the language model scores at a time.
    pub batch_size: usize,
}

/// Why a ranking failed.
#[derive(Debug, Clone)]
pub enum RerankError {
    /// There are not as many queries as texts.
    Mismatch,
    /// The query got no vector.
    MissingQuery,
    /// A query and its text did not get two vectors.
    MalformedPair,
    /// A text that is not there was to be scored.
    OutOfRange,
    /// An answer came to another question than was asked.
    OutOfTurn,
    /// A model could not be asked, with the reason.
    Service(String),
}

impl RerankError {
    /// The message of the error.
    pub open spec fn text(self) -> Seq<char> {
        match self {
            RerankError::Mismatch => shim::LENGTH_MISMATCH@,
            RerankError::MissingQuery => "missing query embedding"@,
            RerankError::MalformedPair => "pair rerank embedding response malformed"@,
            RerankError::OutOfRange => "candidate out of range"@,
            RerankError::OutOfTurn => "answer out of turn"@,
            RerankError::Service(reason) => reason@,
        }
    }

    /// Says why the ranking failed.
    pub fn message(&self) -> (res: String)
        ensures
            res@ == self.text(),
    {
        match self {
            RerankError::Mismatch => strings::copy(shim::LENGTH_MISMATCH),
            RerankError::MissingQuery => strings::copy("missing query embedding"),
            RerankError::MalformedPair => strings::copy("pair rerank embedding response malformed"),
            RerankError::OutOfRange => strings::copy("candidate out of range"),
            RerankError::OutOfTurn => strings::copy("answer out of turn"),
            RerankError::Service(reason) => reason.clone(),
        }
    }
}

/// Texts to be ranked against one query.
pub struct RerankJob {
    pub query: String,
    pub texts: Vec<String>,
}

/// Texts that a language model scores, batch by batch.
pub struct Scoring {
    pub job: RerankJob,
    /// The texts in the order of their nearness.
    pub items: Vec<RerankItem>,
    pub batches: Vec<Vec<usize>>,
    /// The batch whose scores were asked for.
    pub at: usize,
    /// The scores so far.
    pub scores: HashMap<usize, ScoreKey>,
}

/// Texts to be ranked each against its own query.
pub struct Pairing {
    /// The prompts of the queries.
    pub queries: Vec<String>,
    /// The prompts of the texts.
    pub texts: Vec<String>,
    /// The items so far.
    pub items: Vec<RerankItem>,
}

/// Where a ranking stands.
pub enum RerankRun {
    /// The vector of the query was asked for; whether texts are cut.
    Querying(RerankJob, bool),
    /// The vectors of the texts were asked for.
    Embedding(RerankJob),
    /// The nearness of each text to the query was asked for.
    Comparing(RerankJob),
    /// Scores of a batch were asked for.
    Scoring(Scoring),
    /// Scores made of nearness and the language model's scores were asked for, for these items; the
    /// language model's score for each of them, where it gave one.
    Blending(Vec<RerankItem>, Vec<Option<ScoreKey>>),
    /// The vectors of a query and its text were asked for.
    PairEmbedding(Pairing),
    /// The nearness of a query and its text was asked for.
    PairComparing(Pairing),
    /// The language model's score for a text was asked for; its nearness.
    PairScoring(Pairing, ScoreKey),
    /// A score made of nearness and the language model's score was asked for.
    PairBlending(Pairing),
    /// Nothing more will be asked.
    Over,
}

/// What a ranking asks for.
pub enum RerankAsk {
    /// Vectors for these prompts.
    Embed(Vec<String>),
    /// The nearness of each of the vectors that came last to the vector that came before them; of
    /// two that came together, the nearness of one to the other.
    Compare,
    /// The language model's answer to a prompt.
    Score(String),
    /// For each nearness, a score made of it and of the language model's score where there is one.
    Blend(Vec<(ScoreKey, Option<ScoreKey>)>),
    /// Nothing: these are the ranked texts.
    Done(Vec<RerankItem>),
    /// Nothing: the ranking failed.
    Failed(RerankError),
}

/// What a ranking is answered.
pub enum RerankAnswer {
    /// How many vectors came.
    Embedded(Result<usize, String>),
    Compared(Vec<ScoreKey>),
    /// The scores in the language model's answer, by the places of the texts.
    Scored(Result<Vec<(usize, ScoreKey)>, String>),
    Blended(Vec<ScoreKey>),
}

impl RerankRun {
    /// Whether there is a batch, or a pair, that the answer will be for.
    pub open spec fn wf(self) -> bool {
        match self {
            RerankRun::Scoring(s) => s.at < s.batches@.len() && in_range(s),
            RerankRun::Blending(items, given) => items@.len() == given@.len(),
            RerankRun::PairEmbedding(p) => p.wf(),
            RerankRun::PairComparing(p) => p.wf(),
            RerankRun::PairScoring(p, _) => p.wf(),
            RerankRun::PairBlending(p) => p.wf(),
            _ => true,
        }
    }
}

impl Pairing {
    /// Whether there are as many queries as texts, and one more than items.
    pub open spec fn wf(self) -> bool {
        self.queries@.len() == self.texts@.len() && self.items@.len() < self.texts@.len()
    }
}

/// Whether every text of every batch is there.
pub open spec fn in_range(s: Scoring) -> bool {
    forall|b: int, i: int|
        0 <= b < s.batches@.len() && 0 <= i < s.batches@[b]@.len() ==> #[trigger] s.batches@[b]@[i]
            < s.job.texts@.len()
}

/// Whether a step ends a ranking with an error.
pub open spec fn fails(res: (RerankRun, RerankAsk), error: RerankError) -> bool {
    res.0 is Over && res.1 == RerankAsk::Failed(error)
}

fn fail(error: RerankError) -> (res: (RerankRun, RerankAsk))
    ensures
        fails(res, error),
        res.0.wf(),
{
    (RerankRun::Over, RerankAsk::Failed(error))
}

/// Whether a step ends a ranking with these items, the greatest score first.
pub open spec fn ends(res: (RerankRun, RerankAsk), items: Seq<RerankItem>) -> bool {
    res.0 is Over && match res.1 {
        RerankAsk::Done(ranked) => ranked@ == order::ranked::<ByScore, RerankItem>(items),
        _ => false,
    }
}

fn end(items: Vec<RerankItem>) -> (res: (RerankRun, RerankAsk))
    ensures
        ends(res, items@),
        res.0.wf(),
{
    (RerankRun::Over, RerankAsk::Done(shim::rank_items(items)))
}

/// The texts by their places, each with its score.
pub open spec fn items_of(scores: Seq<ScoreKey>) -> Seq<RerankItem> {
    Seq::new(scores.len(), |i: int| RerankItem { index: i as usize, score: scores[i] })
}

fn to_items(scores: &Vec<ScoreKey>) -> (res: Vec<RerankItem>)
    ensures
        res@ == items_of(scores@),
{
    let mut res: Vec<RerankItem> = Vec::new();
    for i in 0..scores.len()
        invariant
            res@ == items_of(scores@).take(i as int),
    {
        res.push(RerankItem { index: i, score: scores[i] });
        assert(res@ =~= items_of(scores@).take(i + 1));
    }
    assert(res@ =~= items_of(scores@));
    res
}

/// The language model's score for each item, where it gave one.
pub open spec fn given_scores(items: Seq<RerankItem>, scores: Map<usize, ScoreKey>) -> Seq<
    Option<ScoreKey>,
> {
    Seq::new(
        items.len(),
        |i: int|
            if scores.contains_key(items[i].index) {
                Some(scores[items[i].index])
            } else {
                None
            },
    )
}

/// The nearness of each item, with the language model's score for it.
pub open spec fn to_blend(items: Seq<RerankItem>, given: Seq<Option<ScoreKey>>) -> Seq<
    (ScoreKey, Option<ScoreKey>),
> {
    Seq::new(items.len(), |i: int| (items[i].score, given[i]))
}

/// Whether a step asks for the scores of the next batch, or for blended scores where there is none.
pub open spec fn asks_batch(
    res: (RerankRun, RerankAsk),
    query: Seq<char>,
    texts: Seq<Seq<char>>,
    items: Seq<RerankItem>,
    batches: Seq<Seq<usize>>,
    at: int,
    scores: Map<usize, ScoreKey>,
) -> bool {
    if at < batches.len() {
        match res {
            (RerankRun::Scoring(s), RerankAsk::Score(prompt)) => {
                &&& s.job.query@ == query
                &&& strings::texts(s.job.texts@) == texts
                &&& s.items@ == items
                &&& shim::batch_views(s.batches@) == batches
                &&& s.at == at
                &&& s.scores@ == scores
                &&& prompt@ == shim::rerank_prompt(query, texts, batches[at])
            },
            _ => false,
        }
    } else {
        match res {
            (RerankRun::Blending(now, given), RerankAsk::Blend(pairs)) => {
                &&& now@ == items
                &&& given@ == given_scores(items, scores)
                &&& pairs@ == to_blend(items, given@)
            },
            _ => false,
        }
    }
}

fn ask_batch(s: Scoring) -> (res: (RerankRun, RerankAsk))
    requires
        s.at <= s.batches@.len(),
        in_range(s),
    ensures
        asks_batch(
            res,
            s.job.query@,
            strings::texts(s.job.texts@),
            s.items@,
            shim::batch_views(s.batches@),
            s.at as int,
            s.scores@,
        ),
        res.0.wf(),
{
    if s.at < s.batches.len() {
        let prompt = shim::build_llm_rerank_prompt(
            s.job.query.as_str(),
            &s.job.texts,
            &s.batches[s.at],
        );
        assert(shim::batch_views(s.batches@)[s.at as int] == s.batches@[s.at as int]@);
        (RerankRun::Scoring(s), RerankAsk::Score(prompt))
    } else {
        let mut given: Vec<Option<ScoreKey>> = Vec::new();
        let mut pairs: Vec<(ScoreKey, Option<ScoreKey>)> = Vec::new();
        let ghost expected = given_scores(s.items@, s.scores@);
        for i in 0..s.items.len()
            invariant
                expected == given_scores(s.items@, s.scores@),
                given@ == expected.take(i as int),
                pairs@ == to_blend(s.items@, expected).take(i as int),
        {
            let item = s.items[i];
            let score: Option<ScoreKey> = match s.scores.get(&item.index) {
                Some(score) => Some(*score),
                None => None,
            };
            assert(score == expected[i as int]);
            given.push(score);
            pairs.push((item.score, score));
            assert(given@ =~= expected.take(i + 1));
            assert(pairs@ =~= to_blend(s.items@, expected).take(i + 1));
        }
        assert(given@ =~= expected);
        assert(pairs@ =~= to_blend(s.items@, expected));
        (RerankRun::Blending(s.items, given), RerankAsk::Blend(pairs))
    }
}

/// The places of the texts that a language model scores.
pub open spec fn selected(items: Seq<RerankItem>, top_n: nat) -> Seq<usize> {
    Seq::new(order::first_n(items, top_n).len(), |i: int| items[i].index)
}

/// Whether a step is the right one after the nearness of every text came.
pub open spec fn after_comparison(
    res: (RerankRun, RerankAsk),
    settings: RerankSettings,
    job: RerankJob,
    scores: Seq<ScoreKey>,
) -> bool {
    let items = order::ranked::<ByScore, RerankItem>(items_of(scores));
    let chosen = selected(items, settings.top_n as nat);
    if !settings.llm {
        res.0 is Over && match res.1 {
            RerankAsk::Done(ranked) => ranked@ == items,
            _ => false,
        }
    } else if exists|i: int| 0 <= i < chosen.len() && #[trigger] chosen[i] >= job.texts@.len() {
        fails(res, RerankError::OutOfRange)
    } else {
        asks_batch(
            res,
            job.query@,
            strings::texts(job.texts@),
            items,
            shim::batched(
                chosen,
                if settings.batch_size == 0 {
                    1
                } else {
                    settings.batch_size as nat
                },
            ),
            0,
            Map::empty(),
        )
    }
}

proof fn lemma_batches_in_range(s: Seq<usize>, size: nat, n: int)
    requires
        size > 0,
        forall|i: int| 0 <= i < s.len() ==> #[trigger] s[i] < n,
    ensures
        forall|b: int, i: int|
            0 <= b < shim::batched(s, size).len() && 0 <= i < shim::batched(s, size)[b].len()
                ==> #[trigger] shim::batched(s, size)[b][i] < n,
    decreases s.len(),
{
    if s.len() > size {
        let rest = s.skip(size as int);
        assert forall|i: int| 0 <= i < rest.len() implies #[trigger] rest[i] < n by {
            assert(rest[i] == s[i + size]);
        }
        lemma_batches_in_range(rest, size, n);
        assert forall|b: int, i: int|
            0 <= b < shim::batched(s, size).len() && 0 <= i < shim::batched(
                s,
                size,
            )[b].len() implies #[trigger] shim::batched(s, size)[b][i] < n by {
            if b == 0 {
                assert(shim::batched(s, size)[0][i] == s[i]);
            } else {
                assert(shim::batched(s, size)[b] == shim::batched(rest, size)[b - 1]);
            }
        }
    } else if s.len() > 0 {
        assert(shim::batched(s, size)[0] == s);
    }
}

fn compared(settings: RerankSettings, job: RerankJob, scores: Vec<ScoreKey>) -> (res: (
    RerankRun,
    RerankAsk,
))
    ensures
        after_comparison(res, settings, job, scores@),
        res.0.wf(),
{
    let items = shim::rank_items(to_items(&scores));
    if !settings.llm {
        return (RerankRun::Over, RerankAsk::Done(items));
    }
    let chosen = shim::top_indices(&items, settings.top_n);
    assert(chosen@ =~= selected(items@, settings.top_n as nat));
    let n: usize = job.texts.len();
    for i in 0..chosen.len()
        invariant
            n == job.texts@.len(),
            settings.llm,
            items@ == order::ranked::<ByScore, RerankItem>(items_of(scores@)),
            chosen@ == selected(items@, settings.top_n as nat),
            forall|j: int| 0 <= j < i ==> #[trigger] chosen@[j] < n,
    {
        if chosen[i] >= n {
            assert(chosen@[i as int] >= job.texts@.len());
            return fail(RerankError::OutOfRange);
        }
    }
    let batches = shim::batches(&chosen, settings.batch_size);
    let s = Scoring { job, items, batches, at: 0, scores: HashMap::new() };
    proof {
        let size = if settings.batch_size == 0 {
            1
        } else {
            settings.batch_size as nat
        };
        lemma_batches_in_range(chosen@, size, n as int);
        assert forall|b: int, i: int|
            0 <= b < s.batches@.len() && 0 <= i < s.batches@[b]@.len() implies #[trigger] s.batches@[b]@[i]
            < s.job.texts@.len() by {
            assert(shim::batch_views(s.batches@)[b] == s.batches@[b]@);
            assert(shim::batched(chosen@, size)[b][i] < n);
        }
        assert(s.scores@ =~= Map::<usize, ScoreKey>::empty());
    }
    ask_batch(s)
}

/// Items with new scores: those that the language model scored, as far as new scores are given.
pub open spec fn blended(
    items: Seq<RerankItem>,
    given: Seq<Option<ScoreKey>>,
    scores: Seq<ScoreKey>,
) -> Seq<RerankItem> {
    Seq::new(
        items.len(),
        |i: int|
            if given[i] is Some && i < scores.len() {
                RerankItem { index: items[i].index, score: scores[i] }
            } else {
                items[i]
            },
    )
}

fn with_blended(items: Vec<RerankItem>, given: &Vec<Option<ScoreKey>>, scores: &Vec<ScoreKey>) -> (res: Vec<
    RerankItem,
>)
    requires
        items@.len() == given@.len(),
    ensures
        res@ == blended(items@, given@, scores@),
{
    let mut res: Vec<RerankItem> = Vec::new();
    for i in 0..items.len()
        invariant
            items@.len() == given@.len(),
            res@ == blended(items@, given@, scores@).take(i as int),
    {
        let item = if given[i].is_some() && i < scores.len() {
            RerankItem { index: items[i].index, score: scores[i] }
        } else {
            items[i]
        };
        res.push(item);
        assert(res@ =~= blended(items@, given@, scores@).take(i + 1));
    }
    assert(res@ =~= blended(items@, given@, scores@));
    res
}

/// Whether a step starts a ranking of texts against one query.
pub open spec fn starts(
    res: (RerankRun, RerankAsk),
    query: Seq<char>,
    texts: Seq<Seq<char>>,
    truncate: bool,
) -> bool {
    if texts.len() == 0 {
        ends(res, Seq::empty())
    } else {
        match res {
            (RerankRun::Querying(job, cut), RerankAsk::Embed(prompts)) => {
                &&& job.query@ == query
                &&& strings::texts(job.texts@) == texts
                &&& cut == truncate
                &&& strings::texts(prompts@) == seq![shim::prompt(query, true, truncate)]
            },
            _ => false,
        }
    }
}

/// Starts a ranking of texts against one query.
pub fn start_rerank(query: String, texts: Vec<String>, truncate: bool) -> (res: (
    RerankRun,
    RerankAsk,
))
    ensures
        starts(res, query@, strings::texts(texts@), truncate),
        res.0.wf(),
{
    if texts.len() == 0 {
        return end(Vec::new());
    }
    let prompt = shim::adapt_prompt_prefix(query.as_str(), true, truncate);
    let mut prompts: Vec<String> = Vec::new();
    let ghost said = prompt@;
    prompts.push(prompt);
    assert(strings::texts(prompts@) =~= seq![said]);
    (RerankRun::Querying(RerankJob { query, texts }, truncate), RerankAsk::Embed(prompts))
}

/// Whether a step asks for the vectors of the next query and its text, or ends where there is
/// none.
pub open spec fn asks_pair(
    res: (RerankRun, RerankAsk),
    queries: Seq<Seq<char>>,
    texts: Seq<Seq<char>>,
    items: Seq<RerankItem>,
) -> bool {
    if items.len() < texts.len() {
        match res {
            (RerankRun::PairEmbedding(p), RerankAsk::Embed(prompts)) => {
                &&& strings::texts(p.queries@) == queries
                &&& strings::texts(p.texts@) == texts
                &&& p.items@ == items
                &&& strings::texts(prompts@) == seq![
                    queries[items.len() as int],
                    texts[items.len() as int],
                ]
            },
            _ => false,
        }
    } else {
        ends(res, items)
    }
}

fn ask_pair(p: Pairing) -> (res: (RerankRun, RerankAsk))
    requires
        p.queries@.len() == p.texts@.len(),
        p.items@.len() <= p.texts@.len(),
    ensures
        asks_pair(res, strings::texts(p.queries@), strings::texts(p.texts@), p.items@),
        res.0.wf(),
{
    let at: usize = p.items.len();
    if at < p.texts.len() {
        let mut prompts: Vec<String> = Vec::new();
        prompts.push(p.queries[at].clone());
        prompts.push(p.texts[at].clone());
        assert(strings::texts(prompts@) =~= seq![
            strings::texts(p.queries@)[at as int],
            strings::texts(p.texts@)[at as int],
        ]);
        (RerankRun::PairEmbedding(p), RerankAsk::Embed(prompts))
    } else {
        end(p.items)
    }
}

/// Starts a ranking of texts each against its own query.
pub fn start_rerank_pairs(queries: &Vec<String>, texts: &Vec<String>, truncate: bool) -> (res: (
    RerankRun,
    RerankAsk,
))
    ensures
        if texts@.len() == 0 || queries@.len() == 0 {
            ends(res, Seq::empty())
        } else if texts@.len() != queries@.len() {
            fails(res, RerankError::Mismatch)
        } else {
            asks_pair(
                res,
                shim::prompts(strings::texts(queries@), true, truncate),
                shim::prompts(strings::texts(texts@), false, truncate),
                Seq::empty(),
            )
        },
        res.0.wf(),
{
    match shim::rerank_pairs(queries, texts, truncate) {
        PairInputs::Nothing => end(Vec::new()),
        PairInputs::Mismatch => fail(RerankError::Mismatch),
        PairInputs::Pairs(q, t) => {
            assert(strings::texts(q@).len() == q@.len());
            assert(strings::texts(t@).len() == t@.len());
            ask_pair(Pairing { queries: q, texts: t, items: Vec::new() })
        },
    }
}

/// The items with one more: the next text, with its score.
pub open spec fn with_item(items: Seq<RerankItem>, score: ScoreKey) -> Seq<RerankItem> {
    items.push(RerankItem { index: items.len() as usize, score })
}

/// Whether a step goes on with the next pair once the score of the present one is known.
pub open spec fn goes_on(res: (RerankRun, RerankAsk), p: Pairing, score: ScoreKey) -> bool {
    asks_pair(
        res,
        strings::texts(p.queries@),
        strings::texts(p.texts@),
        with_item(p.items@, score),
    )
}

fn go_on(p: Pairing, score: ScoreKey) -> (res: (RerankRun, RerankAsk))
    requires
        p.wf(),
    ensures
        goes_on(res, p, score),
        res.0.wf(),
{
    let mut p = p;
    let index: usize = p.items.len();
    p.items.push(RerankItem { index, score });
    ask_pair(p)
}

/// Whether two pairings are the same.
pub open spec fn same_pairing(a: Pairing, b: Pairing) -> bool {
    &&& strings::texts(a.queries@) == strings::texts(b.queries@)
    &&& strings::texts(a.texts@) == strings::texts(b.texts@)
    &&& a.items@ == b.items@
}

/// Whether a step is the right one after the nearness of a query and its text came.
pub open spec fn after_pair_comparison(
    res: (RerankRun, RerankAsk),
    settings: RerankSettings,
    p: Pairing,
    scores: Seq<ScoreKey>,
) -> bool {
    let at = p.items@.len() as int;
    if scores.len() == 0 {
        fails(res, RerankError::OutOfTurn)
    } else if settings.llm {
        match res {
            (RerankRun::PairScoring(now, score), RerankAsk::Score(prompt)) => {
                &&& same_pairing(now, p)
                &&& score == scores[0]
                &&& prompt@ == shim::rerank_prompt(
                    p.queries@[at]@,
                    seq![p.texts@[at]@],
                    seq![0usize],
                )
            },
            _ => false,
        }
    } else {
        goes_on(res, p, scores[0])
    }
}

fn pair_compared(settings: RerankSettings, p: Pairing, scores: Vec<ScoreKey>) -> (res: (
    RerankRun,
    RerankAsk,
))
    requires
        p.wf(),
    ensures
        after_pair_comparison(res, settings, p, scores@),
        res.0.wf(),
{
    if scores.len() == 0 {
        return fail(RerankError::OutOfTurn);
    }
    let score: ScoreKey = scores[0];
    if settings.llm {
        let at: usize = p.items.len();
        let mut texts: Vec<String> = Vec::new();
        texts.push(p.texts[at].clone());
        let mut selected: Vec<usize> = Vec::new();
        selected.push(0);
        assert(strings::texts(texts@) =~= seq![p.texts@[at as int]@]);
        assert(selected@ =~= seq![0usize]);
        let prompt = shim::build_llm_rerank_prompt(p.queries[at].as_str(), &texts, &selected);
        (RerankRun::PairScoring(p, score), RerankAsk::Score(prompt))
    } else {
        go_on(p, score)
    }
}

/// The language model's score for the one text of a batch, if its answer gives one.
pub open spec fn only_score(items: Seq<(usize, ScoreKey)>) -> Option<ScoreKey> {
    let scores = shim::scores_after(Map::empty(), seq![0usize], items);
    if scores.contains_key(0) {
        Some(scores[0])
    } else {
        None
    }
}

fn read_only_score(items: &Vec<(usize, ScoreKey)>) -> (res: Option<ScoreKey>)
    ensures
        res == only_score(items@),
{
    let mut scores: HashMap<usize, ScoreKey> = HashMap::new();
    let mut batch: Vec<usize> = Vec::new();
    batch.push(0);
    assert(scores@ =~= Map::<usize, ScoreKey>::empty());
    assert(batch@ =~= seq![0usize]);
    shim::take_scores(&mut scores, &batch, items);
    match scores.get(&0) {
        Some(score) => Some(*score),
        None => None,
    }
}

/// Whether a step is the right one after the language model's answer for a text came.
pub open spec fn after_pair_score(
    res: (RerankRun, RerankAsk),
    p: Pairing,
    nearness: ScoreKey,
    answer: Result<Vec<(usize, ScoreKey)>, String>,
) -> bool {
    match answer {
        Err(reason) => fails(res, RerankError::Service(reason)),
        Ok(items) => match only_score(items@) {
            None => goes_on(res, p, nearness),
            Some(score) => match res {
                (RerankRun::PairBlending(now), RerankAsk::Blend(pairs)) => same_pairing(now, p)
                    && pairs@ == seq![(nearness, Some(score))],
                _ => false,
            },
        },
    }
}

fn pair_scored(
    p: Pairing,
    nearness: ScoreKey,
    answer: Result<Vec<(usize, ScoreKey)>, String>,
) -> (res: (RerankRun, RerankAsk))
    requires
        p.wf(),
    ensures
        after_pair_score(res, p, nearness, answer),
        res.0.wf(),
{
    match answer {
        Err(reason) => fail(RerankError::Service(reason)),
        Ok(items) => match read_only_score(&items) {
            None => go_on(p, nearness),
            Some(score) => {
                let mut pairs: Vec<(ScoreKey, Option<ScoreKey>)> = Vec::new();
                pairs.push((nearness, Some(score)));
                assert(pairs@ =~= seq![(nearness, Some(score))]);
                (RerankRun::PairBlending(p), RerankAsk::Blend(pairs))
            },
        },
    }
}

/// Whether a step is the right one after a batch was scored.
pub open spec fn after_batch(
    res: (RerankRun, RerankAsk),
    s: Scoring,
    answer: Result<Vec<(usize, ScoreKey)>, String>,
) -> bool {
    match answer {
        Err(reason) => fails(res, RerankError::Service(reason)),
        Ok(items) => asks_batch(
            res,
            s.job.query@,
            strings::texts(s.job.texts@),
            s.items@,
            shim::batch_views(s.batches@),
            s.at + 1,
            shim::scores_after(s.scores@, s.batches@[s.at as int]@, items@),
        ),
    }
}

fn batch_scored(s: Scoring, answer: Result<Vec<(usize, ScoreKey)>, String>) -> (res: (
    RerankRun,
    RerankAsk,
))
    requires
        s.at < s.batches@.len(),
        in_range(s),
    ensures
        after_batch(res, s, answer),
        res.0.wf(),
{
    match answer {
        Err(reason) => fail(RerankError::Service(reason)),
        Ok(items) => {
            let mut s = s;
            shim::take_scores(&mut s.scores, &s.batches[s.at], &items);
            assert(s.at < s.batches.len());
            s.at = s.at + 1;
            ask_batch(s)
        },
    }
}

/// Whether a step is the right one after vectors came.
pub open spec fn after_embedding(
    res: (RerankRun, RerankAsk),
    run: RerankRun,
    answer: Result<usize, String>,
) -> bool {
    match answer {
        Err(reason) => fails(res, RerankError::Service(reason)),
        Ok(count) => match run {
            RerankRun::Querying(job, truncate) => if count == 0 {
                fails(res, RerankError::MissingQuery)
            } else {
                match res {
                    (RerankRun::Embedding(now), RerankAsk::Embed(prompts)) => now == job
                        && strings::texts(prompts@) == shim::prompts(
                        strings::texts(job.texts@),
                        false,
                        truncate,
                    ),
                    _ => false,
                }
            },
            RerankRun::Embedding(job) => res == (RerankRun::Comparing(job), RerankAsk::Compare),
            RerankRun::PairEmbedding(p) => if count != 2 {
                fails(res, RerankError::MalformedPair)
            } else {
                res == (RerankRun::PairComparing(p), RerankAsk::Compare)
            },
            _ => fails(res, RerankError::OutOfTurn),
        },
    }
}

fn embedded(run: RerankRun, answer: Result<usize, String>) -> (res: (RerankRun, RerankAsk))
    requires
        run.wf(),
    ensures
        after_embedding(res, run, answer),
        res.0.wf(),
{
    match answer {
        Err(reason) => fail(RerankError::Service(reason)),
        Ok(count) => match run {
            RerankRun::Querying(job, truncate) => {
                if count == 0 {
                    return fail(RerankError::MissingQuery);
                }
                let prompts = shim::adapt_all(&job.texts, false, truncate);
                (RerankRun::Embedding(job), RerankAsk::Embed(prompts))
            },
            RerankRun::Embedding(job) => (RerankRun::Comparing(job), RerankAsk::Compare),
            RerankRun::PairEmbedding(p) => {
                if count != 2 {
                    return fail(RerankError::MalformedPair);
                }
                (RerankRun::PairComparing(p), RerankAsk::Compare)
            },
            _ => fail(RerankError::OutOfTurn),
        },
    }
}

/// Whether a step of a ranking is the right one after an answer.
pub open spec fn is_step(
    res: (RerankRun, RerankAsk),
    run: RerankRun,
    settings: RerankSettings,
    answer: RerankAnswer,
) -> bool {
    match (run, answer) {
        (run, RerankAnswer::Embedded(count)) => after_embedding(res, run, count),
        (RerankRun::Comparing(job), RerankAnswer::Compared(scores)) => after_comparison(
            res,
            settings,
            job,
            scores@,
        ),
        (RerankRun::PairComparing(p), RerankAnswer::Compared(scores)) => after_pair_comparison(
            res,
            settings,
            p,
            scores@,
        ),
        (RerankRun::Scoring(s), RerankAnswer::Scored(items)) => after_batch(res, s, items),
        (RerankRun::PairScoring(p, nearness), RerankAnswer::Scored(items)) => after_pair_score(
            res,
            p,
            nearness,
            items,
        ),
        (RerankRun::Blending(items, given), RerankAnswer::Blended(scores)) => ends(
            res,
            blended(items@, given@, scores@),
        ),
        (RerankRun::PairBlending(p), RerankAnswer::Blended(scores)) => if scores@.len() == 0 {
            fails(res, RerankError::OutOfTurn)
        } else {
            goes_on(res, p, scores@[0])
        },
        _ => fails(res, RerankError::OutOfTurn),
    }
}

/// Takes an answer in and says what to ask for next.
pub fn rerank(run: RerankRun, settings: RerankSettings, answer: RerankAnswer) -> (res: (
    RerankRun,
    RerankAsk,
))
    requires
        run.wf(),
    ensures
        is_step(res, run, settings, answer),
        res.0.wf(),
{
    match (run, answer) {
        (run, RerankAnswer::Embedded(count)) => embedded(run, count),
        (RerankRun::Comparing(job), RerankAnswer::Compared(scores)) => compared(
            settings,
            job,
            scores,
        ),
        (RerankRun::PairComparing(p), RerankAnswer::Compared(scores)) => pair_compared(
            settings,
            p,
            scores,
        ),
        (RerankRun::Scoring(s), RerankAnswer::Scored(items)) => batch_scored(s, items),
        (RerankRun::PairScoring(p, nearness), RerankAnswer::Scored(items)) => pair_scored(
            p,
            nearness,
            items,
        ),
        (RerankRun::Blending(items, given), RerankAnswer::Blended(scores)) => end(
            with_blended(items, &given, &scores),
        ),
        (RerankRun::PairBlending(p), RerankAnswer::Blended(scores)) => {
            if scores.len() == 0 {
                return fail(RerankError::OutOfTurn);
            }
            go_on(p, scores[0])
        },
        _ => fail(RerankError::OutOfTurn),
    }
}

/// Whatever comes out of a ranking is in order: no text has a greater score than one before it.
pub proof fn law_rerank_is_ranked(
    res: (RerankRun, RerankAsk),
    run: RerankRun,
    settings: RerankSettings,
    answer: RerankAnswer,
)
    requires
        run.wf(),
        is_step(res, run, settings, answer),
    ensures
        match res.1 {
            RerankAsk::Done(items) => order::is_ranked::<ByScore, RerankItem>(items@),
            _ => true,
        },
{
    match (run, answer) {
        (RerankRun::Comparing(_), RerankAnswer::Compared(scores)) => {
            order::law_ranked::<ByScore, RerankItem>(items_of(scores@));
        },
        (RerankRun::PairComparing(p), RerankAnswer::Compared(scores)) => {
            order::law_ranked::<ByScore, RerankItem>(with_item(p.items@, scores@[0]));
        },
        (RerankRun::PairScoring(p, nearness), RerankAnswer::Scored(_)) => {
            order::law_ranked::<ByScore, RerankItem>(with_item(p.items@, nearness));
        },
        (RerankRun::Blending(items, given), RerankAnswer::Blended(scores)) => {
            order::law_ranked::<ByScore, RerankItem>(blended(items@, given@, scores@));
        },
        (RerankRun::PairBlending(p), RerankAnswer::Blended(scores)) => {
            order::law_ranked::<ByScore, RerankItem>(with_item(p.items@, scores@[0]));
        },
        _ => {},
    }
}

/// Without a language model a ranking goes by nearness alone: no prompt is ever written.
pub proof fn law_rerank_without_llm(
    res: (RerankRun, RerankAsk),
    run: RerankRun,
    settings: RerankSettings,
    answer: RerankAnswer,
)
    requires
        run.wf(),
        !settings.llm,
        !(run is Scoring),
        is_step(res, run, settings, answer),
    ensures
        !(res.1 is Score),
        !(res.0 is Scoring),
{
}

/// Every text that is ranked against its own query is ranked once: the items so far are those of
/// the first texts, in order.
pub proof fn law_pairs_in_order(
    res: (RerankRun, RerankAsk),
    run: RerankRun,
    settings: RerankSettings,
    answer: RerankAnswer,
)
    requires
        run.wf(),
        is_step(res, run, settings, answer),
        pair_items(run) matches Some(items) ==> numbered(items),
    ensures
        pair_items(res.0) matches Some(items) ==> numbered(items),
{
    match run {
        RerankRun::PairComparing(p) => assert(p.items.len() <= usize::MAX),
        RerankRun::PairScoring(p, _) => assert(p.items.len() <= usize::MAX),
        RerankRun::PairBlending(p) => assert(p.items.len() <= usize::MAX),
        _ => {},
    }
}

/// The items of a ranking of texts each against its own query.
pub open spec fn pair_items(run: RerankRun) -> Option<Seq<RerankItem>> {
    match run {
        RerankRun::PairEmbedding(p) => Some(p.items@),
        RerankRun::PairComparing(p) => Some(p.items@),
        RerankRun::PairScoring(p, _) => Some(p.items@),
        RerankRun::PairBlending(p) => Some(p.items@),
        _ => None,
    }
}

/// Whether items are those of the first texts, in order.
pub open spec fn numbered(items: Seq<RerankItem>) -> bool {
    forall|i: int| 0 <= i < items.len() ==> (#[trigger] items[i]).index == i
}

/// Whether items are those of `n` texts, each of them once: their places are the numbers below `n`
/// in some order.
pub open spec fn permutes(items: Seq<RerankItem>, n: int) -> bool {
    &&& items.len() == n
    &&& forall|i: int| 0 <= i < items.len() ==> (#[trigger] items[i]).index < n
    &&& forall|i: int, j: int|
        0 <= i < j < items.len() ==> (#[trigger] items[i]).index != (#[trigger] items[j]).index
}

/// Whether a ranking is one of `n` texts and has lost none of them.
pub open spec fn keeps_all(run: RerankRun, n: int) -> bool {
    match run {
        RerankRun::Querying(job, _) => job.texts@.len() == n,
        RerankRun::Embedding(job) => job.texts@.len() == n,
        RerankRun::Comparing(job) => job.texts@.len() == n,
        RerankRun::Scoring(s) => permutes(s.items@, n),
        RerankRun::Blending(items, _) => permutes(items@, n),
        RerankRun::PairEmbedding(p) => p.texts@.len() == n && numbered(p.items@),
        RerankRun::PairComparing(p) => p.texts@.len() == n && numbered(p.items@),
        RerankRun::PairScoring(p, _) => p.texts@.len() == n && numbered(p.items@),
        RerankRun::PairBlending(p) => p.texts@.len() == n && numbered(p.items@),
        RerankRun::Over => true,
    }
}

proof fn lemma_ranked_permutes(items: Seq<RerankItem>, n: int)
    requires
        permutes(items, n),
    ensures
        permutes(order::ranked::<ByScore, RerankItem>(items), n),
{
    let apart = |a: RerankItem, b: RerankItem| a.index != b.index;
    let ranked = order::ranked::<ByScore, RerankItem>(items);
    assert(order::pairwise(items, apart)) by {
        assert forall|i: int, j: int| 0 <= i < j < items.len() implies apart(
            #[trigger] items[i],
            #[trigger] items[j],
        ) by {
            assert(items[i].index != items[j].index);
        }
    }
    order::law_ranked::<ByScore, RerankItem>(items);
    order::law_ranked_keeps_apart::<ByScore, RerankItem>(items, apart);
    assert forall|i: int| 0 <= i < ranked.len() implies (#[trigger] ranked[i]).index < n by {
        assert(items.contains(ranked[i]));
        let k = choose|k: int| 0 <= k < items.len() && items[k] == ranked[i];
        assert(items[k].index < n);
    }
    assert forall|i: int, j: int| 0 <= i < j < ranked.len() implies (#[trigger] ranked[i]).index
        != (#[trigger] ranked[j]).index by {
        assert(apart(ranked[i], ranked[j]));
    }
}

proof fn lemma_pair_permutes(p: Pairing, score: ScoreKey, n: int)
    requires
        p.wf(),
        p.texts@.len() == n,
        numbered(p.items@),
    ensures
        numbered(with_item(p.items@, score)),
        with_item(p.items@, score).len() == n ==> permutes(
            order::ranked::<ByScore, RerankItem>(with_item(p.items@, score)),
            n,
        ),
{
    assert(p.items.len() <= usize::MAX);
    let items = with_item(p.items@, score);
    assert forall|i: int| 0 <= i < items.len() implies (#[trigger] items[i]).index == i by {
        if i < p.items@.len() {
            assert(items[i] == p.items@[i]);
        }
    }
    if items.len() == n {
        assert(permutes(items, n));
        lemma_ranked_permutes(items, n);
    }
}

/// A ranking loses no text and repeats none: from its start to its end, and whether or not a
/// language model's scores are blended in, the places of its items are those of the texts in some
/// order. Of every text a nearness must have come.
pub proof fn law_rerank_ranks_every_text(
    res: (RerankRun, RerankAsk),
    run: RerankRun,
    settings: RerankSettings,
    answer: RerankAnswer,
    n: int,
)
    requires
        run.wf(),
        is_step(res, run, settings, answer),
        keeps_all(run, n),
        run is Comparing ==> (answer matches RerankAnswer::Compared(scores) ==> scores@.len() == n),
    ensures
        keeps_all(res.0, n),
        match res.1 {
            RerankAsk::Done(items) => permutes(items@, n),
            _ => true,
        },
{
    match (run, answer) {
        (RerankRun::Comparing(_), RerankAnswer::Compared(scores)) => {
            assert(scores.len() <= usize::MAX);
            assert(permutes(items_of(scores@), n));
            lemma_ranked_permutes(items_of(scores@), n);
        },
        (RerankRun::PairComparing(p), RerankAnswer::Compared(scores)) => {
            assert(strings::texts(p.texts@).len() == p.texts@.len());
            lemma_pair_permutes(p, scores@[0], n);
            lemma_pair_texts(res);
        },
        (RerankRun::PairScoring(p, nearness), RerankAnswer::Scored(_)) => {
            assert(strings::texts(p.texts@).len() == p.texts@.len());
            lemma_pair_permutes(p, nearness, n);
            lemma_pair_texts(res);
        },
        (RerankRun::Blending(items, given), RerankAnswer::Blended(scores)) => {
            let after = blended(items@, given@, scores@);
            assert forall|i: int| 0 <= i < after.len() implies (#[trigger] after[i]).index
                == items@[i].index by {}
            assert(permutes(after, n));
            lemma_ranked_permutes(after, n);
        },
        (RerankRun::PairBlending(p), RerankAnswer::Blended(scores)) => {
            assert(strings::texts(p.texts@).len() == p.texts@.len());
            lemma_pair_permutes(p, scores@[0], n);
            lemma_pair_texts(res);
        },
        _ => {},
    }
}

proof fn lemma_pair_texts(res: (RerankRun, RerankAsk))
    ensures
        match res.0 {
            RerankRun::PairEmbedding(q) => strings::texts(q.texts@).len() == q.texts@.len(),
            RerankRun::PairScoring(q, _) => strings::texts(q.texts@).len() == q.texts@.len(),
            RerankRun::PairBlending(q) => strings::texts(q.texts@).len() == q.texts@.len(),
            _ => true,
        },
{
}

/// A ranking starts with every text.
pub proof fn law_rerank_starts_with_all(
    res: (RerankRun, RerankAsk),
    query: Seq<char>,
    texts: Seq<Seq<char>>,
    truncate: bool,
)
    requires
        starts(res, query, texts, truncate),
    ensures
        keeps_all(res.0, texts.len() as int),
        match res.1 {
            RerankAsk::Done(items) => permutes(items@, texts.len() as int),
            _ => true,
        },
{
    match res.0 {
        RerankRun::Querying(job, _) => {
            assert(strings::texts(job.texts@).len() == job.texts@.len());
        },
        _ => {},
    }
}

} // verus!
