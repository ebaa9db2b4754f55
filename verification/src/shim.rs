//! The embedding and ranking service in front of a language model: what it sends to the model, and
//! what it makes of the model's scores.

use std::collections::HashMap;
use vstd::prelude::*;
use crate::models::ScoreKey;
use crate::numbers;
use crate::order;
use crate::order::RankBy;
use crate::strings;

verus! {

broadcast use vstd::std_specs::hash::group_hash_axioms;

/// How many characters of a text are embedded, where texts are to be cut.
pub const MAX_INPUT_CHARS: usize = 8000;

/// How many characters of the query a prompt holds.
pub const MAX_QUERY_CHARS: usize = 4000;

/// How many characters of a candidate a prompt holds.
pub const MAX_CANDIDATE_CHARS: usize = 1200;

/// The key of the score one, the greatest that a language model may give.
pub const SCORE_ONE: ScoreKey = 0x3f80_0000;

/// What every ranking prompt starts with.
pub const RERANK_INSTRUCTIONS: &'static str = "You are reranking flashcards against study material.\nScore each candidate from 0.0 to 1.0.\nUse high scores only when the card would directly help a student study concepts, findings, tests, anatomy, pathology, or management present in the query material.\nPrefer concrete examinable facts over generic history-taking or catch-all cards when the query covers a whole curriculum.\nPenalize generic overlap, off-topic system overlap, and content-poor or image-only cards.\nReturn JSON only in this exact shape: {\"scores\":[{\"index\":0,\"score\":0.0}]}\n\n";

/// The first characters of a text, without white space at either end.
pub open spec fn truncated(s: Seq<char>, max: nat) -> Seq<char> {
    strings::trim(strings::at_most(s, max))
}

/// Cuts a text, and trims it.
pub fn truncate_chars(text: &str, max_chars: usize) -> (res: String)
    ensures
        res@ == truncated(text@, max_chars as nat),
{
    let cut = strings::first_chars(text, max_chars);
    strings::trimmed(cut.as_str())
}

/// The text behind a mark at its start that says what it is.
pub open spec fn prompt_body(s: Seq<char>) -> Seq<char> {
    if strings::starts_with(s, "query:"@) {
        strings::trim(s.skip(6))
    } else if strings::starts_with(s, "passage:"@) {
        strings::trim(s.skip(8))
    } else {
        s
    }
}

/// Whether a text marks itself as a query.
pub open spec fn marked_query(s: Seq<char>) -> bool {
    strings::starts_with(strings::trim_start(s), "query:"@)
}

/// The prompt under which a text is embedded.
pub open spec fn prompt(s: Seq<char>, is_query: bool, truncate: bool) -> Seq<char> {
    let trimmed = if truncate {
        truncated(s, MAX_INPUT_CHARS as nat)
    } else {
        strings::trim(s)
    };
    let prefix = if is_query || marked_query(s) {
        "search_query:"@
    } else {
        "search_document:"@
    };
    prefix + " "@ + prompt_body(trimmed)
}

/// Writes the prompt under which a text is embedded: its own mark gives way to the one that the
/// embedding model knows.
pub fn adapt_prompt_prefix(text: &str, is_query: bool, truncate: bool) -> (res: String)
    ensures
        res@ == prompt(text@, is_query, truncate),
{
    let trimmed = if truncate {
        truncate_chars(text, MAX_INPUT_CHARS)
    } else {
        strings::trimmed(text)
    };
    proof {
        reveal_strlit("query:");
        reveal_strlit("passage:");
    }
    let body = if strings::has_prefix(trimmed.as_str(), "query:") {
        let rest = strings::without_first(trimmed.as_str(), 6);
        strings::trimmed(rest.as_str())
    } else if strings::has_prefix(trimmed.as_str(), "passage:") {
        let rest = strings::without_first(trimmed.as_str(), 8);
        strings::trimmed(rest.as_str())
    } else {
        trimmed
    };
    let start = strings::start_trimmed(text);
    let mut res = if is_query || strings::has_prefix(start.as_str(), "query:") {
        strings::copy("search_query:")
    } else {
        strings::copy("search_document:")
    };
    res.append(" ");
    res.append(body.as_str());
    res
}

/// The prompts under which a list of texts is embedded.
pub open spec fn prompts(texts: Seq<Seq<char>>, is_query: bool, truncate: bool) -> Seq<Seq<char>> {
    Seq::new(texts.len(), |i: int| prompt(texts[i], is_query, truncate))
}

/// Writes the prompts under which a list of texts is embedded.
pub fn adapt_all(texts: &Vec<String>, is_query: bool, truncate: bool) -> (res: Vec<String>)
    ensures
        strings::texts(res@) == prompts(strings::texts(texts@), is_query, truncate),
{
    let ghost expected = prompts(strings::texts(texts@), is_query, truncate);
    let mut res: Vec<String> = Vec::new();
    for i in 0..texts.len()
        invariant
            expected == prompts(strings::texts(texts@), is_query, truncate),
            strings::texts(res@) == expected.take(i as int),
    {
        let ghost before = strings::texts(res@);
        let adapted = adapt_prompt_prefix(texts[i].as_str(), is_query, truncate);
        let ghost added = adapted@;
        res.push(adapted);
        assert(strings::texts(res@) =~= before.push(added));
        assert(expected.take(i + 1) =~= expected.take(i as int).push(expected[i as int]));
    }
    assert(expected.take(expected.len() as int) =~= expected);
    res
}

/// What a prompt says of one candidate.
pub open spec fn candidate_line(texts: Seq<Seq<char>>, index: usize) -> Seq<char> {
    "["@ + numbers::digits(index as nat) + "] "@ + truncated(
        texts[index as int],
        MAX_CANDIDATE_CHARS as nat,
    ) + "\n"@
}

/// What a prompt says of the selected candidates.
pub open spec fn candidate_lines(texts: Seq<Seq<char>>, selected: Seq<usize>) -> Seq<char>
    decreases selected.len(),
{
    if selected.len() == 0 {
        Seq::empty()
    } else {
        candidate_lines(texts, selected.drop_last()) + candidate_line(texts, selected.last())
    }
}

/// The prompt that asks a language model to score the selected candidates against a query.
pub open spec fn rerank_prompt(
    query: Seq<char>,
    texts: Seq<Seq<char>>,
    selected: Seq<usize>,
) -> Seq<char> {
    RERANK_INSTRUCTIONS@ + "Query material:\n"@ + truncated(query, MAX_QUERY_CHARS as nat)
        + "\n\nCandidates:\n"@ + candidate_lines(texts, selected)
}

/// Writes the prompt that asks a language model to score the selected candidates.
pub fn build_llm_rerank_prompt(query: &str, texts: &Vec<String>, selected_indices: &Vec<usize>) -> (res: String)
    requires
        forall|i: int|
            0 <= i < selected_indices@.len() ==> #[trigger] selected_indices@[i] < texts@.len(),
    ensures
        res@ == rerank_prompt(query@, strings::texts(texts@), selected_indices@),
{
    let mut res = strings::copy(RERANK_INSTRUCTIONS);
    res.append("Query material:\n");
    let cut = truncate_chars(query, MAX_QUERY_CHARS);
    res.append(cut.as_str());
    res.append("\n\nCandidates:\n");
    let ghost head = res@;
    let ghost all = strings::texts(texts@);
    let ghost chosen = selected_indices@;
    assert(head + candidate_lines(all, chosen.take(0)) =~= head);
    for i in 0..selected_indices.len()
        invariant
            all == strings::texts(texts@),
            chosen == selected_indices@,
            forall|k: int| 0 <= k < chosen.len() ==> #[trigger] chosen[k] < texts@.len(),
            res@ == head + candidate_lines(all, chosen.take(i as int)),
    {
        let index: usize = selected_indices[i];
        assert(chosen.take(i + 1).drop_last() =~= chosen.take(i as int));
        assert(chosen[i as int] < texts@.len());
        let ghost before = res@;
        res.append("[");
        numbers::push_digits(&mut res, index as u64);
        res.append("] ");
        let line = truncate_chars(texts[index].as_str(), MAX_CANDIDATE_CHARS);
        res.append(line.as_str());
        res.append("\n");
        assert(res@ =~= before + candidate_line(all, index));
        assert(res@ =~= head + (candidate_lines(all, chosen.take(i as int)) + candidate_line(
            all,
            index,
        )));
    }
    assert(chosen.take(chosen.len() as int) =~= chosen);
    res
}

/// A list in parts of `size`, the last one as long as is left.
pub open spec fn batched(s: Seq<usize>, size: nat) -> Seq<Seq<usize>>
    decreases s.len(),
{
    if s.len() == 0 || size == 0 {
        Seq::empty()
    } else if s.len() <= size {
        seq![s]
    } else {
        seq![s.take(size as int)] + batched(s.skip(size as int), size)
    }
}

/// The members of a list of lists.
pub open spec fn batch_views(v: Seq<Vec<usize>>) -> Seq<Seq<usize>> {
    Seq::new(v.len(), |i: int| v[i]@)
}

/// Splits the selected candidates into batches; a batch size of zero counts as one.
pub fn batches(selected: &Vec<usize>, batch_size: usize) -> (res: Vec<Vec<usize>>)
    ensures
        batch_views(res@) == batched(
            selected@,
            if batch_size == 0 {
                1
            } else {
                batch_size as nat
            },
        ),
{
    let size: usize = if batch_size == 0 {
        1
    } else {
        batch_size
    };
    let n: usize = selected.len();
    let mut start: usize = 0;
    let mut res: Vec<Vec<usize>> = Vec::new();
    assert(selected@.skip(0) =~= selected@);
    assert(batch_views(res@) + batched(selected@, size as nat) =~= batched(selected@, size as nat));
    while start < n
        invariant
            n == selected@.len(),
            start <= n,
            size > 0,
            batch_views(res@) + batched(selected@.skip(start as int), size as nat) == batched(
                selected@,
                size as nat,
            ),
        decreases n - start,
    {
        let ghost rest = selected@.skip(start as int);
        let ghost before = batch_views(res@);
        let end: usize = if size < n - start {
            start + size
        } else {
            n
        };
        let mut batch: Vec<usize> = Vec::new();
        for i in start..end
            invariant
                start <= end <= n,
                n == selected@.len(),
                batch@ == selected@.subrange(start as int, i as int),
        {
            batch.push(selected[i]);
            assert(batch@ =~= selected@.subrange(start as int, i + 1));
        }
        let ghost added = batch@;
        assert(added =~= rest.take(end - start));
        res.push(batch);
        assert(batch_views(res@) =~= before.push(added));
        assert(rest.skip(end - start) =~= selected@.skip(end as int));
        if end == n {
            assert(added =~= rest);
            assert(batch_views(res@) + batched(selected@.skip(end as int), size as nat) =~= before
                + batched(rest, size as nat));
        } else {
            assert(batch_views(res@) + batched(selected@.skip(end as int), size as nat) =~= before
                + batched(rest, size as nat));
        }
        start = end;
    }
    assert(batch_views(res@) + batched(selected@.skip(n as int), size as nat) =~= batch_views(
        res@,
    ));
    res
}

/// The members of a list of lists, one list behind the other.
pub open spec fn flattened(batches: Seq<Seq<usize>>) -> Seq<usize>
    decreases batches.len(),
{
    if batches.len() == 0 {
        Seq::empty()
    } else {
        batches[0] + flattened(batches.skip(1))
    }
}

/// The batches hold every selected candidate once, in order; none is empty, and none is longer
/// than allowed.
pub proof fn law_batches(s: Seq<usize>, size: nat)
    requires
        size > 0,
    ensures
        flattened(batched(s, size)) == s,
        forall|i: int|
            0 <= i < batched(s, size).len() ==> 0 < (#[trigger] batched(s, size)[i]).len() <= size,
    decreases s.len(),
{
    if s.len() == 0 {
        assert(flattened(batched(s, size)) =~= s);
    } else if s.len() <= size {
        assert(batched(s, size).skip(1) =~= Seq::<Seq<usize>>::empty());
        assert(flattened(Seq::<Seq<usize>>::empty()) =~= Seq::<usize>::empty());
        assert(flattened(batched(s, size)) =~= s);
    } else {
        let rest = s.skip(size as int);
        law_batches(rest, size);
        assert(batched(s, size).skip(1) =~= batched(rest, size));
        assert(flattened(batched(s, size)) =~= s);
        assert forall|i: int| 0 <= i < batched(s, size).len() implies 0 < (#[trigger] batched(
            s,
            size,
        )[i]).len() <= size by {
            if i > 0 {
                assert(batched(s, size)[i] == batched(rest, size)[i - 1]);
            }
        }
    }
}

/// A score within the bounds that a language model must keep to.
pub open spec fn clamped(score: ScoreKey) -> ScoreKey {
    if score < 0 {
        0
    } else if score > SCORE_ONE {
        SCORE_ONE
    } else {
        score
    }
}

/// The scores after a language model's answer for a batch: scores for candidates that are not of
/// the batch are ignored, and of several scores for one candidate the last one counts.
pub open spec fn scores_after(
    scores: Map<usize, ScoreKey>,
    batch: Seq<usize>,
    items: Seq<(usize, ScoreKey)>,
) -> Map<usize, ScoreKey>
    decreases items.len(),
{
    if items.len() == 0 {
        scores
    } else {
        let front = scores_after(scores, batch, items.drop_last());
        let (index, score) = items.last();
        if batch.contains(index) {
            front.insert(index, clamped(score))
        } else {
            front
        }
    }
}

fn in_batch(batch: &Vec<usize>, index: usize) -> (res: bool)
    ensures
        res == batch@.contains(index),
{
    for i in 0..batch.len()
        invariant
            forall|j: int| 0 <= j < i ==> batch@[j] != index,
    {
        if batch[i] == index {
            assert(batch@[i as int] == index);
            return true;
        }
    }
    false
}

/// Takes a language model's answer for a batch in.
pub fn take_scores(
    scores: &mut HashMap<usize, ScoreKey>,
    batch: &Vec<usize>,
    items: &Vec<(usize, ScoreKey)>,
)
    ensures
        final(scores)@ == scores_after(old(scores)@, batch@, items@),
{
    let ghost start = scores@;
    for i in 0..items.len()
        invariant
            scores@ == scores_after(start, batch@, items@.take(i as int)),
    {
        assert(items@.take(i + 1).drop_last() =~= items@.take(i as int));
        let (index, score) = items[i];
        if in_batch(batch, index) {
            let bounded: ScoreKey = if score < 0 {
                0
            } else if score > SCORE_ONE {
                SCORE_ONE
            } else {
                score
            };
            scores.insert(index, bounded);
        }
    }
    assert(items@.take(items@.len() as int) =~= items@);
}

/// A language model's answers give scores to selected candidates only, and only from zero to one.
pub proof fn law_scores_are_bounded(
    scores: Map<usize, ScoreKey>,
    batch: Seq<usize>,
    items: Seq<(usize, ScoreKey)>,
)
    requires
        forall|k: usize| #[trigger] scores.contains_key(k) ==> 0 <= scores[k] <= SCORE_ONE,
    ensures
        forall|k: usize| #[trigger]
            scores_after(scores, batch, items).contains_key(k) ==> 0 <= scores_after(
                scores,
                batch,
                items,
            )[k] <= SCORE_ONE && (scores.contains_key(k) || batch.contains(k)),
    decreases items.len(),
{
    if items.len() > 0 {
        law_scores_are_bounded(scores, batch, items.drop_last());
        let front = scores_after(scores, batch, items.drop_last());
        assert forall|k: usize| #[trigger]
            scores_after(scores, batch, items).contains_key(k) implies 0 <= scores_after(
            scores,
            batch,
            items,
        )[k] <= SCORE_ONE && (scores.contains_key(k) || batch.contains(k)) by {
            assert(front.contains_key(k) || k == items.last().0);
        }
    }
}

/// A text that was ranked, by its place, and its score.
#[derive(Debug, Clone, Copy, PartialEq, Eq, Structural)]
pub struct RerankItem {
    pub index: usize,
    pub score: ScoreKey,
}

/// Ranking by score.
pub struct ByScore;

impl RankBy<ByScore> for RerankItem {
    open spec fn may_precede(self, other: Self) -> bool {
        self.score >= other.score
    }

    proof fn total(a: Self, b: Self) {
    }

    proof fn transitive(a: Self, b: Self, c: Self) {
    }

    fn precedes(&self, other: &Self) -> (res: bool) {
        self.score >= other.score
    }
}

/// Ranks texts by their scores, the greatest first.
pub fn rank_items(items: Vec<RerankItem>) -> (res: Vec<RerankItem>)
    ensures
        res@ == order::ranked::<ByScore, RerankItem>(items@),
{
    order::rank::<ByScore, RerankItem>(items)
}

/// The places of the first `top_n` items.
pub fn top_indices(items: &Vec<RerankItem>, top_n: usize) -> (res: Vec<usize>)
    ensures
        res@ == Seq::new(
            order::first_n(items@, top_n as nat).len(),
            |i: int| items@[i].index,
        ),
{
    let n: usize = if top_n < items.len() {
        top_n
    } else {
        items.len()
    };
    let mut res: Vec<usize> = Vec::new();
    for i in 0..n
        invariant
            n <= items@.len(),
            res@ == Seq::new(i as nat, |k: int| items@[k].index),
    {
        res.push(items[i].index);
        assert(res@ =~= Seq::new((i + 1) as nat, |k: int| items@[k].index));
    }
    assert(res@ =~= Seq::new(
        order::first_n(items@, top_n as nat).len(),
        |i: int| items@[i].index,
    ));
    res
}

/// Texts that are ranked each against its own query.
#[derive(Debug, Clone)]
pub enum PairInputs {
    /// There is nothing to rank.
    Nothing,
    /// There are not as many queries as texts.
    Mismatch,
    /// The prompts of the queries, and those of the texts.
    Pairs(Vec<String>, Vec<String>),
}

/// What is said where there are not as many queries as texts.
pub const LENGTH_MISMATCH: &'static str = "queries/texts length mismatch";

/// Prepares texts that are ranked each against its own query.
pub fn rerank_pairs(queries: &Vec<String>, texts: &Vec<String>, truncate: bool) -> (res: PairInputs)
    ensures
        match res {
            PairInputs::Nothing => texts@.len() == 0 || queries@.len() == 0,
            PairInputs::Mismatch => texts@.len() > 0 && queries@.len() > 0 && texts@.len()
                != queries@.len(),
            PairInputs::Pairs(q, t) => {
                &&& texts@.len() == queries@.len()
                &&& texts@.len() > 0
                &&& strings::texts(q@) == prompts(strings::texts(queries@), true, truncate)
                &&& strings::texts(t@) == prompts(strings::texts(texts@), false, truncate)
            },
        },
{
    if texts.len() == 0 || queries.len() == 0 {
        PairInputs::Nothing
    } else if texts.len() != queries.len() {
        PairInputs::Mismatch
    } else {
        PairInputs::Pairs(adapt_all(queries, true, truncate), adapt_all(texts, false, truncate))
    }
}

/// The first of a list of settings that is set and not blank, trimmed.
pub open spec fn first_set(values: Seq<Option<Seq<char>>>) -> Option<Seq<char>>
    decreases values.len(),
{
    if values.len() == 0 {
        None
    } else {
        match values[0] {
            Some(value) => if strings::trim(value).len() > 0 {
                Some(strings::trim(value))
            } else {
                first_set(values.skip(1))
            },
            None => first_set(values.skip(1)),
        }
    }
}

/// The texts of a list of settings.
pub open spec fn setting_texts(values: Seq<Option<String>>) -> Seq<Option<Seq<char>>> {
    Seq::new(
        values.len(),
        |i: int|
            match values[i] {
                Some(value) => Some(value@),
                None => None,
            },
    )
}

/// Finds the first of a list of settings that is set and not blank.
pub fn optional_env(values: &Vec<Option<String>>) -> (res: Option<String>)
    ensures
        match (first_set(setting_texts(values@)), res) {
            (Some(value), Some(text)) => text@ == value,
            (None, None) => true,
            _ => false,
        },
{
    let ghost all = setting_texts(values@);
    assert(all.skip(0) =~= all);
    for i in 0..values.len()
        invariant
            all == setting_texts(values@),
            first_set(all) == first_set(all.skip(i as int)),
    {
        assert(all.skip(i as int)[0] == all[i as int]);
        assert(all.skip(i as int).skip(1) =~= all.skip(i + 1));
        match &values[i] {
            Some(value) => {
                let text = strings::trimmed(value.as_str());
                if !text.as_str().is_empty() {
                    return Some(text);
                }
            },
            None => {},
        }
    }
    None
}

} // verus!
