//! What the services in front of the models and the index make of what they are given.

use vstd::prelude::*;
use crate::chars;
use crate::evidence;
use crate::external;
use crate::external::{DenseHitView, IdValue, QdrantPoint};
use crate::models::ScoreKey;
use crate::numbers;
use crate::order;
use crate::rerank;
use crate::shim;
use crate::shim::{ByScore, RerankItem};
use crate::strings;

verus! {

/// What stands in a text with white space alone around it, and neither starts nor ends with white
/// space, is the trimmed text.
pub proof fn law_trim_is_what_is_left(a: Seq<char>, kept: Seq<char>, b: Seq<char>)
    requires
        strings::all_white(a),
        strings::all_white(b),
        kept.len() > 0 ==> !chars::white_space(kept[0]) && !chars::white_space(kept.last()),
    ensures
        strings::trim(a + kept + b) == kept,
{
    let whole = a + kept + b;
    let res = strings::trim(whole);
    strings::law_trim(whole);
    let i = choose|i: int|
        #![trigger whole.subrange(i, i + res.len())]
        0 <= i && i + res.len() <= whole.len() && whole.subrange(i, i + res.len()) == res
            && strings::all_white(whole.take(i)) && strings::all_white(whole.skip(i + res.len()));
    if kept.len() == 0 {
        assert forall|k: int| 0 <= k < whole.len() implies chars::white_space(
            #[trigger] whole[k],
        ) by {
            if k < a.len() {
                assert(a[k] == whole[k]);
            } else {
                assert(b[k - a.len()] == whole[k]);
            }
        }
        assert(res =~= kept);
    } else {
        let first = a.len() as int;
        let last = first + kept.len() - 1;
        assert(whole[first] == kept[0] && whole[last] == kept.last());
        if i > first {
            assert(whole.take(i)[first] == whole[first]);
        }
        if i + res.len() <= last {
            let n = i + res.len();
            assert(whole.skip(n)[last - n] == whole[last]);
        }
        assert(res.len() > 0);
        assert(whole.subrange(i, i + res.len())[0] == whole[i]);
        assert(whole.subrange(i, i + res.len())[res.len() - 1] == whole[i + res.len() - 1]);
        if i < first {
            assert(a[i] == whole[i]);
        }
        if i + res.len() - 1 > last {
            let j = i + res.len() - 1;
            assert(b[j - last - 1] == whole[j]);
        }
        assert(res =~= kept);
    }
}

/// White space at the ends of a text makes no difference to what is left of it.
proof fn lemma_trim_of_trim_end(s: Seq<char>)
    ensures
        strings::trim(strings::trim_end(s)) == strings::trim(s),
        strings::trim(strings::trim(s)) == strings::trim(s),
{
    let none = Seq::<char>::empty();
    let kept = strings::trim(s);
    strings::law_trim(s);
    let i = choose|i: int|
        #![trigger s.subrange(i, i + kept.len())]
        0 <= i && i + kept.len() <= s.len() && s.subrange(i, i + kept.len()) == kept
            && strings::all_white(s.take(i)) && strings::all_white(s.skip(i + kept.len()));
    law_trim_is_what_is_left(none, kept, none);
    assert(none + kept + none =~= kept);
    let short = strings::trim_end(s);
    strings::lemma_trim_end_blank(s);
    let m = short.len() as int;
    if kept.len() == 0 {
        assert(strings::all_white(s));
        assert(short =~= none);
        strings::law_trim(none);
        assert(strings::trim(none) =~= none);
        assert(kept =~= none);
    } else {
        let last = i + kept.len() - 1;
        assert(s[last] == kept.last());
        if m <= last {
            assert(s.skip(m)[last - m] == s[last]);
        }
        let tail = short.skip(i + kept.len());
        assert(short =~= s.take(i) + kept + tail);
        assert forall|k: int| 0 <= k < tail.len() implies chars::white_space(#[trigger] tail[k]) by {
            assert(s.skip(i + kept.len())[k] == tail[k]);
        }
        law_trim_is_what_is_left(s.take(i), kept, tail);
    }
}

/// A text that is stored for the index is embedded as a document, and a text that is looked for as
/// a query: its own mark gives way to the one of the embedding model, and the white space around
/// the text is left off.
pub proof fn law_marks_give_way(x: Seq<char>, is_query: bool)
    ensures
        shim::prompt("passage: "@ + x, false, false) == "search_document: "@ + strings::trim(x),
        shim::prompt("query: "@ + x, is_query, false) == "search_query: "@ + strings::trim(x),
{
    reveal_strlit("passage: ");
    reveal_strlit("query: ");
    reveal_strlit("passage:");
    reveal_strlit("query:");
    reveal_strlit("search_document:");
    reveal_strlit("search_document: ");
    reveal_strlit("search_query:");
    reveal_strlit("search_query: ");
    reveal_strlit(" ");
    assert("search_document: "@ =~= "search_document:"@ + " "@);
    assert("search_query: "@ =~= "search_query:"@ + " "@);
    assert("passage: "@ =~= "passage:"@.push(' '));
    assert("query: "@ =~= "query:"@.push(' '));
    lemma_marked(x, "passage:"@, "passage: "@ + x);
    lemma_marked(x, "query:"@, "query: "@ + x);
    let p = "passage: "@ + x;
    let q = "query: "@ + x;
    assert(p[0] == 'p' && q[0] == 'q');
    assert(strings::trim_start(p) == p);
    assert(strings::trim_start(q) == q);
    assert(q.take(6) =~= "query:"@);
    assert(p.take(6)[0] != "query:"@[0]);
    let tp = strings::trim(p);
    let tq = strings::trim(q);
    assert(tp.take(6)[0] != "query:"@[0]);
    assert(tp.take(8) =~= "passage:"@);
    assert(tq.take(6) =~= "query:"@);
}

/// What is left of a marked text is the mark and what is left behind it.
proof fn lemma_marked(x: Seq<char>, mark: Seq<char>, s: Seq<char>)
    requires
        mark.len() > 0,
        forall|i: int| 0 <= i < mark.len() ==> !chars::white_space(#[trigger] mark[i]),
        s == mark.push(' ') + x,
    ensures
        strings::trim(s).len() >= mark.len(),
        strings::trim(s).take(mark.len() as int) == mark,
        strings::trim(strings::trim(s).skip(mark.len() as int)) == strings::trim(x),
{
    let n = mark.len() as int;
    assert(s[0] == mark[0]);
    assert(strings::trim_start(s) == s);
    let short = strings::trim_end(s);
    strings::lemma_trim_end_blank(s);
    let m = short.len() as int;
    if m < n {
        assert(s.skip(m)[n - 1 - m] == mark[n - 1]);
    }
    assert(short.take(n) =~= mark);
    let rest = s.skip(n);
    assert(rest =~= seq![' '] + x);
    lemma_trim_end_skips(s, n);
    lemma_trim_of_trim_end(rest);
    strings::law_trim(x);
    let kept = strings::trim(x);
    let i = choose|i: int|
        #![trigger x.subrange(i, i + kept.len())]
        0 <= i && i + kept.len() <= x.len() && x.subrange(i, i + kept.len()) == kept
            && strings::all_white(x.take(i)) && strings::all_white(x.skip(i + kept.len()));
    let head = seq![' '] + x.take(i);
    let tail = x.skip(i + kept.len());
    assert(rest =~= head + kept + tail);
    assert forall|k: int| 0 <= k < head.len() implies chars::white_space(#[trigger] head[k]) by {
        if k > 0 {
            assert(x.take(i)[k - 1] == head[k]);
        }
    }
    law_trim_is_what_is_left(head, kept, tail);
}

/// Trimming the end of a text trims the end of what is behind a start that ends in no white space.
proof fn lemma_trim_end_skips(s: Seq<char>, n: int)
    requires
        0 < n <= s.len(),
        !chars::white_space(s[n - 1]),
    ensures
        strings::trim_end(s).len() >= n,
        strings::trim_end(s).skip(n) == strings::trim_end(s.skip(n)),
    decreases s.len(),
{
    if s.len() > n {
        assert(s.skip(n).last() == s.last());
        assert(s.skip(n).drop_last() =~= s.drop_last().skip(n));
        if chars::white_space(s.last()) {
            lemma_trim_end_skips(s.drop_last(), n);
        }
    } else {
        assert(s.skip(n) =~= Seq::<char>::empty());
    }
}

/// Whether a line of a prompt shows a candidate: its number in brackets, and the start of its text
/// without white space at either end.
pub open spec fn is_candidate_line(line: Seq<char>, texts: Seq<Seq<char>>, index: usize) -> bool {
    line == "["@ + numbers::digits(index as nat) + "] "@ + strings::trim(
        strings::at_most(texts[index as int], 1200),
    ) + "\n"@
}

/// A prompt for ranking has the instructions, the start of the query, and a line for each of the
/// selected candidates, in order, and nothing else.
pub proof fn law_prompt_shows_candidates(
    query: Seq<char>,
    texts: Seq<Seq<char>>,
    selected: Seq<usize>,
)
    ensures
        exists|lines: Seq<Seq<char>>, all: Seq<char>, at: Seq<int>| #[trigger]
            strings::laid_out(all, lines, Seq::empty(), at) && lines.len() == selected.len() && (
            forall|i: int|
                0 <= i < lines.len() ==> is_candidate_line(#[trigger] lines[i], texts, selected[i]))
                && shim::rerank_prompt(query, texts, selected) == shim::RERANK_INSTRUCTIONS@
                + "Query material:\n"@ + strings::trim(strings::at_most(query, 4000))
                + "\n\nCandidates:\n"@ + all,
{
    let lines = Seq::new(
        selected.len(),
        |i: int| shim::candidate_line(texts, selected[i]),
    );
    let none = Seq::<char>::empty();
    lemma_lines_joined(texts, selected);
    strings::law_join(lines, none);
    let all = strings::join(lines, none);
    let at = choose|at: Seq<int>| #[trigger] strings::laid_out(all, lines, none, at);
    assert(strings::laid_out(all, lines, Seq::empty(), at));
    assert forall|i: int| 0 <= i < lines.len() implies is_candidate_line(
        #[trigger] lines[i],
        texts,
        selected[i],
    ) by {}
}

proof fn lemma_lines_joined(texts: Seq<Seq<char>>, selected: Seq<usize>)
    ensures
        shim::candidate_lines(texts, selected) == strings::join(
            Seq::new(selected.len(), |i: int| shim::candidate_line(texts, selected[i])),
            Seq::empty(),
        ),
    decreases selected.len(),
{
    let lines = Seq::new(selected.len(), |i: int| shim::candidate_line(texts, selected[i]));
    let none = Seq::<char>::empty();
    if selected.len() > 0 {
        let front = selected.drop_last();
        let fewer = Seq::new(front.len(), |i: int| shim::candidate_line(texts, front[i]));
        lemma_lines_joined(texts, front);
        assert(lines.drop_last() =~= fewer);
        if selected.len() == 1 {
            assert(shim::candidate_lines(texts, front) =~= none);
            assert(shim::candidate_lines(texts, selected) =~= lines[0]);
        } else {
            assert(strings::join(fewer, none) + none =~= strings::join(fewer, none));
        }
    }
}

/// Whether a score is another one brought within the bounds from zero to one.
pub open spec fn is_within_bounds(score: ScoreKey, given: ScoreKey) -> bool {
    &&& 0 <= score <= 0x3f80_0000
    &&& 0 <= given <= 0x3f80_0000 ==> score == given
    &&& given < 0 ==> score == 0
    &&& given > 0x3f80_0000 ==> score == 0x3f80_0000
}

/// A language model's answer for a batch gives each candidate of the batch that it scores the last
/// score in it, brought within bounds, and changes the score of no other.
pub proof fn law_scores_taken_in(
    scores: Map<usize, ScoreKey>,
    batch: Seq<usize>,
    items: Seq<(usize, ScoreKey)>,
    k: usize,
)
    ensures
        ({
            let after = shim::scores_after(scores, batch, items);
            if batch.contains(k) && evidence::given_to(items, k as int) {
                after.contains_key(k) && exists|t: int| #[trigger]
                    evidence::last_for(items, k as int, t) && is_within_bounds(
                        after[k],
                        items[t].1,
                    )
            } else {
                after.contains_key(k) == scores.contains_key(k) && (scores.contains_key(k)
                    ==> after[k] == scores[k])
            }
        }),
    decreases items.len(),
{
    if items.len() > 0 {
        let front = items.drop_last();
        let last = items.len() - 1;
        let after = shim::scores_after(scores, batch, items);
        law_scores_taken_in(scores, batch, front, k);
        assert(items.last() == items[last]);
        if items[last].0 == k {
            assert(evidence::given_to(items, k as int));
            if batch.contains(k) {
                assert(evidence::last_for(items, k as int, last) && is_within_bounds(
                    after[k],
                    items[last].1,
                ));
            }
        } else if evidence::given_to(front, k as int) {
            let w = choose|t: int| 0 <= t < front.len() && (#[trigger] front[t]).0 == k as int;
            assert(items[w].0 == k as int);
            if batch.contains(k) {
                let before = shim::scores_after(scores, batch, front);
                let t = choose|t: int| #[trigger]
                    evidence::last_for(front, k as int, t) && is_within_bounds(
                        before[k],
                        front[t].1,
                    );
                assert(items[t] == front[t]);
                assert forall|u: int| t < u < items.len() implies (#[trigger] items[u]).0
                    != k as int by {
                    if u < last {
                        assert(front[u] == items[u]);
                    }
                }
                assert(evidence::last_for(items, k as int, t) && is_within_bounds(
                    after[k],
                    items[t].1,
                ));
            }
        } else {
            assert forall|t: int| 0 <= t < items.len() implies (#[trigger] items[t]).0
                != k as int by {
                if t < last {
                    assert(front[t] == items[t]);
                }
            }
        }
    }
}

/// Whether a point of the index names a card: by a whole number, as a number or as a text.
pub open spec fn names_card(point: QdrantPoint, card_id: i64) -> bool {
    &&& point.id is Some
    &&& match point.card_id {
        Some(IdValue::Int(id)) => id == card_id,
        Some(IdValue::Text(raw)) => numbers::read_in_range(
            raw@,
            true,
            i64::MIN as int,
            i64::MAX as int,
        ) == Some(card_id as int),
        _ => false,
    }
}

/// Whether a hit says what a point of the index says.
pub open spec fn hit_says(hit: DenseHitView, point: QdrantPoint) -> bool {
    &&& names_card(point, hit.card_id)
    &&& point.id == Some(hit.point_id)
    &&& hit.score == point.score
    &&& match point.chunk_text {
        Some(text) => hit.snippet == text@,
        None => hit.snippet.len() == 0,
    }
}

/// Whether hits are those of the points that name a card, all of them, in order: hit `i` is that of
/// point `ks[i]`.
pub open spec fn are_hits(
    hits: Seq<DenseHitView>,
    points: Seq<QdrantPoint>,
    ks: Seq<int>,
) -> bool {
    &&& ks.len() == hits.len()
    &&& forall|i: int, j: int| 0 <= i < j < ks.len() ==> #[trigger] ks[i] < #[trigger] ks[j]
    &&& forall|i: int|
        0 <= i < ks.len() ==> 0 <= #[trigger] ks[i] < points.len() && hit_says(
            hits[i],
            points[ks[i]],
        )
    &&& forall|k: int, card_id: i64|
        0 <= k < points.len() && #[trigger] names_card(points[k], card_id) ==> ks.contains(k)
}

proof fn lemma_hits(points: Seq<QdrantPoint>) -> (ks: Seq<int>)
    ensures
        are_hits(external::hits_of(points), points, ks),
    decreases points.len(),
{
    let hits = external::hits_of(points);
    if points.len() == 0 {
        Seq::empty()
    } else {
        let front = points.drop_last();
        let last = points.len() - 1;
        let before = lemma_hits(front);
        let fewer = external::hits_of(front);
        let ks = if external::hit_of(points[last]) is Some {
            before.push(last)
        } else {
            before
        };
        assert forall|i: int| 0 <= i < ks.len() implies 0 <= #[trigger] ks[i] < points.len()
            && hit_says(hits[i], points[ks[i]]) by {
            if i < before.len() {
                assert(ks[i] == before[i]);
                assert(front[before[i]] == points[before[i]]);
                assert(hits[i] == fewer[i]);
            }
        }
        assert forall|k: int, card_id: i64|
            0 <= k < points.len() && #[trigger] names_card(points[k], card_id) implies ks.contains(
            k,
        ) by {
            if k < last {
                assert(front[k] == points[k]);
                assert(names_card(front[k], card_id));
                let i = choose|i: int| 0 <= i < before.len() && before[i] == k;
                assert(ks[i] == k);
            } else {
                assert(external::hit_of(points[last]) is Some);
                assert(ks[before.len() as int] == last);
            }
        }
        ks
    }
}

/// The index's answer is read as it is: every point that names a card makes a hit with the point's
/// id, the card, the score and the text of the chunk, in order, and no other point makes one.
pub proof fn law_points_are_read(points: Seq<QdrantPoint>)
    ensures
        exists|ks: Seq<int>| #[trigger] are_hits(external::hits_of(points), points, ks),
{
    let ks = lemma_hits(points);
}

/// Whether texts are ranked by scores: each of them once, under its place, the greatest score
/// first, and those of equal scores as they came.
pub open spec fn are_ranked_texts(
    items: Seq<RerankItem>,
    scores: Seq<ScoreKey>,
    at: Seq<int>,
) -> bool {
    &&& items.len() == scores.len()
    &&& order::rearranges(at, scores.len())
    &&& forall|i: int|
        0 <= i < items.len() ==> items[i].index == (#[trigger] at[i]) as usize && items[i].score
            == scores[at[i]]
    &&& forall|i: int, j: int|
        #![trigger at[i], at[j]]
        0 <= i < j < items.len() ==> scores[at[i]] > scores[at[j]] || scores[at[i]]
            == scores[at[j]] && at[i] < at[j]
}

/// Texts are ranked by nearness: each of them once, the nearest first.
pub proof fn law_texts_are_ranked_by_nearness(scores: Seq<ScoreKey>)
    ensures
        exists|at: Seq<int>| #[trigger]
            are_ranked_texts(
                order::ranked::<ByScore, RerankItem>(rerank::items_of(scores)),
                scores,
                at,
            ),
{
    let items = rerank::items_of(scores);
    let all = order::ranked::<ByScore, RerankItem>(items);
    order::law_ranking::<ByScore, RerankItem>(items);
    let at = choose|at: Seq<int>| #[trigger]
        order::is_ranking::<ByScore, RerankItem>(all, items, at);
    assert forall|i: int, j: int|
        #![trigger at[i], at[j]]
        0 <= i < j < all.len() implies scores[at[i]] > scores[at[j]] || scores[at[i]]
        == scores[at[j]] && at[i] < at[j] by {
        assert(order::RankBy::<ByScore>::may_precede(all[i], all[j]));
        assert(all[i] == items[at[i]] && all[j] == items[at[j]]);
        if scores[at[i]] == scores[at[j]] {
            assert(order::RankBy::<ByScore>::may_precede(all[j], all[i]));
        }
    }
    assert(are_ranked_texts(all, scores, at));
}

/// A language model scores the nearest texts, as many as are set; for each item a score is blended
/// of its nearness and of the language model's score for its text; and the items that the language
/// model scored get the blended score, the others keep their nearness.
pub proof fn law_nearest_texts_are_scored(
    items: Seq<RerankItem>,
    top_n: nat,
    scores: Map<usize, ScoreKey>,
    blended: Seq<ScoreKey>,
    i: int,
)
    requires
        0 <= i < items.len(),
        blended.len() == items.len(),
    ensures
        ({
            let chosen = rerank::selected(items, top_n);
            let given = rerank::given_scores(items, scores);
            let asked = rerank::to_blend(items, given);
            let after = rerank::blended(items, given, blended);
            &&& chosen.len() == if items.len() <= top_n {
                items.len()
            } else {
                top_n
            }
            &&& i < chosen.len() ==> chosen[i] == items[i].index
            &&& asked[i].0 == items[i].score
            &&& asked[i].1 == if scores.contains_key(items[i].index) {
                Some(scores[items[i].index])
            } else {
                None
            }
            &&& after.len() == items.len()
            &&& after[i].index == items[i].index
            &&& after[i].score == if scores.contains_key(items[i].index) {
                blended[i]
            } else {
                items[i].score
            }
        }),
{
}

/// Where texts are to be cut, the first 8000 characters of a text are embedded.
pub proof fn law_long_texts_are_cut(s: Seq<char>)
    ensures
        s.len() <= 8000 ==> shim::prompt(s, true, true) == shim::prompt(s, true, false)
            && shim::prompt(s, false, true) == shim::prompt(s, false, false),
        s.len() > 8000 ==> shim::prompt(s, true, true) == shim::prompt(s.take(8000), true, false),
{
}

/// Every text is embedded under a mark: that of a query where it is one or says so itself, and that
/// of a document otherwise; a text without a mark of its own is embedded whole, without the white
/// space around it.
pub proof fn law_texts_are_marked(s: Seq<char>, is_query: bool)
    requires
        !strings::starts_with(strings::trim(s), "query:"@),
        !strings::starts_with(strings::trim(s), "passage:"@),
    ensures
        is_query ==> shim::prompt(s, is_query, false) == "search_query:"@ + " "@ + strings::trim(s),
        !is_query && !shim::marked_query(s) ==> shim::prompt(s, is_query, false)
            == "search_document:"@ + " "@ + strings::trim(s),
{
}

/// Whether items are ranked by score: each of them once, the greatest first, and those of equal
/// scores as they came.
pub open spec fn are_by_score(ranked: Seq<RerankItem>, items: Seq<RerankItem>, at: Seq<int>) -> bool {
    &&& ranked.len() == items.len()
    &&& order::rearranges(at, items.len())
    &&& forall|i: int| 0 <= i < items.len() ==> ranked[i] == items[#[trigger] at[i]]
    &&& forall|i: int, j: int|
        #![trigger at[i], at[j]]
        0 <= i < j < items.len() ==> items[at[i]].score > items[at[j]].score || items[at[i]].score
            == items[at[j]].score && at[i] < at[j]
}

proof fn lemma_by_score(items: Seq<RerankItem>)
    ensures
        exists|at: Seq<int>| #[trigger]
            are_by_score(order::ranked::<ByScore, RerankItem>(items), items, at),
{
    let all = order::ranked::<ByScore, RerankItem>(items);
    order::law_ranking::<ByScore, RerankItem>(items);
    let at = choose|at: Seq<int>| #[trigger]
        order::is_ranking::<ByScore, RerankItem>(all, items, at);
    assert forall|i: int, j: int|
        #![trigger at[i], at[j]]
        0 <= i < j < items.len() implies items[at[i]].score > items[at[j]].score
        || items[at[i]].score == items[at[j]].score && at[i] < at[j] by {
        assert(order::RankBy::<ByScore>::may_precede(all[i], all[j]));
        assert(all[i] == items[at[i]] && all[j] == items[at[j]]);
        if items[at[i]].score == items[at[j]].score {
            assert(order::RankBy::<ByScore>::may_precede(all[j], all[i]));
        }
    }
    assert(are_by_score(all, items, at));
}

/// Whether items are others with new scores: those that a language model scored have the blended
/// score, as far as one is given, the others keep theirs, and all keep their places.
pub open spec fn are_rescored(
    after: Seq<RerankItem>,
    items: Seq<RerankItem>,
    given: Seq<Option<ScoreKey>>,
    scores: Seq<ScoreKey>,
) -> bool {
    &&& after.len() == items.len()
    &&& forall|i: int|
        0 <= i < items.len() ==> (#[trigger] after[i]).index == items[i].index && after[i].score == (
        if given[i] is Some && i < scores.len() {
            scores[i]
        } else {
            items[i].score
        })
}

/// A ranking ends with every text under its place and with its score, the greatest first: its
/// nearness where no language model is asked, and the blended score where one gave it a score.
pub proof fn law_ranking_ends_with_scores(
    res: (rerank::RerankRun, rerank::RerankAsk),
    run: rerank::RerankRun,
    settings: rerank::RerankSettings,
    answer: rerank::RerankAnswer,
)
    requires
        run.wf(),
        rerank::is_step(res, run, settings, answer),
    ensures
        match (run, answer, res.1) {
            (
                rerank::RerankRun::Comparing(_),
                rerank::RerankAnswer::Compared(scores),
                rerank::RerankAsk::Done(items),
            ) => !settings.llm && exists|at: Seq<int>| #[trigger]
                are_ranked_texts(items@, scores@, at),
            (
                rerank::RerankRun::Blending(before, given),
                rerank::RerankAnswer::Blended(scores),
                rerank::RerankAsk::Done(items),
            ) => exists|after: Seq<RerankItem>, at: Seq<int>| #[trigger]
                are_by_score(items@, after, at) && are_rescored(
                    after,
                    before@,
                    given@,
                    scores@,
                ),
            (
                rerank::RerankRun::PairComparing(p),
                rerank::RerankAnswer::Compared(scores),
                rerank::RerankAsk::Done(items),
            ) => !settings.llm && scores@.len() > 0 && exists|at: Seq<int>| #[trigger]
                are_by_score(
                    items@,
                    p.items@.push(
                        RerankItem { index: p.items@.len() as usize, score: scores@[0] },
                    ),
                    at,
                ),
            (
                rerank::RerankRun::PairBlending(p),
                rerank::RerankAnswer::Blended(scores),
                rerank::RerankAsk::Done(items),
            ) => scores@.len() > 0 && exists|at: Seq<int>| #[trigger]
                are_by_score(
                    items@,
                    p.items@.push(
                        RerankItem { index: p.items@.len() as usize, score: scores@[0] },
                    ),
                    at,
                ),
            _ => true,
        },
{
    match (run, answer) {
        (rerank::RerankRun::Comparing(_), rerank::RerankAnswer::Compared(scores)) => {
            law_texts_are_ranked_by_nearness(scores@);
        },
        (rerank::RerankRun::Blending(before, given), rerank::RerankAnswer::Blended(scores)) => {
            let after = rerank::blended(before@, given@, scores@);
            lemma_by_score(after);
            let at = choose|at: Seq<int>| #[trigger]
                are_by_score(order::ranked::<ByScore, RerankItem>(after), after, at);
            assert(are_rescored(after, before@, given@, scores@));
            if let rerank::RerankAsk::Done(items) = res.1 {
                assert(are_by_score(items@, after, at));
            }
        },
        (rerank::RerankRun::PairComparing(p), rerank::RerankAnswer::Compared(scores)) => {
            if scores@.len() > 0 {
                lemma_by_score(rerank::with_item(p.items@, scores@[0]));
            }
        },
        (rerank::RerankRun::PairBlending(p), rerank::RerankAnswer::Blended(scores)) => {
            if scores@.len() > 0 {
                lemma_by_score(rerank::with_item(p.items@, scores@[0]));
            }
        },
        _ => {},
    }
}

/// A ranking asks for what it needs: the vectors of all texts, in order, as documents; the vectors
/// of each query and its own text; and where a language model is asked, the scores of the nearest
/// texts, as many as are set, batch by batch and each of them once, against the query.
pub proof fn law_ranking_asks_for_all_texts(
    res: (rerank::RerankRun, rerank::RerankAsk),
    run: rerank::RerankRun,
    settings: rerank::RerankSettings,
    answer: rerank::RerankAnswer,
)
    requires
        run.wf(),
        res.0.wf(),
        rerank::is_step(res, run, settings, answer),
    ensures
        match (run, res.0, res.1) {
            (
                rerank::RerankRun::Querying(job, truncate),
                rerank::RerankRun::Embedding(now),
                rerank::RerankAsk::Embed(prompts),
            ) => now == job && prompts@.len() == job.texts@.len() && forall|i: int|
                0 <= i < prompts@.len() ==> (#[trigger] prompts@[i])@ == shim::prompt(
                    job.texts@[i]@,
                    false,
                    truncate,
                ),
            (_, rerank::RerankRun::PairEmbedding(p), rerank::RerankAsk::Embed(prompts)) => {
                let k = p.items@.len() as int;
                prompts@.len() == 2 && prompts@[0]@ == p.queries@[k]@ && prompts@[1]@
                    == p.texts@[k]@
            },
            (
                rerank::RerankRun::Comparing(job),
                rerank::RerankRun::Scoring(s),
                rerank::RerankAsk::Score(_),
            ) => {
                &&& settings.llm
                &&& s.job.query@ == job.query@
                &&& strings::texts(s.job.texts@) == strings::texts(job.texts@)
                &&& s.at == 0
                &&& shim::flattened(shim::batch_views(s.batches@)).len() == if s.items@.len()
                    <= settings.top_n {
                    s.items@.len()
                } else {
                    settings.top_n as nat
                }
                &&& forall|i: int|
                    0 <= i < shim::flattened(shim::batch_views(s.batches@)).len() ==> (
                    #[trigger] shim::flattened(shim::batch_views(s.batches@))[i])
                        == s.items@[i].index
            },
            (rerank::RerankRun::Scoring(was), rerank::RerankRun::Scoring(s), _) => s.at == was.at + 1
                && shim::batch_views(s.batches@) == shim::batch_views(was.batches@) && s.items@
                == was.items@ && s.job.query@ == was.job.query@,
            (rerank::RerankRun::Scoring(was), rerank::RerankRun::Blending(items, _), _) => was.at + 1
                >= was.batches@.len() && items@ == was.items@,
            _ => true,
        },
        match (res.0, res.1) {
            (rerank::RerankRun::Scoring(s), rerank::RerankAsk::Score(prompt)) => prompt@
                == shim::rerank_prompt(
                s.job.query@,
                strings::texts(s.job.texts@),
                s.batches@[s.at as int]@,
            ),
            _ => true,
        },
{
    match (run, res.0, res.1) {
        (
            rerank::RerankRun::Querying(job, truncate),
            rerank::RerankRun::Embedding(now),
            rerank::RerankAsk::Embed(prompts),
        ) => {
            let texts = strings::texts(prompts@);
            assert(texts.len() == prompts@.len());
            assert(strings::texts(job.texts@).len() == job.texts@.len());
            assert forall|i: int| 0 <= i < prompts@.len() implies (#[trigger] prompts@[i])@
                == shim::prompt(job.texts@[i]@, false, truncate) by {
                assert(texts[i] == prompts@[i]@);
                assert(strings::texts(job.texts@)[i] == job.texts@[i]@);
            }
        },
        (_, rerank::RerankRun::PairEmbedding(p), rerank::RerankAsk::Embed(prompts)) => {
            let texts = strings::texts(prompts@);
            let k = p.items@.len() as int;
            assert(texts.len() == prompts@.len());
            assert(texts[0] == prompts@[0]@ && texts[1] == prompts@[1]@);
            assert(strings::texts(p.queries@)[k] == p.queries@[k]@);
            assert(strings::texts(p.texts@)[k] == p.texts@[k]@);
        },
        (
            rerank::RerankRun::Comparing(job),
            rerank::RerankRun::Scoring(s),
            rerank::RerankAsk::Score(_),
        ) => {
            let size: nat = if settings.batch_size == 0 {
                1
            } else {
                settings.batch_size as nat
            };
            shim::law_batches(rerank::selected(s.items@, settings.top_n as nat), size);
        },
        _ => {},
    }
    if let (rerank::RerankRun::Scoring(s), rerank::RerankAsk::Score(prompt)) = res {
        assert(shim::batch_views(s.batches@)[s.at as int] == s.batches@[s.at as int]@);
    }
}

} // verus!
