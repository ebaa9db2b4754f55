//! Which candidates of a search are kept, and which text stands for each of them.

use vstd::prelude::*;
use crate::asked;
use crate::candidates;
use crate::candidates::{ByFusion, Candidate};
use crate::chars;
use crate::order;
use crate::strings;
use crate::text;

verus! {

/// Whether a text suits a query better than another: its plain text holds more of the terms, or as
/// many and has more words of four bytes or more that hold a letter, or as many of those too and is
/// longer.
pub open spec fn suits_better(a: Seq<char>, b: Seq<char>, terms: Seq<Seq<char>>) -> bool {
    let (plain_a, plain_b) = (text::normalized(a)->Some_0, text::normalized(b)->Some_0);
    let held_a = strings::held_places(terms, text::normalized(plain_a)->Some_0).len();
    let held_b = strings::held_places(terms, text::normalized(plain_b)->Some_0).len();
    let words_a = asked::telling_words(strings::words(plain_a), 4).len();
    let words_b = asked::telling_words(strings::words(plain_b), 4).len();
    let bytes_a = strings::byte_len(plain_a);
    let bytes_b = strings::byte_len(plain_b);
    held_a > held_b || held_a == held_b && (words_a > words_b || words_a == words_b && bytes_a
        > bytes_b)
}

/// Of two texts the one that suits the query better is taken, and the first where neither does.
pub proof fn law_better_snippet(current: Seq<char>, other: Seq<char>, terms: Seq<Seq<char>>)
    ensures
        candidates::better_snippet(current, other, terms) matches Some(best) ==> best == (
        if suits_better(other, current, terms) {
            other
        } else {
            current
        }),
{
    if candidates::better_snippet(current, other, terms) is Some {
        let plain_a = text::normalized(other)->Some_0;
        let plain_b = text::normalized(current)->Some_0;
        strings::law_count_in(terms, text::normalized(plain_a)->Some_0);
        strings::law_count_in(terms, text::normalized(plain_b)->Some_0);
        asked::law_telling_words(strings::words(plain_a), 4);
        asked::law_telling_words(strings::words(plain_b), 4);
    }
}

/// The score by which texts are compared tells which of them suits a query better.
pub proof fn law_snippet_scores(a: Seq<char>, b: Seq<char>, terms: Seq<Seq<char>>)
    requires
        candidates::snippet_score(a, terms) is Some,
        candidates::snippet_score(b, terms) is Some,
    ensures
        candidates::beats(
            candidates::snippet_score(a, terms)->Some_0,
            candidates::snippet_score(b, terms)->Some_0,
        ) == suits_better(a, b, terms),
{
    let plain_a = text::normalized(a)->Some_0;
    let plain_b = text::normalized(b)->Some_0;
    strings::law_count_in(terms, text::normalized(plain_a)->Some_0);
    strings::law_count_in(terms, text::normalized(plain_b)->Some_0);
    asked::law_telling_words(strings::words(plain_a), 4);
    asked::law_telling_words(strings::words(plain_b), 4);
}

/// How many of its chunk's terms a hit's text holds is counted in the plain text.
pub proof fn law_snippet_overlap(s: Seq<char>, terms: Seq<Seq<char>>)
    ensures
        match (candidates::snippet_overlap(s, terms), text::normalized(s)) {
            (Some(n), Some(plain)) => n == strings::held_places(terms, plain).len(),
            (None, None) => true,
            _ => false,
        },
{
    if let Some(plain) = text::normalized(s) {
        strings::law_count_in(terms, plain);
    }
}

/// Whether a candidate is worth showing: a hit by terms counts for it, or the plain text of its card
/// has at least six words of three bytes or more that hold a letter, or at least forty letters.
pub open spec fn is_worth_showing(c: Candidate) -> bool {
    c.lexical_bonus > 0 || match text::normalized(c.card.card_text_clean@) {
        Some(plain) => asked::telling_words(strings::words(plain), 3).len() >= 6 || Set::new(
            |i: int| 0 <= i < plain.len() && chars::alphabetic(plain[i]),
        ).len() >= 40,
        None => false,
    }
}

proof fn lemma_useful(c: Candidate)
    ensures
        candidates::useful(c) matches Some(wanted) ==> wanted == is_worth_showing(c),
{
    if let Some(plain) = text::normalized(c.card.card_text_clean@) {
        asked::law_telling_words(strings::words(plain), 3);
        asked::law_letters(plain);
    }
}

/// Whether candidates are those of a list that are worth showing, all of them, in order: candidate
/// `i` is the one at `ks[i]`.
pub open spec fn are_worth_showing(kept: Seq<Candidate>, cs: Seq<Candidate>, ks: Seq<int>) -> bool {
    &&& ks.len() == kept.len()
    &&& forall|i: int, j: int| 0 <= i < j < ks.len() ==> #[trigger] ks[i] < #[trigger] ks[j]
    &&& forall|i: int|
        0 <= i < ks.len() ==> 0 <= #[trigger] ks[i] < cs.len() && kept[i] == cs[ks[i]]
            && is_worth_showing(cs[ks[i]])
    &&& forall|k: int|
        0 <= k < cs.len() && is_worth_showing(#[trigger] cs[k]) ==> ks.contains(k)
}

proof fn lemma_useful_only(cs: Seq<Candidate>) -> (ks: Seq<int>)
    ensures
        candidates::useful_only(cs) matches Some(kept) ==> are_worth_showing(kept, cs, ks),
    decreases cs.len(),
{
    if cs.len() == 0 {
        Seq::empty()
    } else {
        let front = cs.drop_last();
        let last = cs.len() - 1;
        let before = lemma_useful_only(front);
        lemma_useful(cs[last]);
        let ks = if is_worth_showing(cs[last]) {
            before.push(last)
        } else {
            before
        };
        if let Some(kept) = candidates::useful_only(cs) {
            let fewer = candidates::useful_only(front)->Some_0;
            assert(are_worth_showing(fewer, front, before));
            assert forall|i: int| 0 <= i < ks.len() implies 0 <= #[trigger] ks[i] < cs.len()
                && kept[i] == cs[ks[i]] && is_worth_showing(cs[ks[i]]) by {
                if i < before.len() {
                    assert(ks[i] == before[i]);
                    assert(front[before[i]] == cs[before[i]]);
                    assert(kept[i] == fewer[i]);
                }
            }
            assert forall|k: int| 0 <= k < cs.len() && is_worth_showing(#[trigger] cs[k]) implies
                ks.contains(k) by {
                if k < last {
                    assert(front[k] == cs[k]);
                    let i = choose|i: int| 0 <= i < before.len() && before[i] == k;
                    assert(ks[i] == k);
                } else {
                    assert(ks[before.len() as int] == last);
                }
            }
        }
        ks
    }
}

/// The candidates that are worth showing are kept, all of them, in order, and no others are.
pub proof fn law_useful_candidates_are_kept(cs: Seq<Candidate>)
    ensures
        candidates::useful_only(cs) matches Some(kept) ==> exists|ks: Seq<int>| #[trigger]
            are_worth_showing(kept, cs, ks),
{
    let ks = lemma_useful_only(cs);
}

/// Whether a candidate repeats one before it: a candidate of the same note, or one with the same
/// plain text.
pub open spec fn is_repeat(cs: Seq<Candidate>, k: int) -> bool {
    exists|j: int|
        0 <= j < k && ((#[trigger] cs[j]).card.original_note_id == cs[k].card.original_note_id
            || text::normalized(cs[j].card.card_text_clean@) == text::normalized(
            cs[k].card.card_text_clean@,
        ))
}

/// Whether candidates are what is left of a list without repeats: candidate `i` is the one at
/// `ks[i]`, in order, and every one that is left out repeats one before it.
pub open spec fn are_without_repeats(
    kept: Seq<Candidate>,
    cs: Seq<Candidate>,
    ks: Seq<int>,
) -> bool {
    &&& ks.len() == kept.len()
    &&& forall|i: int, j: int| 0 <= i < j < ks.len() ==> #[trigger] ks[i] < #[trigger] ks[j]
    &&& forall|i: int|
        0 <= i < ks.len() ==> 0 <= #[trigger] ks[i] < cs.len() && kept[i] == cs[ks[i]]
    &&& forall|k: int| 0 <= k < cs.len() && !ks.contains(k) ==> #[trigger] is_repeat(cs, k)
}

proof fn lemma_collapsed(cs: Seq<Candidate>, said: Seq<Seq<char>>, n: nat) -> (ks: Seq<int>)
    requires
        n <= cs.len() == said.len(),
        forall|i: int|
            0 <= i < cs.len() ==> text::normalized((#[trigger] cs[i]).card.card_text_clean@)
                == Some(said[i]),
    ensures
        ks.len() == candidates::collapsed(cs, said, n).len(),
        forall|i: int, j: int| 0 <= i < j < ks.len() ==> #[trigger] ks[i] < #[trigger] ks[j],
        forall|i: int|
            0 <= i < ks.len() ==> 0 <= #[trigger] ks[i] < n && candidates::collapsed(
                cs,
                said,
                n,
            )[i] == cs[ks[i]],
        forall|k: int| 0 <= k < n && !ks.contains(k) ==> #[trigger] is_repeat(cs, k),
    decreases n,
{
    if n == 0 {
        Seq::empty()
    } else {
        let before = lemma_collapsed(cs, said, (n - 1) as nat);
        let last = n - 1;
        let ks = if candidates::stays(cs, said, last) {
            before.push(last)
        } else {
            before
        };
        assert forall|i: int| 0 <= i < ks.len() implies 0 <= #[trigger] ks[i] < n
            && candidates::collapsed(cs, said, n)[i] == cs[ks[i]] by {
            if i < before.len() {
                assert(ks[i] == before[i]);
            }
        }
        assert forall|k: int| 0 <= k < n && !ks.contains(k) implies #[trigger] is_repeat(cs, k) by {
            if k < last {
                if before.contains(k) {
                    let i = choose|i: int| 0 <= i < before.len() && before[i] == k;
                    assert(ks[i] == k);
                }
            } else if candidates::stays(cs, said, last) {
                assert(ks[before.len() as int] == last);
            } else if !candidates::first_of_note(cs, last) {
                let j = choose|j: int|
                    0 <= j < last && (#[trigger] cs[j]).card.original_note_id
                        == cs[last].card.original_note_id;
                assert(is_repeat(cs, k));
            } else {
                let j = choose|j: int|
                    0 <= j < last && #[trigger] candidates::first_of_note(cs, j) && said[j]
                        == said[last];
                assert(text::normalized(cs[j].card.card_text_clean@) == Some(said[j]));
                assert(text::normalized(cs[last].card.card_text_clean@) == Some(said[last]));
                assert(is_repeat(cs, k));
            }
        }
        ks
    }
}

/// Of candidates that repeat a note or a text the first is kept, and none is left out that repeats
/// nothing.
pub proof fn law_only_repeats_are_left_out(cs: Seq<Candidate>)
    ensures
        candidates::without_repeats(cs) matches Some(kept) ==> exists|ks: Seq<int>| #[trigger]
            are_without_repeats(kept, cs, ks),
{
    let texts = candidates::card_texts(cs);
    if let Some(said) = text::all_normalized(texts) {
        text::lemma_all_normalized(texts);
        assert forall|i: int| 0 <= i < cs.len() implies text::normalized(
            (#[trigger] cs[i]).card.card_text_clean@,
        ) == Some(said[i]) by {
            assert(texts[i] == cs[i].card.card_text_clean@);
        }
        let ks = lemma_collapsed(cs, said, cs.len());
        assert(candidates::without_repeats(cs) == Some(candidates::collapsed(cs, said, cs.len())));
        let kept = candidates::without_repeats(cs)->Some_0;
        assert(are_without_repeats(kept, cs, ks));
    }
}

/// The short list is made of the candidates that are worth showing, ranked by the scores from the
/// places of their hits, the greatest first and those of equal scores as they came, without
/// repeats, and cut behind the hundredth.
pub proof fn law_short_list(cs: Seq<Candidate>)
    ensures
        candidates::shortlisted(cs) matches Some(short) ==> exists|
            wanted: Seq<Candidate>,
            ranked: Seq<Candidate>,
            kept: Seq<Candidate>,
            a: Seq<int>,
            b: Seq<int>,
            c: Seq<int>,
        |
            #![trigger are_worth_showing(wanted, cs, a), are_ranked_by_fusion(ranked, wanted, b), are_without_repeats(kept, ranked, c)]
            {
                &&& are_worth_showing(wanted, cs, a)
                &&& are_ranked_by_fusion(ranked, wanted, b)
                &&& are_without_repeats(kept, ranked, c)
                &&& short == (if kept.len() <= 100 {
                    kept
                } else {
                    kept.take(100)
                })
            },
{
    if let Some(short) = candidates::shortlisted(cs) {
        let wanted = candidates::useful_only(cs)->Some_0;
        let ranked = order::ranked::<ByFusion, Candidate>(wanted);
        let kept = candidates::without_repeats(ranked)->Some_0;
        let a = lemma_useful_only(cs);
        order::law_ranking::<ByFusion, Candidate>(wanted);
        let b = choose|at: Seq<int>| #[trigger]
            order::is_ranking::<ByFusion, Candidate>(ranked, wanted, at);
        law_only_repeats_are_left_out(ranked);
        let c = choose|ks: Seq<int>| #[trigger] are_without_repeats(kept, ranked, ks);
        assert forall|i: int, j: int|
            #![trigger b[i], b[j]]
            0 <= i < j < wanted.len() implies wanted[b[i]].fused_score > wanted[b[j]].fused_score
            || wanted[b[i]].fused_score == wanted[b[j]].fused_score && b[i] < b[j] by {
            assert(order::RankBy::<ByFusion>::may_precede(ranked[i], ranked[j]));
            assert(ranked[i] == wanted[b[i]] && ranked[j] == wanted[b[j]]);
            if wanted[b[i]].fused_score == wanted[b[j]].fused_score {
                assert(order::RankBy::<ByFusion>::may_precede(ranked[j], ranked[i]));
            }
        }
        assert(are_ranked_by_fusion(ranked, wanted, b));
        assert(are_worth_showing(wanted, cs, a));
    }
}

/// Whether candidates are those of a list by their scores from the places of hits, the greatest
/// first and those of equal scores as they came.
pub open spec fn are_ranked_by_fusion(
    ranked: Seq<Candidate>,
    cs: Seq<Candidate>,
    at: Seq<int>,
) -> bool {
    &&& ranked.len() == cs.len()
    &&& order::rearranges(at, cs.len())
    &&& forall|i: int| 0 <= i < cs.len() ==> ranked[i] == cs[#[trigger] at[i]]
    &&& forall|i: int, j: int|
        #![trigger at[i], at[j]]
        0 <= i < j < cs.len() ==> cs[at[i]].fused_score > cs[at[j]].fused_score
            || cs[at[i]].fused_score == cs[at[j]].fused_score && at[i] < at[j]
}

/// Results come in the order of their final scores, the greatest first; of equal scores the one with
/// more hits comes first, and of as many hits the one with more hits by terms.
pub proof fn law_results_come_by_relevance(
    search_id: i64,
    cs: Seq<Candidate>,
    scores: Option<Seq<(usize, crate::models::ScoreKey)>>,
    i: int,
    j: int,
)
    requires
        crate::search::counts_fit(cs),
        0 <= i < j < cs.len(),
    ensures
        ({
            let results = crate::search::final_results(search_id, cs, scores);
            let (a, b) = (results[i], results[j]);
            a.rerank_score > b.rerank_score || a.rerank_score == b.rerank_score && (a.chunk_hits
                > b.chunk_hits || a.chunk_hits == b.chunk_hits && a.lexical_bonus
                >= b.lexical_bonus)
        }),
{
    crate::search::law_final_results(search_id, cs, scores);
    let results = crate::search::final_results(search_id, cs, scores);
    assert(crate::search::as_relevant(results[i], results[j]));
}

} // verus!
