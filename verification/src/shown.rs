//! What the pages show, told by the records that it comes from.

use vstd::prelude::*;
use crate::db;
use crate::db::{HighestScore, Newest, SmallestId};
use crate::detail;
use crate::models::{
    CardRecord, DeckImport, DeckRecord, GroupedResult, GroupedResultRecord, ImportedCard, Material,
    MaterialRecord, ScoreKey, Search, SearchRecord, Timestamp,
};
use crate::order;
use crate::strings;

verus! {

/// Whether a deck is shown as its record says.
pub open spec fn shows_deck(shown: DeckImport, record: DeckRecord, now: Timestamp) -> bool {
    &&& shown.id == record.id
    &&& shown.filename@ == record.filename@
    &&& shown.status@ == record.status@
    &&& shown.warning == record.warning
    &&& shown.error == record.error
    &&& shown.storage_path@ == record.storage_path@
    &&& shown.note_count == record.note_count
    &&& shown.card_count == record.card_count
    &&& shows_time(shown.created_at, record.created_at@, now)
}

/// Whether an instant is the one that a text denotes, or `now` where it denotes none.
pub open spec fn shows_time(shown: Timestamp, text: Seq<char>, now: Timestamp) -> bool {
    match db::rfc3339(text) {
        Some(at) => shown.seconds == at.0 && shown.nanos == at.1,
        None => shown == now,
    }
}

/// Whether a material is shown as its record says.
pub open spec fn shows_material(shown: Material, record: MaterialRecord, now: Timestamp) -> bool {
    &&& shown.id == record.id
    &&& shown.filename@ == record.filename@
    &&& shown.kind@ == record.kind@
    &&& shown.status@ == record.status@
    &&& shown.warning == record.warning
    &&& shown.error == record.error
    &&& shown.source_text@ == record.source_text@
    &&& shows_time(shown.created_at, record.created_at@, now)
}

/// Whether a search is shown as its record says.
pub open spec fn shows_search(shown: Search, record: SearchRecord, now: Timestamp) -> bool {
    &&& shown.id == record.id
    &&& shown.material_id == record.material_id
    &&& shown.query_text@ == record.query_text@
    &&& shown.selected_deck_import_id == record.selected_deck_import_id
    &&& shown.status@ == record.status@
    &&& shown.low_coverage == record.low_coverage
    &&& shown.error == record.error
    &&& shows_time(shown.created_at, record.created_at@, now)
}

/// Whether a card is shown as its record says.
pub open spec fn shows_card(shown: ImportedCard, record: CardRecord) -> bool {
    &&& shown.id == record.card_id
    &&& shown.import_id == record.import_id
    &&& shown.note_id == record.original_note_id
    &&& shown.original_card_id == record.original_card_id
    &&& shown.original_deck_id == record.original_deck_id
    &&& shown.deck_name@ == record.deck_name@
    &&& shown.ord == record.ord
    &&& shown.card_text_clean@ == record.card_text_clean@
    &&& shown.note_hash@ == record.note_hash@
}

/// Decks, materials, searches and cards are shown as their records say, member by member.
pub proof fn law_models_show_records(
    deck: DeckRecord,
    material: MaterialRecord,
    search: SearchRecord,
    card: CardRecord,
    now: Timestamp,
)
    ensures
        shows_deck(db::deck_model(deck, now), deck, now),
        shows_material(db::material_model(material, now), material, now),
        shows_search(db::search_model(search, now), search, now),
        shows_card(db::card_model(card), card),
{
}

/// Whether texts of times come newest first: none comes before one that is greater.
pub open spec fn newest_first(times: Seq<Seq<char>>) -> bool {
    forall|i: int, j: int|
        0 <= i < j < times.len() ==> strings::text_le(#[trigger] times[j], #[trigger] times[i])
}

/// Every deck is listed once, as its record says, the newest first.
pub proof fn law_decks_are_listed(records: Seq<DeckRecord>, now: Timestamp)
    ensures
        exists|at: Seq<int>|
            {
                let list = db::deck_models(order::ranked::<Newest, DeckRecord>(records), now);
                &&& list.len() == records.len()
                &&& #[trigger] order::rearranges(at, records.len())
                &&& forall|i: int|
                    0 <= i < records.len() ==> shows_deck(list[i], records[#[trigger] at[i]], now)
                &&& newest_first(
                    Seq::new(records.len(), |i: int| records[at[i]].created_at@),
                )
            },
{
    order::law_ranking::<Newest, DeckRecord>(records);
    let all = order::ranked::<Newest, DeckRecord>(records);
    let at = choose|at: Seq<int>| #[trigger]
        order::is_ranking::<Newest, DeckRecord>(all, records, at);
    let times = Seq::new(records.len(), |i: int| records[at[i]].created_at@);
    assert forall|i: int, j: int| 0 <= i < j < times.len() implies strings::text_le(
        #[trigger] times[j],
        #[trigger] times[i],
    ) by {
        assert(order::RankBy::<Newest>::may_precede(all[i], all[j]));
        assert(all[i] == records[at[i]] && all[j] == records[at[j]]);
    }
    assert(order::rearranges(at, records.len()));
}

/// Every material is listed once, as its record says, the newest first.
pub proof fn law_materials_are_listed(records: Seq<MaterialRecord>, now: Timestamp)
    ensures
        exists|at: Seq<int>|
            {
                let list = db::material_models(order::ranked::<Newest, MaterialRecord>(records), now);
                &&& list.len() == records.len()
                &&& #[trigger] order::rearranges(at, records.len())
                &&& forall|i: int|
                    0 <= i < records.len() ==> shows_material(
                        list[i],
                        records[#[trigger] at[i]],
                        now,
                    )
                &&& newest_first(
                    Seq::new(records.len(), |i: int| records[at[i]].created_at@),
                )
            },
{
    order::law_ranking::<Newest, MaterialRecord>(records);
    let all = order::ranked::<Newest, MaterialRecord>(records);
    let at = choose|at: Seq<int>| #[trigger]
        order::is_ranking::<Newest, MaterialRecord>(all, records, at);
    let times = Seq::new(records.len(), |i: int| records[at[i]].created_at@);
    assert forall|i: int, j: int| 0 <= i < j < times.len() implies strings::text_le(
        #[trigger] times[j],
        #[trigger] times[i],
    ) by {
        assert(order::RankBy::<Newest>::may_precede(all[i], all[j]));
        assert(all[i] == records[at[i]] && all[j] == records[at[j]]);
    }
    assert(order::rearranges(at, records.len()));
}

/// Every search is listed once, as its record says, the newest first.
pub proof fn law_searches_are_listed(records: Seq<SearchRecord>, now: Timestamp)
    ensures
        exists|at: Seq<int>|
            {
                let list = db::search_models(order::ranked::<Newest, SearchRecord>(records), now);
                &&& list.len() == records.len()
                &&& #[trigger] order::rearranges(at, records.len())
                &&& forall|i: int|
                    0 <= i < records.len() ==> shows_search(
                        list[i],
                        records[#[trigger] at[i]],
                        now,
                    )
                &&& newest_first(
                    Seq::new(records.len(), |i: int| records[at[i]].created_at@),
                )
            },
{
    order::law_ranking::<Newest, SearchRecord>(records);
    let all = order::ranked::<Newest, SearchRecord>(records);
    let at = choose|at: Seq<int>| #[trigger]
        order::is_ranking::<Newest, SearchRecord>(all, records, at);
    let times = Seq::new(records.len(), |i: int| records[at[i]].created_at@);
    assert forall|i: int, j: int| 0 <= i < j < times.len() implies strings::text_le(
        #[trigger] times[j],
        #[trigger] times[i],
    ) by {
        assert(order::RankBy::<Newest>::may_precede(all[i], all[j]));
        assert(all[i] == records[at[i]] && all[j] == records[at[j]]);
    }
    assert(order::rearranges(at, records.len()));
}

/// Whether cards are those with the smallest ids of a list: card `i` is shown as the record at
/// `at[i]` says, no record comes twice, and no record that is left out has a smaller id.
pub open spec fn shows_smallest(
    shown: Seq<ImportedCard>,
    cards: Seq<CardRecord>,
    at: Seq<int>,
) -> bool {
    &&& order::rearranges(at, cards.len())
    &&& shown.len() <= cards.len()
    &&& forall|i: int| 0 <= i < shown.len() ==> shows_card(shown[i], cards[#[trigger] at[i]])
    &&& forall|i: int, j: int|
        #![trigger at[i], at[j]]
        0 <= i < shown.len() && i < j < cards.len() ==> cards[at[i]].card_id
            <= cards[at[j]].card_id
}

/// The page of a deck shows at most as many cards as wanted, and all where there are no more: those
/// with the smallest ids, in order, each as its record says.
pub proof fn law_sample_cards(cards: Seq<CardRecord>, limit: nat)
    ensures
        ({
            let shown = db::card_models(
                order::first_n(order::ranked::<SmallestId, CardRecord>(cards), limit),
            );
            &&& shown.len() == if cards.len() <= limit {
                cards.len()
            } else {
                limit
            }
            &&& exists|at: Seq<int>| #[trigger] shows_smallest(shown, cards, at)
        }),
{
    order::law_first_of_ranking::<SmallestId, CardRecord>(cards, limit);
    let all = order::ranked::<SmallestId, CardRecord>(cards);
    let first = order::first_n(all, limit);
    let shown = db::card_models(first);
    let at = choose|at: Seq<int>|
        {
            &&& #[trigger] order::is_ranking::<SmallestId, CardRecord>(all, cards, at)
            &&& forall|i: int| 0 <= i < first.len() ==> first[i] == cards[#[trigger] at[i]]
            &&& forall|i: int, j: int|
                #![trigger at[i], at[j]]
                0 <= i < first.len() && i < j < cards.len()
                    ==> order::RankBy::<SmallestId>::may_precede(cards[at[i]], cards[at[j]])
        };
    assert forall|i: int, j: int|
        #![trigger at[i], at[j]]
        0 <= i < shown.len() && i < j < cards.len() implies cards[at[i]].card_id
        <= cards[at[j]].card_id by {
        assert(order::RankBy::<SmallestId>::may_precede(cards[at[i]], cards[at[j]]));
    }
    assert(shows_smallest(shown, cards, at));
}

/// Whether scored cards are the best of a list: hit `i` is the one that came at `at[i]`, none comes
/// twice, and none that is left out has a greater score.
pub open spec fn are_best(
    best: Seq<(i64, ScoreKey)>,
    scored: Seq<(i64, ScoreKey)>,
    at: Seq<int>,
) -> bool {
    &&& order::rearranges(at, scored.len())
    &&& best.len() <= scored.len()
    &&& forall|i: int| 0 <= i < best.len() ==> best[i] == scored[#[trigger] at[i]]
    &&& forall|i: int, j: int|
        #![trigger at[i], at[j]]
        0 <= i < best.len() && i < j < scored.len() ==> scored[at[i]].1 >= scored[at[j]].1
}

/// A lexical search gives at most as many hits as wanted, and all where there are no more: those
/// with the greatest scores, the greatest first.
pub proof fn law_lexical_search_gives_the_best(scored: Seq<(i64, ScoreKey)>, limit: nat)
    ensures
        ({
            let best = order::first_n(
                order::ranked::<HighestScore, (i64, ScoreKey)>(scored),
                limit,
            );
            &&& best.len() == if scored.len() <= limit {
                scored.len()
            } else {
                limit
            }
            &&& exists|at: Seq<int>| #[trigger] are_best(best, scored, at)
        }),
{
    order::law_first_of_ranking::<HighestScore, (i64, ScoreKey)>(scored, limit);
    let all = order::ranked::<HighestScore, (i64, ScoreKey)>(scored);
    let best = order::first_n(all, limit);
    let at = choose|at: Seq<int>|
        {
            &&& #[trigger] order::is_ranking::<HighestScore, (i64, ScoreKey)>(all, scored, at)
            &&& forall|i: int| 0 <= i < best.len() ==> best[i] == scored[#[trigger] at[i]]
            &&& forall|i: int, j: int|
                #![trigger at[i], at[j]]
                0 <= i < best.len() && i < j < scored.len()
                    ==> order::RankBy::<HighestScore>::may_precede(scored[at[i]], scored[at[j]])
        };
    assert forall|i: int, j: int|
        #![trigger at[i], at[j]]
        0 <= i < best.len() && i < j < scored.len() implies scored[at[i]].1 >= scored[at[j]].1 by {
        assert(order::RankBy::<HighestScore>::may_precede(scored[at[i]], scored[at[j]]));
    }
    assert(are_best(best, scored, at));
}

/// Whether a card is the last one of a list with an id.
pub open spec fn is_last_card(cards: Seq<CardRecord>, card_id: i64, k: int) -> bool {
    &&& 0 <= k < cards.len()
    &&& cards[k].card_id == card_id
    &&& forall|j: int| k < j < cards.len() ==> (#[trigger] cards[j]).card_id != card_id
}

/// Whether a list has a card with an id.
pub open spec fn has_card(cards: Seq<CardRecord>, card_id: i64) -> bool {
    exists|k: int| 0 <= k < cards.len() && (#[trigger] cards[k]).card_id == card_id
}

proof fn lemma_card_for(cards: Seq<CardRecord>, card_id: i64)
    ensures
        match detail::card_for(cards, card_id) {
            Some(card) => exists|k: int| #[trigger]
                is_last_card(cards, card_id, k) && cards[k] == card,
            None => !has_card(cards, card_id),
        },
        detail::card_for(cards, card_id) is Some ==> has_card(cards, card_id),
    decreases cards.len(),
{
    if cards.len() > 0 {
        let front = cards.drop_last();
        let last = cards.len() - 1;
        if cards[last].card_id == card_id {
            assert(is_last_card(cards, card_id, last));
        } else {
            lemma_card_for(front, card_id);
            match detail::card_for(front, card_id) {
                Some(card) => {
                    let k = choose|k: int| #[trigger]
                        is_last_card(front, card_id, k) && front[k] == card;
                    assert(cards[k] == front[k]);
                    assert forall|j: int| k < j < cards.len() implies (#[trigger] cards[j]).card_id
                        != card_id by {
                        if j < last {
                            assert(front[j] == cards[j]);
                        }
                    }
                    assert(is_last_card(cards, card_id, k));
                },
                None => {
                    assert forall|k: int| 0 <= k < cards.len() implies (
                    #[trigger] cards[k]).card_id != card_id by {
                        if k < last {
                            assert(front[k] == cards[k]);
                        }
                    }
                },
            }
        }
    }
}

/// Whether a result is shown as its record and the last card with its id say.
pub open spec fn shows_result(
    shown: GroupedResult,
    search_id: i64,
    result: GroupedResultRecord,
    cards: Seq<CardRecord>,
    in_cart: bool,
) -> bool {
    let labels = strings::texts(result.matched_labels@);
    &&& shown.id >= 0
    &&& shown.id == detail::mixed(search_id, result.card_id) || shown.id == -detail::mixed(
        search_id,
        result.card_id,
    )
    &&& shown.search_id == search_id
    &&& shown.card_id == result.card_id
    &&& shown.rerank_score == result.rerank_score
    &&& shown.fused_score == result.fused_score
    &&& shown.chunk_hits == result.chunk_hits
    &&& shown.lexical_bonus == result.lexical_bonus
    &&& shown.best_snippet@ == result.best_snippet@
    &&& exists|at: Seq<int>| #[trigger]
        strings::laid_out(shown.matched_labels_text@, labels, ", "@, at)
    &&& match crate::json::string_list_text(labels) {
        Some(text) => shown.matched_labels_json@ == text,
        None => shown.matched_labels_json@ == "[]"@,
    }
    &&& exists|k: int| #[trigger]
        is_last_card(cards, result.card_id, k) && shown.deck_name@ == cards[k].deck_name@
            && shown.card_text_clean@ == cards[k].card_text_clean@
    &&& shown.in_cart == in_cart
}

/// Whether the page of a search shows results: those at `at`, in order, and each of the others has
/// no card any more.
pub open spec fn page_shows(
    shown: Seq<GroupedResult>,
    search_id: i64,
    results: Seq<GroupedResultRecord>,
    cards: Seq<CardRecord>,
    cart: Seq<i64>,
    at: Seq<int>,
) -> bool {
    &&& at.len() == shown.len()
    &&& forall|i: int, j: int| 0 <= i < j < at.len() ==> #[trigger] at[i] < #[trigger] at[j]
    &&& forall|i: int|
        0 <= i < at.len() ==> 0 <= #[trigger] at[i] < results.len() && shows_result(
            shown[i],
            search_id,
            results[at[i]],
            cards,
            cart.contains(results[at[i]].card_id),
        )
    &&& forall|r: int|
        0 <= r < results.len() ==> at.contains(r) == has_card(cards, (#[trigger] results[r]).card_id)
}

/// The places of the results whose card is still there.
proof fn lemma_with_cards(results: Seq<GroupedResultRecord>, cards: Seq<CardRecord>) -> (at: Seq<
    int,
>)
    ensures
        at.len() == detail::with_cards(results, cards).len(),
        forall|i: int, j: int| 0 <= i < j < at.len() ==> #[trigger] at[i] < #[trigger] at[j],
        forall|i: int|
            0 <= i < at.len() ==> 0 <= #[trigger] at[i] < results.len() && detail::with_cards(
                results,
                cards,
            )[i].0 == results[at[i]] && detail::card_for(cards, results[at[i]].card_id) == Some(
                detail::with_cards(results, cards)[i].1,
            ),
        forall|r: int|
            0 <= r < results.len() ==> at.contains(r) == has_card(
                cards,
                (#[trigger] results[r]).card_id,
            ),
    decreases results.len(),
{
    if results.len() == 0 {
        Seq::empty()
    } else {
        let front = results.drop_last();
        let last = results.len() - 1;
        let before = lemma_with_cards(front, cards);
        lemma_card_for(cards, results[last].card_id);
        let at = match detail::card_for(cards, results[last].card_id) {
            Some(_) => before.push(last),
            None => before,
        };
        let pairs = detail::with_cards(results, cards);
        assert forall|i: int| 0 <= i < at.len() implies 0 <= #[trigger] at[i] < results.len()
            && pairs[i].0 == results[at[i]] && detail::card_for(cards, results[at[i]].card_id)
            == Some(pairs[i].1) by {
            if i < before.len() {
                assert(at[i] == before[i]);
                assert(front[before[i]] == results[at[i]]);
            }
        }
        assert forall|r: int| 0 <= r < results.len() implies at.contains(r) == has_card(
            cards,
            (#[trigger] results[r]).card_id,
        ) by {
            if r < last {
                assert(front[r] == results[r]);
                if before.contains(r) {
                    let i = choose|i: int| 0 <= i < before.len() && before[i] == r;
                    assert(at[i] == r);
                }
                if at.contains(r) {
                    let i = choose|i: int| 0 <= i < at.len() && at[i] == r;
                    assert(before[i] == r);
                }
            } else if detail::card_for(cards, results[last].card_id) is Some {
                assert(at[before.len() as int] == last);
            } else if at.contains(r) {
                let i = choose|i: int| 0 <= i < at.len() && at[i] == r;
                assert(before[i] < front.len());
            }
        }
        at
    }
}

proof fn lemma_shows_result(
    shown: GroupedResult,
    search_id: i64,
    result: GroupedResultRecord,
    card: CardRecord,
    cards: Seq<CardRecord>,
    in_cart: bool,
)
    requires
        detail::shows(shown, search_id, result, card, in_cart),
        detail::card_for(cards, result.card_id) == Some(card),
    ensures
        shows_result(shown, search_id, result, cards, in_cart),
{
    lemma_card_for(cards, result.card_id);
    strings::law_join(strings::texts(result.matched_labels@), ", "@);
    let k = choose|k: int| #[trigger]
        is_last_card(cards, result.card_id, k) && cards[k] == card;
    assert(is_last_card(cards, result.card_id, k) && shown.deck_name@ == cards[k].deck_name@);
}

/// The page of a search shows the results whose card is still there, all of them, in order: each
/// with its scores, its text and its labels, with the deck and the text of its card, and with
/// whether the cart holds it.
pub proof fn law_page_shows_results(
    shown: Seq<GroupedResult>,
    search_id: i64,
    results: Seq<GroupedResultRecord>,
    cards: Seq<CardRecord>,
    cart: Seq<i64>,
)
    requires
        detail::shows_all(
            shown,
            search_id,
            detail::with_cards(results, cards),
            |id: i64| cart.contains(id),
        ),
    ensures
        exists|at: Seq<int>| #[trigger]
            page_shows(shown, search_id, results, cards, cart, at),
{
    let pairs = detail::with_cards(results, cards);
    let at = lemma_with_cards(results, cards);
    assert forall|i: int| 0 <= i < at.len() implies 0 <= #[trigger] at[i] < results.len()
        && shows_result(
        shown[i],
        search_id,
        results[at[i]],
        cards,
        cart.contains(results[at[i]].card_id),
    ) by {
        assert(pairs[i].0 == results[at[i]]);
        assert(detail::shows(
            shown[i],
            search_id,
            pairs[i].0,
            pairs[i].1,
            cart.contains(pairs[i].0.card_id),
        ));
        lemma_shows_result(
            shown[i],
            search_id,
            pairs[i].0,
            pairs[i].1,
            cards,
            cart.contains(pairs[i].0.card_id),
        );
    }
    assert(page_shows(shown, search_id, results, cards, cart, at));
}

/// Whether a result is the first one of a list for a card.
pub open spec fn is_first_result(
    results: Seq<GroupedResultRecord>,
    card_id: i64,
    r: int,
) -> bool {
    &&& 0 <= r < results.len()
    &&& results[r].card_id == card_id
    &&& forall|j: int| 0 <= j < r ==> (#[trigger] results[j]).card_id != card_id
}

/// Whether a list has a result for a card.
pub open spec fn has_result(results: Seq<GroupedResultRecord>, card_id: i64) -> bool {
    exists|r: int| 0 <= r < results.len() && (#[trigger] results[r]).card_id == card_id
}

proof fn lemma_result_for(results: Seq<GroupedResultRecord>, card_id: i64)
    ensures
        match detail::result_for(results, card_id) {
            Some(result) => exists|r: int| #[trigger]
                is_first_result(results, card_id, r) && results[r] == result,
            None => !has_result(results, card_id),
        },
        detail::result_for(results, card_id) is Some ==> has_result(results, card_id),
    decreases results.len(),
{
    if results.len() > 0 {
        let rest = results.skip(1);
        if results[0].card_id == card_id {
            assert(is_first_result(results, card_id, 0));
        } else {
            lemma_result_for(rest, card_id);
            match detail::result_for(rest, card_id) {
                Some(result) => {
                    let r = choose|r: int| #[trigger]
                        is_first_result(rest, card_id, r) && rest[r] == result;
                    assert(results[r + 1] == rest[r]);
                    assert forall|j: int| 0 <= j < r + 1 implies (#[trigger] results[j]).card_id
                        != card_id by {
                        if j > 0 {
                            assert(rest[j - 1] == results[j]);
                        }
                    }
                    assert(is_first_result(results, card_id, r + 1));
                },
                None => {
                    assert forall|r: int| 0 <= r < results.len() implies (
                    #[trigger] results[r]).card_id != card_id by {
                        if r > 0 {
                            assert(rest[r - 1] == results[r]);
                        }
                    }
                },
            }
        }
    }
}

/// Whether a cart entry is shown: by the first result for its card.
pub open spec fn shows_entry(
    shown: GroupedResult,
    search_id: i64,
    card_id: i64,
    results: Seq<GroupedResultRecord>,
    cards: Seq<CardRecord>,
) -> bool {
    exists|r: int| #[trigger]
        is_first_result(results, card_id, r) && shows_result(
            shown,
            search_id,
            results[r],
            cards,
            false,
        )
}

/// Whether the page of a search shows a cart: the entries at `at`, in order, and each of the others
/// has no card or no result any more.
pub open spec fn cart_shows(
    shown: Seq<GroupedResult>,
    search_id: i64,
    cart: Seq<i64>,
    results: Seq<GroupedResultRecord>,
    cards: Seq<CardRecord>,
    at: Seq<int>,
) -> bool {
    &&& at.len() == shown.len()
    &&& forall|i: int, j: int| 0 <= i < j < at.len() ==> #[trigger] at[i] < #[trigger] at[j]
    &&& forall|i: int|
        0 <= i < at.len() ==> 0 <= #[trigger] at[i] < cart.len() && shows_entry(
            shown[i],
            search_id,
            cart[at[i]],
            results,
            cards,
        )
    &&& forall|c: int|
        0 <= c < cart.len() ==> at.contains(c) == (has_card(cards, #[trigger] cart[c])
            && has_result(results, cart[c]))
}

proof fn lemma_cart_with_cards(
    cart: Seq<i64>,
    results: Seq<GroupedResultRecord>,
    cards: Seq<CardRecord>,
) -> (at: Seq<int>)
    ensures
        at.len() == detail::cart_with_cards(cart, results, cards).len(),
        forall|i: int, j: int| 0 <= i < j < at.len() ==> #[trigger] at[i] < #[trigger] at[j],
        forall|i: int|
            0 <= i < at.len() ==> 0 <= #[trigger] at[i] < cart.len() && detail::result_for(
                results,
                cart[at[i]],
            ) == Some(detail::cart_with_cards(cart, results, cards)[i].0) && detail::card_for(
                cards,
                cart[at[i]],
            ) == Some(detail::cart_with_cards(cart, results, cards)[i].1),
        forall|c: int|
            0 <= c < cart.len() ==> at.contains(c) == (has_card(cards, #[trigger] cart[c])
                && has_result(results, cart[c])),
    decreases cart.len(),
{
    if cart.len() == 0 {
        Seq::empty()
    } else {
        let front = cart.drop_last();
        let last = cart.len() - 1;
        let before = lemma_cart_with_cards(front, results, cards);
        lemma_card_for(cards, cart[last]);
        lemma_result_for(results, cart[last]);
        let there = detail::card_for(cards, cart[last]) is Some && detail::result_for(
            results,
            cart[last],
        ) is Some;
        let at = if there {
            before.push(last)
        } else {
            before
        };
        let pairs = detail::cart_with_cards(cart, results, cards);
        assert forall|i: int| 0 <= i < at.len() implies 0 <= #[trigger] at[i] < cart.len()
            && detail::result_for(results, cart[at[i]]) == Some(pairs[i].0) && detail::card_for(
            cards,
            cart[at[i]],
        ) == Some(pairs[i].1) by {
            if i < before.len() {
                assert(at[i] == before[i]);
                assert(front[before[i]] == cart[at[i]]);
            }
        }
        assert forall|c: int| 0 <= c < cart.len() implies at.contains(c) == (has_card(
            cards,
            #[trigger] cart[c],
        ) && has_result(results, cart[c])) by {
            if c < last {
                assert(front[c] == cart[c]);
                if before.contains(c) {
                    let i = choose|i: int| 0 <= i < before.len() && before[i] == c;
                    assert(at[i] == c);
                }
                if at.contains(c) {
                    let i = choose|i: int| 0 <= i < at.len() && at[i] == c;
                    assert(before[i] == c);
                }
            } else if there {
                assert(at[before.len() as int] == last);
            } else if at.contains(c) {
                let i = choose|i: int| 0 <= i < at.len() && at[i] == c;
                assert(before[i] < front.len());
            }
        }
        at
    }
}

/// The page of a search shows the cart: every entry whose card and result are still there, in the
/// order of the cart, by the first result for the card.
pub proof fn law_page_shows_cart(
    shown: Seq<GroupedResult>,
    search_id: i64,
    cart: Seq<i64>,
    results: Seq<GroupedResultRecord>,
    cards: Seq<CardRecord>,
)
    requires
        detail::shows_all(
            shown,
            search_id,
            detail::cart_with_cards(cart, results, cards),
            |id: i64| false,
        ),
    ensures
        exists|at: Seq<int>| #[trigger]
            cart_shows(shown, search_id, cart, results, cards, at),
{
    let pairs = detail::cart_with_cards(cart, results, cards);
    let at = lemma_cart_with_cards(cart, results, cards);
    assert forall|i: int| 0 <= i < at.len() implies 0 <= #[trigger] at[i] < cart.len()
        && shows_entry(shown[i], search_id, cart[at[i]], results, cards) by {
        lemma_result_for(results, cart[at[i]]);
        let r = choose|r: int| #[trigger]
            is_first_result(results, cart[at[i]], r) && results[r] == pairs[i].0;
        assert(detail::shows(shown[i], search_id, pairs[i].0, pairs[i].1, false));
        lemma_shows_result(shown[i], search_id, pairs[i].0, pairs[i].1, cards, false);
        assert(is_first_result(results, cart[at[i]], r) && shows_result(
            shown[i],
            search_id,
            results[r],
            cards,
            false,
        ));
    }
    assert(cart_shows(shown, search_id, cart, results, cards, at));
}

/// A card that is put into a cart comes behind the cards that are in it; putting in and taking out
/// leave the other cards in the order in which they are.
pub proof fn law_cart_keeps_order(cart: Seq<i64>, card_id: i64)
    requires
        cart.no_duplicates(),
    ensures
        !cart.contains(card_id) ==> detail::cart_after(cart, card_id, true) == cart.push(card_id),
        cart.contains(card_id) ==> detail::cart_after(cart, card_id, true) == cart,
        detail::cart_after(cart, card_id, false) == cart.filter(|id: i64| id != card_id),
{
    detail::lemma_distinct_of_distinct(cart);
    if !cart.contains(card_id) {
        assert(cart.push(card_id).drop_last() =~= cart);
        assert(detail::distinct(cart.push(card_id)) == cart.push(card_id));
    } else {
        assert(cart.push(card_id).drop_last() =~= cart);
    }
    lemma_without_is_filter(cart, card_id);
}

proof fn lemma_without_is_filter(ids: Seq<i64>, id: i64)
    ensures
        detail::without(ids, id) == ids.filter(|x: i64| x != id),
    decreases ids.len(),
{
    reveal(Seq::filter);
    if ids.len() > 0 {
        lemma_without_is_filter(ids.drop_last(), id);
    }
}

/// The ids that two cards have among the results of one search come from different numbers.
pub proof fn law_mixed_ids_differ(search_id: i64, a: i64, b: i64)
    requires
        a != b,
    ensures
        detail::mixed(search_id, a) != detail::mixed(search_id, b),
{
}

/// The cards of a cart are those of the list whose id is in it, in the order of the list, each as
/// its record says.
pub proof fn law_selected_cards(cards: Seq<CardRecord>, cart: Seq<i64>)
    ensures
        detail::picked(cards, cart) == cards.filter(|card: CardRecord| cart.contains(card.card_id)),
        db::card_models(detail::picked(cards, cart)).len() == detail::picked(cards, cart).len(),
        forall|i: int|
            0 <= i < detail::picked(cards, cart).len() ==> shows_card(
                db::card_models(detail::picked(cards, cart))[i],
                #[trigger] detail::picked(cards, cart)[i],
            ),
    decreases cards.len(),
{
    reveal(Seq::filter);
    if cards.len() > 0 {
        law_selected_cards(cards.drop_last(), cart);
    } else {
        assert(cards =~= cards.filter(|card: CardRecord| cart.contains(card.card_id)));
    }
}


/// The page of a deck shows at most 25 cards, and all of them where there are no more.
pub proof fn law_deck_page(cards: Seq<CardRecord>)
    ensures
        ({
            let shown = db::card_models(
                order::first_n(
                    order::ranked::<SmallestId, CardRecord>(cards),
                    detail::SAMPLE_CARDS as nat,
                ),
            );
            &&& shown.len() == if cards.len() <= 25 {
                cards.len()
            } else {
                25
            }
            &&& exists|at: Seq<int>| #[trigger] shows_smallest(shown, cards, at)
        }),
{
    law_sample_cards(cards, 25);
}

} // verus!
