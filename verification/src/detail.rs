//! A search's page: its results, its cart and the cards that were picked.

use vstd::prelude::*;
use crate::db;
use crate::db::{Database, StoreError};
use crate::json;
use crate::models::{
    CardRecord, DeckDetail, DeckRecord, GroupedResult, GroupedResultRecord, ImportedCard, Material,
    MaterialDetail, MaterialRecord, SearchDetail, SearchRecord, Timestamp,
};
use crate::strings;

verus! {

/// A list of ids without repetitions, each where it first stood.
pub open spec fn distinct(ids: Seq<i64>) -> Seq<i64>
    decreases ids.len(),
{
    if ids.len() == 0 {
        ids
    } else {
        let front = distinct(ids.drop_last());
        if front.contains(ids.last()) {
            front
        } else {
            front.push(ids.last())
        }
    }
}

/// A list of ids without one of them.
pub open spec fn without(ids: Seq<i64>, id: i64) -> Seq<i64>
    decreases ids.len(),
{
    if ids.len() == 0 {
        ids
    } else if ids.last() == id {
        without(ids.drop_last(), id)
    } else {
        without(ids.drop_last(), id).push(ids.last())
    }
}

/// A cart after a card was put in or taken out.
pub open spec fn cart_after(cart: Seq<i64>, card_id: i64, wanted: bool) -> Seq<i64> {
    if wanted {
        distinct(cart.push(card_id))
    } else {
        without(distinct(cart), card_id)
    }
}

fn distinct_ids(ids: &Vec<i64>) -> (res: Vec<i64>)
    ensures
        res@ == distinct(ids@),
{
    let mut res: Vec<i64> = Vec::new();
    for i in 0..ids.len()
        invariant
            res@ == distinct(ids@.take(i as int)),
    {
        assert(ids@.take(i + 1).drop_last() =~= ids@.take(i as int));
        if !db::has_id(&res, ids[i]) {
            res.push(ids[i]);
        }
    }
    assert(ids@.take(ids@.len() as int) =~= ids@);
    res
}

fn without_id(ids: &Vec<i64>, id: i64) -> (res: Vec<i64>)
    ensures
        res@ == without(ids@, id),
{
    let mut res: Vec<i64> = Vec::new();
    for i in 0..ids.len()
        invariant
            res@ == without(ids@.take(i as int), id),
    {
        assert(ids@.take(i + 1).drop_last() =~= ids@.take(i as int));
        if ids[i] != id {
            res.push(ids[i]);
        }
    }
    assert(ids@.take(ids@.len() as int) =~= ids@);
    res
}

proof fn lemma_distinct(ids: Seq<i64>)
    ensures
        distinct(ids).no_duplicates(),
        forall|x: i64|
            #![trigger distinct(ids).contains(x)]
            #![trigger ids.contains(x)]
            distinct(ids).contains(x) <==> ids.contains(x),
    decreases ids.len(),
{
    if ids.len() > 0 {
        let front = ids.drop_last();
        let d = distinct(front);
        lemma_distinct(front);
        assert(ids =~= front.push(ids.last()));
        assert forall|x: i64| distinct(ids).contains(x) <==> ids.contains(x) by {
            if ids.contains(x) {
                let i = choose|i: int| 0 <= i < ids.len() && ids[i] == x;
                if i < front.len() {
                    assert(front[i] == x && front.contains(x));
                    let j = choose|j: int| 0 <= j < d.len() && d[j] == x;
                    assert(distinct(ids)[j] == x);
                } else if !d.contains(x) {
                    assert(distinct(ids)[d.len() as int] == x);
                }
            }
            if distinct(ids).contains(x) {
                let j = choose|j: int| 0 <= j < distinct(ids).len() && distinct(ids)[j] == x;
                if j < d.len() {
                    assert(d[j] == x && d.contains(x));
                    let i = choose|i: int| 0 <= i < front.len() && front[i] == x;
                    assert(ids[i] == x);
                } else {
                    assert(ids[ids.len() - 1] == x);
                }
            }
        }
    }
}

proof fn lemma_without(ids: Seq<i64>, id: i64)
    requires
        ids.no_duplicates(),
    ensures
        without(ids, id).no_duplicates(),
        forall|x: i64|
            #![trigger without(ids, id).contains(x)]
            #![trigger ids.contains(x)]
            without(ids, id).contains(x) <==> ids.contains(x) && x != id,
    decreases ids.len(),
{
    if ids.len() > 0 {
        let front = ids.drop_last();
        let w = without(front, id);
        lemma_without(front, id);
        assert(ids =~= front.push(ids.last()));
        assert(!front.contains(ids.last()));
        assert forall|x: i64| without(ids, id).contains(x) <==> ids.contains(x) && x != id by {
            if ids.contains(x) && x != id {
                let i = choose|i: int| 0 <= i < ids.len() && ids[i] == x;
                if i < front.len() {
                    assert(front[i] == x && front.contains(x));
                    let j = choose|j: int| 0 <= j < w.len() && w[j] == x;
                    assert(without(ids, id)[j] == x);
                } else {
                    assert(without(ids, id)[w.len() as int] == x);
                }
            }
            if without(ids, id).contains(x) {
                let j = choose|j: int| 0 <= j < without(ids, id).len() && without(ids, id)[j] == x;
                if j < w.len() {
                    assert(w[j] == x && w.contains(x));
                    let i = choose|i: int| 0 <= i < front.len() && front[i] == x;
                    assert(ids[i] == x);
                } else {
                    assert(ids[ids.len() - 1] == x);
                }
            }
        }
        assert forall|i: int, j: int|
            0 <= i < j < without(ids, id).len() implies without(ids, id)[i] != without(ids, id)[j] by {
            if j == w.len() {
                assert(w.contains(w[i]));
            }
        }
    }
}

/// A cart holds no card twice; a card that was put in is in it, one that was taken out is not,
/// and every other card is in it as before.
pub proof fn law_cart(cart: Seq<i64>, card_id: i64, wanted: bool)
    ensures
        cart_after(cart, card_id, wanted).no_duplicates(),
        forall|x: i64|
            #![trigger cart_after(cart, card_id, wanted).contains(x)]
            cart_after(cart, card_id, wanted).contains(x) <==> (if x == card_id {
                wanted
            } else {
                cart.contains(x)
            }),
{
    if wanted {
        lemma_distinct(cart.push(card_id));
        assert forall|x: i64|
            #![trigger cart_after(cart, card_id, wanted).contains(x)]
            cart.push(card_id).contains(x) <==> (if x == card_id {
                wanted
            } else {
                cart.contains(x)
            }) by {
            if x == card_id {
                assert(cart.push(card_id)[cart.len() as int] == x);
            } else if cart.contains(x) {
                let i = choose|i: int| 0 <= i < cart.len() && cart[i] == x;
                assert(cart.push(card_id)[i] == x);
            }
        }
    } else {
        lemma_distinct(cart);
        lemma_without(distinct(cart), card_id);
    }
}

/// Putting a card in and taking it out again leaves the other cards of the cart.
pub proof fn law_cart_undo(cart: Seq<i64>, card_id: i64)
    requires
        cart.no_duplicates(),
        !cart.contains(card_id),
    ensures
        cart_after(cart_after(cart, card_id, true), card_id, false) == cart,
{
    lemma_distinct_of_distinct(cart);
    let more = cart.push(card_id);
    assert(more.drop_last() =~= cart);
    assert(distinct(more) == more);
    assert forall|i: int, j: int| 0 <= i < j < more.len() implies more[i] != more[j] by {
        if j == cart.len() {
            assert(cart.contains(cart[i]));
        }
    }
    lemma_distinct_of_distinct(more);
    lemma_without_absent(cart, card_id);
}

pub proof fn lemma_distinct_of_distinct(ids: Seq<i64>)
    requires
        ids.no_duplicates(),
    ensures
        distinct(ids) == ids,
    decreases ids.len(),
{
    if ids.len() > 0 {
        let front = ids.drop_last();
        lemma_distinct_of_distinct(front);
        assert(!front.contains(ids.last()));
        assert(ids =~= front.push(ids.last()));
    }
}

proof fn lemma_without_absent(ids: Seq<i64>, id: i64)
    requires
        !ids.contains(id),
    ensures
        without(ids, id) == ids,
    decreases ids.len(),
{
    if ids.len() > 0 {
        let front = ids.drop_last();
        assert(ids[ids.len() - 1] != id);
        assert(!front.contains(id)) by {
            if front.contains(id) {
                let i = choose|i: int| 0 <= i < front.len() && front[i] == id;
                assert(ids[i] == id);
            }
        }
        lemma_without_absent(front, id);
        assert(ids =~= front.push(ids.last()));
    }
}

/// The cards whose id is in a cart.
pub open spec fn picked(cards: Seq<CardRecord>, cart: Seq<i64>) -> Seq<CardRecord>
    decreases cards.len(),
{
    if cards.len() == 0 {
        cards
    } else if cart.contains(cards.last().card_id) {
        picked(cards.drop_last(), cart).push(cards.last())
    } else {
        picked(cards.drop_last(), cart)
    }
}

/// The cards that are picked are the cards whose id is in the cart: no other, and none is left out.
pub proof fn law_picked(cards: Seq<CardRecord>, cart: Seq<i64>)
    ensures
        forall|i: int|
            0 <= i < picked(cards, cart).len() ==> cart.contains(
                (#[trigger] picked(cards, cart)[i]).card_id,
            ) && cards.contains(picked(cards, cart)[i]),
        forall|i: int|
            0 <= i < cards.len() && cart.contains((#[trigger] cards[i]).card_id) ==> picked(
                cards,
                cart,
            ).contains(cards[i]),
    decreases cards.len(),
{
    if cards.len() > 0 {
        let before = cards.drop_last();
        let front = picked(before, cart);
        let all = picked(cards, cart);
        law_picked(before, cart);
        assert forall|i: int| 0 <= i < all.len() implies cart.contains((#[trigger] all[i]).card_id)
            && cards.contains(all[i]) by {
            if i < front.len() {
                assert(all[i] == front[i]);
                let k = choose|k: int| 0 <= k < before.len() && before[k] == front[i];
                assert(cards[k] == all[i]);
            } else {
                assert(cards[cards.len() - 1] == all[i]);
            }
        }
        assert forall|i: int|
            0 <= i < cards.len() && cart.contains((#[trigger] cards[i]).card_id) implies all.contains(
            cards[i],
        ) by {
            if i < before.len() {
                assert(before[i] == cards[i]);
                let k = choose|k: int| 0 <= k < front.len() && front[k] == cards[i];
                assert(all[k] == cards[i]);
            } else {
                assert(all[front.len() as int] == cards[i]);
            }
        }
    }
}

impl Database {
    /// A search's record after a card was put into its cart or taken out of it.
    pub fn upsert_cart_item(
        search_id: i64,
        found: Option<SearchRecord>,
        card_id: i64,
        wanted: bool,
    ) -> (res: Result<SearchRecord, StoreError>)
        ensures
            match (found, res) {
                (None, Err(e)) => e == StoreError::SearchNotFound(search_id),
                (Some(was), Ok(now)) => {
                    &&& now.cart@ == cart_after(was.cart@, card_id, wanted)
                    &&& now == (SearchRecord { cart: now.cart, ..was })
                },
                _ => false,
            },
    {
        match found {
            None => Err(StoreError::SearchNotFound(search_id)),
            Some(record) => {
                let mut record = record;
                let mut cart: Vec<i64> = distinct_ids(&record.cart);
                if wanted {
                    let ghost given = record.cart@;
                    assert(given.push(card_id).drop_last() =~= given);
                    if !db::has_id(&cart, card_id) {
                        cart.push(card_id);
                    }
                } else {
                    cart = without_id(&cart, card_id);
                }
                record.cart = cart;
                Ok(record)
            },
        }
    }

    /// The cards that a search's cart holds, in the order in which they were found.
    pub fn get_selected_cards(
        search_id: i64,
        found: Option<SearchRecord>,
        cards: Vec<CardRecord>,
    ) -> (res: Result<Vec<ImportedCard>, StoreError>)
        ensures
            match (found, res) {
                (None, Err(e)) => e == StoreError::SearchNotFound(search_id),
                (Some(search), Ok(picks)) => picks@ == db::card_models(
                    picked(cards@, search.cart@),
                ),
                _ => false,
            },
    {
        let search = match found {
            None => return Err(StoreError::SearchNotFound(search_id)),
            Some(search) => search,
        };
        let mut res: Vec<ImportedCard> = Vec::new();
        let ghost all = cards@;
        for card in it: cards
            invariant
                it.seq() == all,
                res@ == db::card_models(picked(all.take(it.index() as int), search.cart@)),
        {
            let ghost n = it.index() as int;
            assert(all.take(n + 1).drop_last() =~= all.take(n));
            if db::has_id(&search.cart, card.card_id) {
                let ghost before = picked(all.take(n), search.cart@);
                res.push(db::card_record_to_model(card));
                assert(res@ =~= db::card_models(before.push(card)));
            }
        }
        assert(all.take(all.len() as int) =~= all);
        Ok(res)
    }

    /// The fields of a card's note, as JSON and joined, and the name of its deck.
    pub fn get_note_fields_for_card(card_id: i64, found: Option<CardRecord>) -> (res: Result<
        (String, String, String),
        StoreError,
    >)
        ensures
            res == (match found {
                Some(card) => Ok::<(String, String, String), StoreError>(
                    (card.fields_json, card.fields_joined, card.deck_name),
                ),
                None => Err(StoreError::CardNotFound(card_id)),
            }),
    {
        match found {
            Some(card) => Ok((card.fields_json, card.fields_joined, card.deck_name)),
            None => Err(StoreError::CardNotFound(card_id)),
        }
    }
}

/// A search and a card mixed into one number, with wrapping arithmetic.
pub open spec fn mixed(search_id: i64, card_id: i64) -> i64 {
    search_id.wrapping_mul(1_000_003).wrapping_add(card_id)
}

/// The magnitude of an integer.
pub open spec fn magnitude(i: int) -> int {
    if i < 0 {
        -i
    } else {
        i
    }
}

/// Whether a search and a card mix into a number whose magnitude is an `i64`.
pub fn has_stable_id(search_id: i64, card_id: i64) -> (res: bool)
    ensures
        res == (mixed(search_id, card_id) != i64::MIN),
{
    search_id.wrapping_mul(1_000_003).wrapping_add(card_id) != i64::MIN
}

/// The id of a card among the results of a search: the same whenever it is asked for.
pub fn stable_id(search_id: i64, card_id: i64) -> (res: i64)
    requires
        mixed(search_id, card_id) != i64::MIN,
    ensures
        res == magnitude(mixed(search_id, card_id) as int),
{
    let mix: i64 = search_id.wrapping_mul(1_000_003).wrapping_add(card_id);
    if mix < 0 {
        -mix
    } else {
        mix
    }
}

/// The last card with an id.
pub open spec fn card_for(cards: Seq<CardRecord>, card_id: i64) -> Option<CardRecord>
    decreases cards.len(),
{
    if cards.len() == 0 {
        None
    } else if cards.last().card_id == card_id {
        Some(cards.last())
    } else {
        card_for(cards.drop_last(), card_id)
    }
}

/// The first result for a card.
pub open spec fn result_for(results: Seq<GroupedResultRecord>, card_id: i64) -> Option<
    GroupedResultRecord,
>
    decreases results.len(),
{
    if results.len() == 0 {
        None
    } else if results[0].card_id == card_id {
        Some(results[0])
    } else {
        result_for(results.skip(1), card_id)
    }
}

/// The JSON text of a list of labels.
pub open spec fn labels_json(labels: Seq<Seq<char>>) -> Seq<char> {
    match json::string_list_text(labels) {
        Some(text) => text,
        None => "[]"@,
    }
}

/// Whether `shown` is what the page of a search shows of a result and its card.
pub open spec fn shows(
    shown: GroupedResult,
    search_id: i64,
    result: GroupedResultRecord,
    card: CardRecord,
    in_cart: bool,
) -> bool {
    &&& shown.id == magnitude(mixed(search_id, result.card_id) as int)
    &&& shown.search_id == search_id
    &&& shown.card_id == result.card_id
    &&& shown.rerank_score == result.rerank_score
    &&& shown.fused_score == result.fused_score
    &&& shown.chunk_hits == result.chunk_hits
    &&& shown.lexical_bonus == result.lexical_bonus
    &&& shown.best_snippet@ == result.best_snippet@
    &&& shown.matched_labels_json@ == labels_json(strings::texts(result.matched_labels@))
    &&& shown.matched_labels_text@ == strings::join(
        strings::texts(result.matched_labels@),
        ", "@,
    )
    &&& shown.deck_name@ == card.deck_name@
    &&& shown.card_text_clean@ == card.card_text_clean@
    &&& shown.in_cart == in_cart
}

/// The results whose card is still there, each with its card.
pub open spec fn with_cards(results: Seq<GroupedResultRecord>, cards: Seq<CardRecord>) -> Seq<
    (GroupedResultRecord, CardRecord),
>
    decreases results.len(),
{
    if results.len() == 0 {
        Seq::empty()
    } else {
        let front = with_cards(results.drop_last(), cards);
        match card_for(cards, results.last().card_id) {
            Some(card) => front.push((results.last(), card)),
            None => front,
        }
    }
}

/// The cards of a cart that are still there and have a result, each with its first result.
pub open spec fn cart_with_cards(
    cart: Seq<i64>,
    results: Seq<GroupedResultRecord>,
    cards: Seq<CardRecord>,
) -> Seq<(GroupedResultRecord, CardRecord)>
    decreases cart.len(),
{
    if cart.len() == 0 {
        Seq::empty()
    } else {
        let front = cart_with_cards(cart.drop_last(), results, cards);
        match (result_for(results, cart.last()), card_for(cards, cart.last())) {
            (Some(result), Some(card)) => front.push((result, card)),
            _ => front,
        }
    }
}

fn find_card(cards: &Vec<CardRecord>, card_id: i64) -> (res: Option<usize>)
    ensures
        match res {
            Some(i) => i < cards.len() && card_for(cards@, card_id) == Some(cards@[i as int]),
            None => card_for(cards@, card_id) is None,
        },
{
    let mut n: usize = cards.len();
    assert(cards@.take(cards@.len() as int) =~= cards@);
    while n > 0
        invariant
            n <= cards.len(),
            card_for(cards@, card_id) == card_for(cards@.take(n as int), card_id),
        decreases n,
    {
        assert(cards@.take(n as int).drop_last() =~= cards@.take(n - 1));
        if cards[n - 1].card_id == card_id {
            return Some(n - 1);
        }
        n = n - 1;
    }
    None
}

fn find_result(results: &Vec<GroupedResultRecord>, card_id: i64) -> (res: Option<usize>)
    ensures
        match res {
            Some(i) => i < results.len() && result_for(results@, card_id) == Some(
                results@[i as int],
            ) && results@[i as int].card_id == card_id,
            None => result_for(results@, card_id) is None,
        },
{
    let mut i: usize = 0;
    assert(results@.skip(0) =~= results@);
    while i < results.len()
        invariant
            i <= results.len(),
            result_for(results@, card_id) == result_for(results@.skip(i as int), card_id),
        decreases results.len() - i,
    {
        assert(results@.skip(i as int).skip(1) =~= results@.skip(i + 1));
        if results[i].card_id == card_id {
            return Some(i);
        }
        i = i + 1;
    }
    None
}

/// What the page of a search shows of a result and its card.
pub fn grouped_result_record_to_model(
    search_id: i64,
    result: &GroupedResultRecord,
    card: &CardRecord,
    in_cart: bool,
) -> (res: GroupedResult)
    requires
        mixed(search_id, result.card_id) != i64::MIN,
    ensures
        shows(res, search_id, *result, *card, in_cart),
{
    let matched_labels_json = match json::write_string_list(&result.matched_labels) {
        Some(text) => text,
        None => strings::copy("[]"),
    };
    GroupedResult {
        id: stable_id(search_id, result.card_id),
        search_id,
        card_id: result.card_id,
        rerank_score: result.rerank_score,
        fused_score: result.fused_score,
        chunk_hits: result.chunk_hits,
        lexical_bonus: result.lexical_bonus,
        best_snippet: result.best_snippet.clone(),
        matched_labels_json,
        matched_labels_text: strings::join_all(&result.matched_labels, ", "),
        deck_name: card.deck_name.clone(),
        card_text_clean: card.card_text_clean.clone(),
        in_cart,
    }
}

/// Whether every result of a search whose card is still there has a stable id.
pub open spec fn ids_are_stable(
    search_id: i64,
    results: Seq<GroupedResultRecord>,
    cards: Seq<CardRecord>,
) -> bool {
    forall|i: int|
        0 <= i < results.len() && card_for(cards, (#[trigger] results[i]).card_id) is Some
            ==> mixed(search_id, results[i].card_id) != i64::MIN
}

/// Whether a list shows pairs of results and cards, in order.
pub open spec fn shows_all(
    shown: Seq<GroupedResult>,
    search_id: i64,
    pairs: Seq<(GroupedResultRecord, CardRecord)>,
    in_cart: spec_fn(i64) -> bool,
) -> bool {
    &&& shown.len() == pairs.len()
    &&& forall|i: int|
        0 <= i < shown.len() ==> shows(
            #[trigger] shown[i],
            search_id,
            pairs[i].0,
            pairs[i].1,
            in_cart(pairs[i].0.card_id),
        )
}

fn shown_results(record: &SearchRecord, cards: &Vec<CardRecord>) -> (res: Vec<GroupedResult>)
    requires
        ids_are_stable(record.id, record.results@, cards@),
    ensures
        shows_all(
            res@,
            record.id,
            with_cards(record.results@, cards@),
            |id: i64| record.cart@.contains(id),
        ),
{
    let mut res: Vec<GroupedResult> = Vec::new();
    let ghost in_cart = |id: i64| record.cart@.contains(id);
    for i in 0..record.results.len()
        invariant
            ids_are_stable(record.id, record.results@, cards@),
            in_cart == (|id: i64| record.cart@.contains(id)),
            shows_all(
                res@,
                record.id,
                with_cards(record.results@.take(i as int), cards@),
                in_cart,
            ),
    {
        let ghost all = record.results@;
        assert(all.take(i + 1).drop_last() =~= all.take(i as int));
        let result = &record.results[i];
        if let Some(k) = find_card(cards, result.card_id) {
            res.push(
                grouped_result_record_to_model(
                    record.id,
                    result,
                    &cards[k],
                    db::has_id(&record.cart, result.card_id),
                ),
            );
        }
    }
    assert(record.results@.take(record.results@.len() as int) =~= record.results@);
    res
}

fn shown_cart(record: &SearchRecord, cards: &Vec<CardRecord>) -> (res: Vec<GroupedResult>)
    requires
        ids_are_stable(record.id, record.results@, cards@),
    ensures
        shows_all(
            res@,
            record.id,
            cart_with_cards(record.cart@, record.results@, cards@),
            |id: i64| false,
        ),
{
    let mut res: Vec<GroupedResult> = Vec::new();
    let ghost in_cart = |id: i64| false;
    for i in 0..record.cart.len()
        invariant
            ids_are_stable(record.id, record.results@, cards@),
            in_cart == (|id: i64| false),
            shows_all(
                res@,
                record.id,
                cart_with_cards(record.cart@.take(i as int), record.results@, cards@),
                in_cart,
            ),
    {
        let ghost all = record.cart@;
        assert(all.take(i + 1).drop_last() =~= all.take(i as int));
        let card_id: i64 = record.cart[i];
        match (find_result(&record.results, card_id), find_card(cards, card_id)) {
            (Some(r), Some(c)) => {
                res.push(
                    grouped_result_record_to_model(
                        record.id,
                        &record.results[r],
                        &cards[c],
                        false,
                    ),
                );
            },
            _ => {},
        }
    }
    assert(record.cart@.take(record.cart@.len() as int) =~= record.cart@);
    res
}

/// How many cards of a deck its page shows.
pub const SAMPLE_CARDS: usize = 25;

impl Database {
    /// What the page of a deck shows, where the deck was found.
    pub fn get_deck_detail(
        found: Option<DeckRecord>,
        cards: Vec<CardRecord>,
        now: Timestamp,
    ) -> (res: Option<DeckDetail>)
        ensures
            match (found, res) {
                (None, None) => true,
                (Some(deck), Some(detail)) => {
                    &&& detail.deck == db::deck_model(deck, now)
                    &&& detail.models == deck.models
                    &&& detail.sample_cards@ == db::card_models(
                        crate::order::first_n(
                            crate::order::ranked::<db::SmallestId, CardRecord>(cards@),
                            SAMPLE_CARDS as nat,
                        ),
                    )
                },
                _ => false,
            },
    {
        match found {
            None => None,
            Some(deck) => {
                let mut deck = deck;
                let mut models: Vec<crate::models::DeckModel> = Vec::new();
                std::mem::swap(&mut models, &mut deck.models);
                Some(
                    DeckDetail {
                        deck: db::deck_record_to_model(deck, now),
                        models,
                        sample_cards: Database::get_cards_for_deck(cards, SAMPLE_CARDS),
                    },
                )
            },
        }
    }

    /// The model of a material that was found.
    pub fn get_material(found: Option<MaterialRecord>, now: Timestamp) -> (res: Option<Material>)
        ensures
            res == (match found {
                Some(record) => Some(db::material_model(record, now)),
                None => None,
            }),
    {
        match found {
            Some(record) => Some(db::material_record_to_model(record, now)),
            None => None,
        }
    }

    /// What the page of a material shows, where the material was found.
    pub fn get_material_detail(found: Option<MaterialRecord>, now: Timestamp) -> (res: Option<
        MaterialDetail,
    >)
        ensures
            match (found, res) {
                (None, None) => true,
                (Some(record), Some(detail)) => detail.material == db::material_model(record, now)
                    && detail.segments == record.segments,
                _ => false,
            },
    {
        match found {
            None => None,
            Some(record) => {
                let mut record = record;
                let mut segments: Vec<crate::models::MaterialSegment> = Vec::new();
                std::mem::swap(&mut segments, &mut record.segments);
                Some(
                    MaterialDetail { material: db::material_record_to_model(record, now), segments },
                )
            },
        }
    }

    /// The model of a search that was found.
    pub fn get_search(found: Option<SearchRecord>, now: Timestamp) -> (res: Option<
        crate::models::Search,
    >)
        ensures
            res == (match found {
                Some(record) => Some(db::search_model(record, now)),
                None => None,
            }),
    {
        match found {
            Some(record) => Some(db::search_record_to_model(record, now)),
            None => None,
        }
    }

    /// What the page of a search shows, where the search was found: its results and its cart with
    /// the cards that are still there, its material where it has one, and the decks to search in.
    pub fn get_search_detail(
        found: Option<SearchRecord>,
        material: Option<MaterialRecord>,
        cards: Vec<CardRecord>,
        decks: Vec<DeckRecord>,
        now: Timestamp,
    ) -> (res: Option<SearchDetail>)
        requires
            found matches Some(record) ==> ids_are_stable(record.id, record.results@, cards@),
        ensures
            match (found, res) {
                (None, None) => true,
                (Some(record), Some(detail)) => {
                    &&& detail.search == db::search_model(record, now)
                    &&& detail.material == (match (record.material_id, material) {
                        (Some(_), Some(m)) => Some(db::material_model(m, now)),
                        _ => None,
                    })
                    &&& shows_all(
                        detail.results@,
                        record.id,
                        with_cards(record.results@, cards@),
                        |id: i64| record.cart@.contains(id),
                    )
                    &&& shows_all(
                        detail.cart@,
                        record.id,
                        cart_with_cards(record.cart@, record.results@, cards@),
                        |id: i64| false,
                    )
                    &&& detail.cart_card_ids == record.cart
                    &&& detail.available_decks@ == db::deck_models(
                        crate::order::ranked::<db::Newest, DeckRecord>(decks@),
                        now,
                    )
                },
                _ => false,
            },
    {
        let record = match found {
            None => return None,
            Some(record) => record,
        };
        let results = shown_results(&record, &cards);
        let cart = shown_cart(&record, &cards);
        let material = match record.material_id {
            Some(_) => Database::get_material(material, now),
            None => None,
        };
        let mut record = record;
        let mut cart_card_ids: Vec<i64> = Vec::new();
        std::mem::swap(&mut cart_card_ids, &mut record.cart);
        Some(
            SearchDetail {
                search: db::search_record_to_model(record, now),
                material,
                results,
                cart,
                cart_card_ids,
                available_decks: Database::list_decks(decks, now),
            },
        )
    }
}

} // verus!
