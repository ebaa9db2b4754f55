//! Lexical search: cards by how many terms of a query they hold.

use vstd::prelude::*;
use crate::db::{Database, HighestScore, Query, FIRST_CHUNK};
use crate::models::{CardRecord, ScoreKey};
use crate::order;
use crate::strings;

verus! {

/// How long a term of a lexical search is at least, in bytes.
pub const MIN_TERM_BYTES: usize = 2;

/// The terms of a lexical query: its runs of letters and numbers, in lower case, of two bytes or
/// more.
pub fn tokenize(query: &str) -> (res: Vec<String>)
    ensures
        strings::texts(res@) == strings::terms(query@, 2),
{
    strings::split_terms(query, MIN_TERM_BYTES)
}

/// The text of a card that a lexical search looks through.
pub open spec fn haystack(card: CardRecord) -> Seq<char> {
    strings::lowercase(
        card.card_text_clean@ + " "@ + card.fields_joined@ + " "@ + card.tags@ + " "@
            + card.deck_name@,
    )
}

/// Whether the text, the joined fields, the tags and the deck name of a card are ASCII alone.
pub open spec fn ascii_card(card: CardRecord) -> bool {
    strings::ascii(card.card_text_clean@) && strings::ascii(card.fields_joined@) && strings::ascii(
        card.tags@,
    ) && strings::ascii(card.deck_name@)
}

/// Whether a term stands in the text, the joined fields, the tags or the deck name of a card; the
/// case of ASCII letters does not matter.
pub open spec fn held_by(term: Seq<char>, card: CardRecord) -> bool {
    ||| strings::occurs(term, strings::lowered(card.card_text_clean@))
    ||| strings::occurs(term, strings::lowered(card.fields_joined@))
    ||| strings::occurs(term, strings::lowered(card.tags@))
    ||| strings::occurs(term, strings::lowered(card.deck_name@))
}

/// Whether a text holds the words that a card holds, and no others.
pub open spec fn holds_words_of(text: Seq<char>, card: CardRecord) -> bool {
    forall|term: Seq<char>|
        strings::is_word(term) ==> #[trigger] strings::occurs(term, text) == held_by(term, card)
}

proof fn lemma_holds_words(card: CardRecord)
    ensures
        holds_words_of(
            strings::lowered(
                card.card_text_clean@ + " "@ + card.fields_joined@ + " "@ + card.tags@ + " "@
                    + card.deck_name@,
            ),
            card,
        ),
{
    reveal_strlit(" ");
    let a = strings::lowered(card.card_text_clean@);
    let b = strings::lowered(card.fields_joined@);
    let c = strings::lowered(card.tags@);
    let d = strings::lowered(card.deck_name@);
    let text = strings::lowered(
        card.card_text_clean@ + " "@ + card.fields_joined@ + " "@ + card.tags@ + " "@
            + card.deck_name@,
    );
    let ab = a.push(' ') + b;
    let abc = ab.push(' ') + c;
    assert(text =~= abc.push(' ') + d);
    assert forall|term: Seq<char>| strings::is_word(term) implies #[trigger] strings::occurs(
        term,
        text,
    ) == held_by(term, card) by {
        let none = Seq::<char>::empty();
        if strings::occurs(term, text) {
            strings::lemma_word_in_either(term, abc, d);
            if strings::occurs(term, abc) {
                strings::lemma_word_in_either(term, ab, c);
                if strings::occurs(term, ab) {
                    strings::lemma_word_in_either(term, a, b);
                }
            }
        }
        if strings::occurs(term, a) {
            let rest = seq![' '] + b + seq![' '] + c + seq![' '] + d;
            strings::lemma_occurs_in_part(term, none, a, rest);
            assert(none + a + rest =~= text);
        } else if strings::occurs(term, b) {
            let rest = seq![' '] + c + seq![' '] + d;
            strings::lemma_occurs_in_part(term, a.push(' '), b, rest);
            assert(a.push(' ') + b + rest =~= text);
        } else if strings::occurs(term, c) {
            let rest = seq![' '] + d;
            strings::lemma_occurs_in_part(term, ab.push(' '), c, rest);
            assert(ab.push(' ') + c + rest =~= text);
        } else if strings::occurs(term, d) {
            strings::lemma_occurs_in_part(term, abc.push(' '), d, none);
            assert(abc.push(' ') + d + none =~= text);
        }
    }
}

fn haystack_of(card: &CardRecord) -> (res: String)
    ensures
        res@ == haystack(*card),
        ascii_card(*card) ==> holds_words_of(res@, *card),
{
    proof {
        lemma_holds_words(*card);
        reveal_strlit(" ");
    }
    let mut text = card.card_text_clean.clone();
    text.append(" ");
    text.append(card.fields_joined.as_str());
    text.append(" ");
    text.append(card.tags.as_str());
    text.append(" ");
    text.append(card.deck_name.as_str());
    assert(text@ =~= card.card_text_clean@ + " "@ + card.fields_joined@ + " "@ + card.tags@ + " "@
        + card.deck_name@);
    text.as_str().to_lowercase()
}

/// Whether a list of overlaps has a card.
pub open spec fn lists(found: Seq<(i64, usize)>, card_id: i64) -> bool {
    exists|i: int| 0 <= i < found.len() && (#[trigger] found[i]).0 == card_id
}

/// Whether an id is that of a card that holds one of the terms.
pub open spec fn is_of_holder(
    card_id: i64,
    cards: Seq<CardRecord>,
    terms: Seq<Seq<char>>,
) -> bool {
    exists|j: int|
        0 <= j < cards.len() && (#[trigger] cards[j]).card_id == card_id && holds_any(
            cards[j],
            terms,
        )
}

/// Whether a card holds one of the terms.
pub open spec fn holds_any(card: CardRecord, terms: Seq<Seq<char>>) -> bool {
    exists|k: int| 0 <= k < terms.len() && held_by(#[trigger] terms[k], card)
}

/// The cards that hold at least one of the terms, each with the number of terms it holds.
pub open spec fn overlaps(cards: Seq<CardRecord>, terms: Seq<Seq<char>>) -> Seq<(i64, usize)>
    decreases cards.len(),
{
    if cards.len() == 0 {
        Seq::empty()
    } else {
        let front = overlaps(cards.drop_last(), terms);
        let overlap = strings::count_in(terms, haystack(cards.last()));
        if overlap == 0 {
            front
        } else {
            front.push((cards.last().card_id, overlap as usize))
        }
    }
}

/// A lexical search to be made: its terms, and the cards to look through.
#[derive(Debug, Clone)]
pub struct LexicalQuery {
    pub terms: Vec<String>,
    pub cards: Query,
}

impl Database {
    /// The lexical search for a query, `None` where the query has no terms and nothing is to be
    /// found.
    pub fn lexical_query(&self, query: &str, deck_import_id: Option<i64>) -> (res: Option<LexicalQuery>)
        ensures
            match res {
                None => strings::terms(query@, 2).len() == 0,
                Some(q) => {
                    &&& strings::terms(query@, 2).len() > 0
                    &&& strings::texts(q.terms@) == strings::terms(query@, 2)
                    &&& q.cards.collection == self.qdrant_collection
                    &&& q.cards.filter matches Some(f) && (forall|card: CardRecord|
                        #![trigger f.selects(card)]
                        f.selects(card) <==> card.chunk_index == FIRST_CHUNK && (
                        deck_import_id matches Some(id) ==> card.import_id == id))
                },
            },
    {
        let terms = tokenize(query);
        assert(terms@.len() == strings::texts(terms@).len());
        if terms.len() == 0 {
            None
        } else {
            Some(LexicalQuery { terms, cards: self.cards_of_deck(deck_import_id) })
        }
    }

    /// How many of the terms each card holds, for the cards that hold any.
    pub fn lexical_overlaps(cards: &Vec<CardRecord>, terms: &Vec<String>) -> (res: Vec<(i64, usize)>)
        ensures
            res@ == overlaps(cards@, strings::texts(terms@)),
            (forall|k: int| 0 <= k < terms@.len() ==> strings::is_word((#[trigger] terms@[k])@))
                ==> forall|j: int|
                #![trigger cards@[j]]
                0 <= j < cards@.len() && ascii_card(cards@[j]) && holds_any(
                    cards@[j],
                    strings::texts(terms@),
                ) ==> lists(res@, cards@[j].card_id),
            (forall|k: int| 0 <= k < terms@.len() ==> strings::is_word((#[trigger] terms@[k])@))
                && (forall|j: int| 0 <= j < cards@.len() ==> ascii_card(#[trigger] cards@[j]))
                ==> forall|i: int|
                0 <= i < res@.len() ==> is_of_holder(
                    (#[trigger] res@[i]).0,
                    cards@,
                    strings::texts(terms@),
                ),
    {
        let mut res: Vec<(i64, usize)> = Vec::new();
        for i in 0..cards.len()
            invariant
                res@ == overlaps(cards@.take(i as int), strings::texts(terms@)),
                forall|j: int|
                    #![trigger cards@[j]]
                    0 <= j < i && ascii_card(cards@[j]) ==> holds_words_of(
                        haystack(cards@[j]),
                        cards@[j],
                    ),
        {
            assert(cards@.take(i + 1).drop_last() =~= cards@.take(i as int));
            let text = haystack_of(&cards[i]);
            let overlap: usize = strings::count_terms(terms, text.as_str());
            if overlap != 0 {
                res.push((cards[i].card_id, overlap));
            }
        }
        assert(cards@.take(cards@.len() as int) =~= cards@);
        let n: usize = terms.len();
        proof {
            let all = strings::texts(terms@);
            assert(all.len() == n);
            if forall|k: int| 0 <= k < terms@.len() ==> strings::is_word((#[trigger] terms@[k])@) {
                assert forall|k: int| 0 <= k < all.len() implies strings::is_word(
                    #[trigger] all[k],
                ) by {
                    assert(strings::is_word(terms@[k]@));
                }
                lemma_overlaps_of_words(cards@, all);
            }
        }
        res
    }

    /// The best `limit` of the scored cards, the greatest score first.
    pub fn lexical_search(scored: Vec<(i64, ScoreKey)>, limit: usize) -> (res: Vec<(i64, ScoreKey)>)
        ensures
            res@ == order::first_n(
                order::ranked::<HighestScore, (i64, ScoreKey)>(scored@),
                limit as nat,
            ),
    {
        order::cut(order::rank::<HighestScore, (i64, ScoreKey)>(scored), limit)
    }
}

proof fn lemma_count_in(terms: Seq<Seq<char>>, hay: Seq<char>)
    ensures
        strings::count_in(terms, hay) <= terms.len(),
        strings::count_in(terms, hay) > 0 <==> exists|i: int|
            0 <= i < terms.len() && strings::occurs(#[trigger] terms[i], hay),
    decreases terms.len(),
{
    if terms.len() > 0 {
        let front = terms.drop_last();
        lemma_count_in(front, hay);
        if strings::occurs(terms.last(), hay) {
            assert(strings::occurs(terms[terms.len() - 1], hay));
        }
        if strings::count_in(front, hay) > 0 {
            let i = choose|i: int| 0 <= i < front.len() && strings::occurs(front[i], hay);
            assert(strings::occurs(terms[i], hay));
        }
        if exists|i: int| 0 <= i < terms.len() && strings::occurs(#[trigger] terms[i], hay) {
            let i = choose|i: int| 0 <= i < terms.len() && strings::occurs(#[trigger] terms[i], hay);
            if i < front.len() {
                assert(strings::occurs(front[i], hay));
            }
        }
    }
}

/// Overlaps are those of the cards that hold a term, where the haystacks hold the words of their
/// cards.
proof fn lemma_overlaps_of_words(cards: Seq<CardRecord>, terms: Seq<Seq<char>>)
    requires
        terms.len() <= usize::MAX,
        forall|k: int| 0 <= k < terms.len() ==> strings::is_word(#[trigger] terms[k]),
        forall|j: int|
            #![trigger cards[j]]
            0 <= j < cards.len() && ascii_card(cards[j]) ==> holds_words_of(
                haystack(cards[j]),
                cards[j],
            ),
    ensures
        forall|j: int|
            #![trigger cards[j]]
            0 <= j < cards.len() && ascii_card(cards[j]) && holds_any(cards[j], terms) ==> lists(
                overlaps(cards, terms),
                cards[j].card_id,
            ),
        (forall|j: int| 0 <= j < cards.len() ==> ascii_card(#[trigger] cards[j])) ==> forall|i: int|
            0 <= i < overlaps(cards, terms).len() ==> is_of_holder(
                (#[trigger] overlaps(cards, terms)[i]).0,
                cards,
                terms,
            ),
{
    let found = overlaps(cards, terms);
    assert forall|j: int|
        #![trigger cards[j]]
        0 <= j < cards.len() && ascii_card(cards[j]) && holds_any(cards[j], terms) implies lists(
        found,
        cards[j].card_id,
    ) by {
        let k = choose|k: int| 0 <= k < terms.len() && held_by(#[trigger] terms[k], cards[j]);
        assert(strings::is_word(terms[k]));
        assert(holds_words_of(haystack(cards[j]), cards[j]));
        assert(strings::occurs(terms[k], haystack(cards[j])));
        law_lexical_hits(cards, terms, cards[j].card_id);
    }
    if forall|j: int| 0 <= j < cards.len() ==> ascii_card(#[trigger] cards[j]) {
        assert forall|i: int| 0 <= i < found.len() implies is_of_holder(
            (#[trigger] found[i]).0,
            cards,
            terms,
        ) by {
            law_lexical_hits(cards, terms, found[i].0);
            let (j, k) = choose|j: int, k: int|
                #![trigger cards[j], terms[k]]
                0 <= j < cards.len() && 0 <= k < terms.len() && cards[j].card_id == found[i].0
                    && strings::occurs(terms[k], haystack(cards[j]));
            assert(strings::is_word(terms[k]));
            assert(ascii_card(cards[j]));
            assert(holds_words_of(haystack(cards[j]), cards[j]));
            assert(held_by(terms[k], cards[j]));
            assert(holds_any(cards[j], terms));
        }
    }
}

/// Where the lower-case form of an ASCII text lowers its capitals, a card of ASCII texts is found
/// by a word that stands in its text, in its joined fields, in its tags or in the name of its deck,
/// and by no other; what it is found with is the number of terms that stand in one of them.
pub proof fn law_cards_are_found_by_what_they_hold(
    cards: Seq<CardRecord>,
    terms: Seq<Seq<char>>,
    j: int,
)
    requires
        forall|s: Seq<char>| strings::ascii(s) ==> #[trigger] strings::lowercase(s)
            == strings::lowered(s),
        terms.len() <= usize::MAX,
        forall|k: int| 0 <= k < terms.len() ==> strings::is_word(#[trigger] terms[k]),
        forall|i: int| 0 <= i < cards.len() ==> ascii_card(#[trigger] cards[i]),
        0 <= j < cards.len(),
    ensures
        holds_any(cards[j], terms) ==> lists(overlaps(cards, terms), cards[j].card_id),
        forall|i: int|
            #![trigger overlaps(cards, terms)[i]]
            0 <= i < overlaps(cards, terms).len() ==> exists|m: int|
                #![trigger cards[m]]
                {
                    &&& 0 <= m < cards.len()
                    &&& cards[m].card_id == overlaps(cards, terms)[i].0
                    &&& overlaps(cards, terms)[i].1 == Set::new(
                        |k: int| 0 <= k < terms.len() && held_by(terms[k], cards[m]),
                    ).len()
                },
    decreases cards.len(),
{
    reveal_strlit(" ");
    assert forall|i: int|
        #![trigger cards[i]]
        0 <= i < cards.len() implies holds_words_of(haystack(cards[i]), cards[i]) by {
        assert(ascii_card(cards[i]));
        lemma_holds_words(cards[i]);
        assert(strings::ascii(
            cards[i].card_text_clean@ + " "@ + cards[i].fields_joined@ + " "@ + cards[i].tags@
                + " "@ + cards[i].deck_name@,
        ));
    }
    lemma_overlaps_of_words(cards, terms);
    lemma_overlap_counts(cards, terms);
}

proof fn lemma_overlap_counts(cards: Seq<CardRecord>, terms: Seq<Seq<char>>)
    requires
        terms.len() <= usize::MAX,
        forall|k: int| 0 <= k < terms.len() ==> strings::is_word(#[trigger] terms[k]),
        forall|j: int|
            #![trigger cards[j]]
            0 <= j < cards.len() ==> holds_words_of(haystack(cards[j]), cards[j]),
    ensures
        forall|i: int|
            #![trigger overlaps(cards, terms)[i]]
            0 <= i < overlaps(cards, terms).len() ==> exists|m: int|
                #![trigger cards[m]]
                {
                    &&& 0 <= m < cards.len()
                    &&& cards[m].card_id == overlaps(cards, terms)[i].0
                    &&& overlaps(cards, terms)[i].1 == Set::new(
                        |k: int| 0 <= k < terms.len() && held_by(terms[k], cards[m]),
                    ).len()
                },
    decreases cards.len(),
{
    if cards.len() > 0 {
        let front = cards.drop_last();
        let last = cards.len() - 1;
        assert forall|j: int|
            #![trigger front[j]]
            0 <= j < front.len() implies holds_words_of(haystack(front[j]), front[j]) by {
            assert(front[j] == cards[j]);
        }
        lemma_overlap_counts(front, terms);
        let found = overlaps(cards, terms);
        let fewer = overlaps(front, terms);
        assert forall|i: int|
            #![trigger found[i]]
            0 <= i < found.len() implies exists|m: int|
            #![trigger cards[m]]
            {
                &&& 0 <= m < cards.len()
                &&& cards[m].card_id == found[i].0
                &&& found[i].1 == Set::new(
                    |k: int| 0 <= k < terms.len() && held_by(terms[k], cards[m]),
                ).len()
            } by {
            if i < fewer.len() {
                assert(found[i] == fewer[i]);
                let m = choose|m: int|
                    #![trigger front[m]]
                    {
                        &&& 0 <= m < front.len()
                        &&& front[m].card_id == fewer[i].0
                        &&& fewer[i].1 == Set::new(
                            |k: int| 0 <= k < terms.len() && held_by(terms[k], front[m]),
                        ).len()
                    };
                assert(cards[m] == front[m]);
            } else {
                assert(holds_words_of(haystack(cards[last]), cards[last]));
                strings::law_count_in(terms, haystack(cards[last]));
                lemma_count_in(terms, haystack(cards[last]));
                let held = Set::new(
                    |k: int| 0 <= k < terms.len() && held_by(terms[k], cards[last]),
                );
                assert forall|k: int| held.contains(k) == #[trigger] strings::held_places(
                    terms,
                    haystack(cards[last]),
                ).contains(k) by {
                    if 0 <= k < terms.len() {
                        assert(strings::is_word(terms[k]));
                    }
                }
                assert(held =~= strings::held_places(terms, haystack(cards[last])));
                assert(cards[last].card_id == found[i].0);
            }
        }
    }
}

/// A lexical search finds a card exactly where the card holds a term of the query; what it says
/// of a card never exceeds the number of terms.
pub proof fn law_lexical_hits(cards: Seq<CardRecord>, terms: Seq<Seq<char>>, card_id: i64)
    requires
        terms.len() <= usize::MAX,
    ensures
        (exists|i: int|
            0 <= i < overlaps(cards, terms).len() && (#[trigger] overlaps(cards, terms)[i]).0
                == card_id) <==> (exists|j: int, k: int|
            #![trigger cards[j], terms[k]]
            0 <= j < cards.len() && 0 <= k < terms.len() && cards[j].card_id == card_id
                && strings::occurs(terms[k], haystack(cards[j]))),
        forall|i: int|
            0 <= i < overlaps(cards, terms).len() ==> 0 < (#[trigger] overlaps(cards, terms)[i]).1
                <= terms.len(),
    decreases cards.len(),
{
    if cards.len() > 0 {
        let front = cards.drop_last();
        let last = cards.last();
        let fo = overlaps(front, terms);
        let o = overlaps(cards, terms);
        law_lexical_hits(front, terms, card_id);
        lemma_count_in(terms, haystack(last));
        if exists|i: int| 0 <= i < o.len() && (#[trigger] o[i]).0 == card_id {
            let i = choose|i: int| 0 <= i < o.len() && (#[trigger] o[i]).0 == card_id;
            if i < fo.len() {
                assert(fo[i] == o[i]);
                let (j, k) = choose|j: int, k: int|
                    #![trigger front[j], terms[k]]
                    0 <= j < front.len() && 0 <= k < terms.len() && front[j].card_id == card_id
                        && strings::occurs(terms[k], haystack(front[j]));
                assert(cards[j] == front[j]);
                assert(strings::occurs(terms[k], haystack(cards[j])));
            } else {
                let k = choose|k: int| 0 <= k < terms.len() && strings::occurs(
                    #[trigger] terms[k],
                    haystack(last),
                );
                assert(cards[cards.len() - 1] == last);
                assert(strings::occurs(terms[k], haystack(cards[cards.len() - 1])));
            }
        }
        if exists|j: int, k: int|
            #![trigger cards[j], terms[k]]
            0 <= j < cards.len() && 0 <= k < terms.len() && cards[j].card_id == card_id
                && strings::occurs(terms[k], haystack(cards[j])) {
            let (j, k) = choose|j: int, k: int|
                #![trigger cards[j], terms[k]]
                0 <= j < cards.len() && 0 <= k < terms.len() && cards[j].card_id == card_id
                    && strings::occurs(terms[k], haystack(cards[j]));
            if j < front.len() {
                assert(front[j] == cards[j]);
                assert(strings::occurs(terms[k], haystack(front[j])));
                let i = choose|i: int| 0 <= i < fo.len() && (#[trigger] fo[i]).0 == card_id;
                assert(o[i] == fo[i]);
            } else {
                assert(o[o.len() - 1].0 == card_id);
            }
        }
        assert forall|i: int| 0 <= i < o.len() implies 0 < (#[trigger] o[i]).1 <= terms.len() by {
            if i < fo.len() {
                assert(fo[i] == o[i]);
            }
        }
    }
}

} // verus!
