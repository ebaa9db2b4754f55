//! Decks made for export: the notes of selected cards, and a small deck of examples.

use vstd::prelude::*;
use crate::chars;
use crate::json;
use crate::models::ImportedCard;
use crate::numbers;
use crate::strings;

verus! {

/// A deck of `genanki_rs`, to be packaged.
#[verifier::external_type_specification]
#[verifier::external_body]
pub struct ExDeck(genanki_rs::Deck);

/// A note of `genanki_rs`.
#[verifier::external_type_specification]
#[verifier::external_body]
pub struct ExNote(genanki_rs::Note);

/// An error of `genanki_rs`.
#[verifier::external_type_specification]
#[verifier::external_body]
pub struct ExNoteError(genanki_rs::Error);

/// The kind of a note: its fields, and the template by which it becomes a card.
#[derive(Debug, Clone)]
pub struct NoteModel {
    pub id: i64,
    pub name: String,
    pub fields: Vec<String>,
    pub template: String,
    pub question: String,
    pub answer: String,
}

/// What the kind of a note says.
#[verifier::ext_equal]
pub struct NoteModelView {
    pub id: i64,
    pub name: Seq<char>,
    pub fields: Seq<Seq<char>>,
    pub template: Seq<char>,
    pub question: Seq<char>,
    pub answer: Seq<char>,
}

impl View for NoteModel {
    type V = NoteModelView;

    open spec fn view(&self) -> NoteModelView {
        NoteModelView {
            id: self.id,
            name: self.name@,
            fields: strings::texts(self.fields@),
            template: self.template@,
            question: self.question@,
            answer: self.answer@,
        }
    }
}

/// What a note says: its kind, and the text of each field.
#[verifier::ext_equal]
pub struct NoteView {
    pub model: NoteModelView,
    pub fields: Seq<Seq<char>>,
}

/// What a deck says: its id, its name and its description.
#[verifier::ext_equal]
pub struct DeckHead {
    pub id: i64,
    pub name: Seq<char>,
    pub description: Seq<char>,
}

/// The kind and the fields of a note.
pub uninterp spec fn note_parts(note: genanki_rs::Note) -> NoteView;

/// The notes of a deck, in the order in which they were added.
pub uninterp spec fn deck_notes(deck: genanki_rs::Deck) -> Seq<NoteView>;

/// What a deck was made with.
pub uninterp spec fn deck_head(deck: genanki_rs::Deck) -> DeckHead;

/// `genanki_rs::Deck::new` makes a deck without notes.
pub assume_specification[ genanki_rs::Deck::new ](id: i64, name: &str, description: &str) -> (res:
    genanki_rs::Deck)
    ensures
        deck_head(res) == (DeckHead { id, name: name@, description: description@ }),
        deck_notes(res) == Seq::<NoteView>::empty(),
;

/// `genanki_rs::Deck::add_note` puts a note behind the notes of a deck.
pub assume_specification[ genanki_rs::Deck::add_note ](
    deck: &mut genanki_rs::Deck,
    note: genanki_rs::Note,
)
    ensures
        deck_notes(*final(deck)) == deck_notes(*old(deck)).push(note_parts(note)),
        deck_head(*final(deck)) == deck_head(*old(deck)),
;

/// Whether a name is short and made of ASCII letters alone.
pub open spec fn plain_name(s: Seq<char>) -> bool {
    0 < s.len() <= 64 && forall|i: int| 0 <= i < s.len() ==> chars::ascii_letter(#[trigger] s[i])
}

/// Whether a kind of note has plain field names, all different, and asks for its first field.
pub open spec fn asks_first_field(model: NoteModelView) -> bool {
    &&& model.fields.len() > 0
    &&& forall|i: int| 0 <= i < model.fields.len() ==> plain_name(#[trigger] model.fields[i])
    &&& forall|i: int, j: int|
        0 <= i < j < model.fields.len() ==> #[trigger] model.fields[i] != #[trigger] model.fields[j]
    &&& model.question == "{{"@ + model.fields[0] + "}}"@
}

/// `genanki_rs::Note::new` makes a note of a kind, which `genanki_rs::Model::new` makes from a
/// name, fields and one template. For a kind whose template asks for its first field, by a plain
/// name that no other field has, and with a text for each field, it reports no error.
#[verifier::external_body]
fn new_note(model: &NoteModel, fields: &Vec<String>) -> (res: Result<
    genanki_rs::Note,
    genanki_rs::Error,
>)
    requires
        asks_first_field(model@),
        fields@.len() == model.fields@.len(),
    ensures
        match res {
            Ok(note) => note_parts(note) == (NoteView {
                model: model@,
                fields: strings::texts(fields@),
            }),
            Err(_) => false,
        },
{
    let kind = genanki_rs::Model::new(
        model.id,
        &model.name,
        model.fields.iter().map(|name| genanki_rs::Field::new(name)).collect(),
        vec![
            genanki_rs::Template::new(&model.template).qfmt(&model.question).afmt(&model.answer),
        ],
    );
    genanki_rs::Note::new(kind, fields.iter().map(|field| field.as_str()).collect())
}

/// Adds a note to a deck.
fn push_note(deck: &mut genanki_rs::Deck, model: &NoteModel, fields: &Vec<String>)
    requires
        asks_first_field(model@),
        fields@.len() == model.fields@.len(),
    ensures
        deck_notes(*final(deck)) == deck_notes(*old(deck)).push(
            NoteView { model: model@, fields: strings::texts(fields@) },
        ),
        deck_head(*final(deck)) == deck_head(*old(deck)),
{
    match new_note(model, fields) {
        Ok(note) => deck.add_note(note),
        Err(_) => {},
    }
}

/// A selected card, with the fields of its note.
#[derive(Debug, Clone)]
pub struct ExportCard {
    pub card: ImportedCard,
    pub fields_json: String,
    pub fields_joined: String,
    pub deck_name: String,
}

/// Whether a list has a card with an id.
pub open spec fn has_card(cards: Seq<ExportCard>, id: i64) -> bool {
    exists|i: int| 0 <= i < cards.len() && (#[trigger] cards[i]).card.id == id
}

/// The cards whose id no card before them has.
pub open spec fn first_of_each(cards: Seq<ExportCard>) -> Seq<ExportCard>
    decreases cards.len(),
{
    if cards.len() == 0 {
        cards
    } else {
        let front = first_of_each(cards.drop_last());
        if has_card(cards.drop_last(), cards.last().card.id) {
            front
        } else {
            front.push(cards.last())
        }
    }
}

/// Whether a text is white space alone.
pub open spec fn blank(s: Seq<char>) -> bool {
    strings::trim(s).len() == 0
}

/// The first field that is not blank.
pub open spec fn first_telling(fields: Seq<Seq<char>>) -> Option<Seq<char>>
    decreases fields.len(),
{
    if fields.len() == 0 {
        None
    } else if !blank(fields[0]) {
        Some(fields[0])
    } else {
        first_telling(fields.skip(1))
    }
}

/// The texts of an exported note: front, back and source. `fields` are the fields of the card's
/// note.
pub open spec fn exported(card: ExportCard, fields: Seq<Seq<char>>) -> Seq<Seq<char>> {
    seq![
        match first_telling(fields) {
            Some(field) => field,
            None => card.card.card_text_clean@,
        },
        if fields.len() > 1 {
            strings::join(fields, "<br><br>"@)
        } else {
            card.fields_joined@
        },
        card.deck_name@ + " / card "@ + numbers::decimal(card.card.original_card_id as int),
    ]
}

/// The fields of a card's note; none where they are not stored as a list of texts.
pub open spec fn stored_fields(card: ExportCard) -> Seq<Seq<char>> {
    match json::string_list(card.fields_json@) {
        Some(fields) => fields,
        None => Seq::empty(),
    }
}

/// Writes the texts of an exported note.
pub fn note_texts(card: &ExportCard, fields: &Vec<String>) -> (res: Vec<String>)
    ensures
        strings::texts(res@) == exported(*card, strings::texts(fields@)),
{
    let ghost all = strings::texts(fields@);
    let mut at: usize = 0;
    assert(all.skip(0) =~= all);
    while at < fields.len() && strings::trimmed(fields[at].as_str()).as_str().is_empty()
        invariant
            at <= fields@.len(),
            all == strings::texts(fields@),
            first_telling(all) == first_telling(all.skip(at as int)),
        decreases fields@.len() - at,
    {
        assert(all.skip(at as int)[0] == fields@[at as int]@);
        assert(all.skip(at as int).skip(1) =~= all.skip(at + 1));
        at = at + 1;
    }
    let front = if at < fields.len() {
        assert(all.skip(at as int)[0] == fields@[at as int]@);
        fields[at].clone()
    } else {
        card.card.card_text_clean.clone()
    };
    let back = if fields.len() > 1 {
        strings::join_all(fields, "<br><br>")
    } else {
        card.fields_joined.clone()
    };
    let mut source = card.deck_name.clone();
    source.append(" / card ");
    numbers::push_decimal(&mut source, card.card.original_card_id);
    let mut res: Vec<String> = Vec::new();
    res.push(front);
    res.push(back);
    res.push(source);
    assert(strings::texts(res@) =~= exported(*card, all));
    res
}

/// The kind of the notes that a search is exported as.
pub open spec fn recovered_model(search_id: i64) -> NoteModelView {
    NoteModelView {
        id: (1_600_000_000 + search_id) as i64,
        name: "RecoveredCard"@,
        fields: seq!["Front"@, "Back"@, "Source"@],
        template: "Card 1"@,
        question: "{{Front}}"@,
        answer: "{{FrontSide}}<hr id=\"answer\">{{Back}}<div><small>{{Source}}</small></div>"@,
    }
}

fn make_recovered_model(search_id: i64) -> (res: NoteModel)
    requires
        search_id <= i64::MAX - 2_147_000_000,
    ensures
        res@ == recovered_model(search_id),
        asks_first_field(res@),
{
    let mut fields: Vec<String> = Vec::new();
    fields.push(strings::copy("Front"));
    fields.push(strings::copy("Back"));
    fields.push(strings::copy("Source"));
    let res = NoteModel {
        id: 1_600_000_000 + search_id,
        name: strings::copy("RecoveredCard"),
        fields,
        template: strings::copy("Card 1"),
        question: strings::copy("{{Front}}"),
        answer: strings::copy(
            "{{FrontSide}}<hr id=\"answer\">{{Back}}<div><small>{{Source}}</small></div>",
        ),
    };
    proof {
        assert(strings::texts(res.fields@) =~= recovered_model(search_id).fields);
        reveal_strlit("Front");
        reveal_strlit("Back");
        reveal_strlit("Source");
        reveal_strlit("{{");
        reveal_strlit("}}");
        reveal_strlit("{{Front}}");
        assert("{{Front}}"@ =~= "{{"@ + "Front"@ + "}}"@);
        assert("Front"@[0] != "Back"@[0]);
        assert("Front"@[0] != "Source"@[0]);
        assert("Back"@[0] != "Source"@[0]);
        assert(plain_name("Front"@));
        assert(plain_name("Back"@));
        assert(plain_name("Source"@));
    }
    res
}

/// The notes that a list of selected cards is exported as.
pub open spec fn export_notes(search_id: i64, cards: Seq<ExportCard>) -> Seq<NoteView> {
    Seq::new(
        cards.len(),
        |i: int|
            NoteView {
                model: recovered_model(search_id),
                fields: exported(cards[i], stored_fields(cards[i])),
            },
    )
}

/// Makes the deck that the selected cards of a search are exported as: a note for each card, the
/// first time that it was selected.
pub fn export_search(search_id: i64, cards: &Vec<ExportCard>) -> (res: genanki_rs::Deck)
    requires
        search_id <= i64::MAX - 2_147_000_000,
    ensures
        deck_head(res) == (DeckHead {
            id: (2_147_000_000 + search_id) as i64,
            name: "Shiori Search "@ + numbers::decimal(search_id as int),
            description: "Generated from selected search matches"@,
        }),
        deck_notes(res) == export_notes(search_id, first_of_each(cards@)),
{
    let mut name = strings::copy("Shiori Search ");
    numbers::push_decimal(&mut name, search_id);
    let mut deck = genanki_rs::Deck::new(
        2_147_000_000 + search_id,
        name.as_str(),
        "Generated from selected search matches",
    );
    let ghost head = deck_head(deck);
    let model = make_recovered_model(search_id);
    let mut seen: Vec<i64> = Vec::new();
    assert(deck_notes(deck) =~= export_notes(search_id, first_of_each(cards@.take(0))));
    for i in 0..cards.len()
        invariant
            model@ == recovered_model(search_id),
            asks_first_field(model@),
            model.fields@.len() == 3,
            deck_head(deck) == head,
            seen@.len() == i,
            forall|j: int| 0 <= j < i ==> seen@[j] == (#[trigger] cards@[j]).card.id,
            deck_notes(deck) == export_notes(search_id, first_of_each(cards@.take(i as int))),
    {
        let ghost before = cards@.take(i as int);
        let ghost now = cards@.take(i + 1);
        assert(now.drop_last() =~= before);
        assert(now.last() == cards@[i as int]);
        let id: i64 = cards[i].card.id;
        let known = crate::db::has_id(&seen, id);
        proof {
            if known {
                let j = choose|j: int| 0 <= j < seen@.len() && seen@[j] == id;
                assert(before[j].card.id == id);
            } else {
                assert forall|j: int| 0 <= j < before.len() implies (#[trigger] before[j]).card.id
                    != id by {
                    assert(seen@[j] == cards@[j].card.id);
                    assert(seen@.contains(seen@[j]));
                }
            }
        }
        if !known {
            let fields = match json::read_string_list(cards[i].fields_json.as_str()) {
                Some(fields) => fields,
                None => Vec::new(),
            };
            assert(strings::texts(fields@) =~= stored_fields(cards@[i as int]));
            let texts = note_texts(&cards[i], &fields);
            assert(strings::texts(texts@).len() == texts@.len());
            push_note(&mut deck, &model, &texts);
            assert(deck_notes(deck) =~= export_notes(search_id, first_of_each(now)));
        }
        seen.push(id);
    }
    assert(cards@.take(cards@.len() as int) =~= cards@);
    deck
}

/// The name of the file that a search is exported to.
pub fn export_file_name(search_id: i64) -> (res: String)
    ensures
        res@ == "search-"@ + numbers::decimal(search_id as int) + ".apkg"@,
{
    let mut res = strings::copy("search-");
    numbers::push_decimal(&mut res, search_id);
    res.append(".apkg");
    res
}

/// The header under which an exported file is handed out.
pub fn content_disposition(file_name: &str) -> (res: String)
    ensures
        res@ == "attachment; filename=\""@ + file_name@ + "\""@,
{
    let mut res = strings::copy("attachment; filename=\"");
    res.append(file_name);
    res.append("\"");
    res
}

/// Whether one list is what is left of another after dropping some of its cards: it has them in
/// the same order, from the places `at`.
pub open spec fn left_of(part: Seq<ExportCard>, cards: Seq<ExportCard>, at: Seq<int>) -> bool {
    &&& at.len() == part.len()
    &&& forall|i: int|
        0 <= i < at.len() ==> 0 <= #[trigger] at[i] < cards.len() && cards[at[i]] == part[i]
    &&& forall|i: int, j: int| 0 <= i < j < at.len() ==> #[trigger] at[i] < #[trigger] at[j]
}

/// The deck that is made of a selection has exactly one note for each selected card, in the order
/// of the selection: no two of the cards that the notes are made of are the same, none of the
/// selected cards is left out, and they come in the order in which they were selected.
pub proof fn law_one_note_for_each_card(search_id: i64, cards: Seq<ExportCard>)
    ensures
        ({
            let kept = first_of_each(cards);
            let notes = export_notes(search_id, kept);
            &&& notes.len() == kept.len()
            &&& forall|i: int|
                0 <= i < notes.len() ==> (#[trigger] notes[i]).fields == exported(
                    kept[i],
                    stored_fields(kept[i]),
                )
            &&& forall|i: int, j: int|
                0 <= i < j < kept.len() ==> (#[trigger] kept[i]).card.id != (
                #[trigger] kept[j]).card.id
            &&& forall|i: int|
                0 <= i < cards.len() ==> has_card(kept, (#[trigger] cards[i]).card.id)
            &&& exists|at: Seq<int>| left_of(kept, cards, at)
        }),
    decreases cards.len(),
{
    let all = first_of_each(cards);
    if cards.len() == 0 {
        assert(left_of(all, cards, Seq::empty()));
    } else {
        let before = cards.drop_last();
        let last = cards[cards.len() - 1];
        let front = first_of_each(before);
        law_one_note_for_each_card(search_id, before);
        let at = choose|at: Seq<int>| left_of(front, before, at);
        assert forall|i: int| 0 <= i < cards.len() implies has_card(
            all,
            (#[trigger] cards[i]).card.id,
        ) by {
            if i < before.len() {
                assert(before[i] == cards[i]);
                let k = choose|k: int| 0 <= k < front.len() && (#[trigger] front[k]).card.id
                    == cards[i].card.id;
                assert(all[k].card.id == cards[i].card.id);
            } else if front.len() < all.len() {
                assert(all[front.len() as int].card.id == last.card.id);
            } else {
                let k = choose|k: int| 0 <= k < before.len() && (#[trigger] before[k]).card.id
                    == last.card.id;
                let m = choose|m: int| 0 <= m < front.len() && (#[trigger] front[m]).card.id
                    == before[k].card.id;
                assert(all[m].card.id == last.card.id);
            }
        }
        assert forall|i: int, j: int| 0 <= i < j < all.len() implies (#[trigger] all[i]).card.id
            != (#[trigger] all[j]).card.id by {
            if j < front.len() {
                assert(front[i].card.id != front[j].card.id);
            } else {
                assert(front[i] == before[at[i]]);
            }
        }
        if front.len() < all.len() {
            let more = at.push(cards.len() - 1);
            assert(left_of(all, cards, more));
        } else {
            assert forall|i: int| 0 <= i < at.len() implies 0 <= #[trigger] at[i] < cards.len()
                && cards[at[i]] == all[i] by {
                assert(before[at[i]] == front[i]);
            }
            assert(left_of(all, cards, at));
        }
    }
}

/// The front of an exported note is a field that is not blank, if its note has any.
pub proof fn law_first_telling(fields: Seq<Seq<char>>)
    ensures
        match first_telling(fields) {
            Some(field) => fields.contains(field) && !blank(field),
            None => forall|i: int| 0 <= i < fields.len() ==> blank(#[trigger] fields[i]),
        },
    decreases fields.len(),
{
    if fields.len() > 0 {
        let rest = fields.skip(1);
        law_first_telling(rest);
        match first_telling(fields) {
            Some(field) => {
                if blank(fields[0]) {
                    let k = choose|k: int| 0 <= k < rest.len() && rest[k] == field;
                    assert(fields[k + 1] == field);
                } else {
                    assert(fields[0] == field);
                }
            },
            None => {
                assert forall|i: int| 0 <= i < fields.len() implies blank(
                    #[trigger] fields[i],
                ) by {
                    if i > 0 {
                        assert(rest[i - 1] == fields[i]);
                    }
                }
            },
        }
    }
}

/// What was stored of a note's fields comes out again: where they were written as a list of two or
/// more texts, the back of the exported note is all of them in order.
pub proof fn law_export_shows_stored_fields(card: ExportCard, fields: Seq<Seq<char>>)
    requires
        json::string_list(card.fields_json@) == Some(fields),
        fields.len() > 1,
    ensures
        exported(card, stored_fields(card))[1] == strings::join(fields, "<br><br>"@),
{
}

/// Whether a text is the front of a note with these fields: the first field that has more than
/// white space, or the other text where no field has.
pub open spec fn is_front(front: Seq<char>, fields: Seq<Seq<char>>, other: Seq<char>) -> bool {
    (exists|i: int| #[trigger] first_with_text(fields, i) && front == fields[i]) || (front == other
        && forall|i: int| 0 <= i < fields.len() ==> strings::all_white(#[trigger] fields[i]))
}

/// Whether a field has more than white space, and no field before it has.
pub open spec fn first_with_text(fields: Seq<Seq<char>>, i: int) -> bool {
    &&& 0 <= i < fields.len()
    &&& !strings::all_white(fields[i])
    &&& forall|j: int| 0 <= j < i ==> strings::all_white(#[trigger] fields[j])
}

proof fn lemma_first_telling_is_first(fields: Seq<Seq<char>>)
    ensures
        match first_telling(fields) {
            Some(field) => exists|i: int| #[trigger]
                first_with_text(fields, i) && field == fields[i],
            None => forall|i: int|
                0 <= i < fields.len() ==> strings::all_white(#[trigger] fields[i]),
        },
    decreases fields.len(),
{
    if fields.len() > 0 {
        let rest = fields.skip(1);
        strings::law_trim(fields[0]);
        lemma_first_telling_is_first(rest);
        if !blank(fields[0]) {
            assert(first_with_text(fields, 0));
        } else {
            match first_telling(rest) {
                Some(field) => {
                    let k = choose|k: int| #[trigger]
                        first_with_text(rest, k) && field == rest[k];
                    assert(rest[k] == fields[k + 1]);
                    assert forall|j: int| 0 <= j < k + 1 implies strings::all_white(
                        #[trigger] fields[j],
                    ) by {
                        if j > 0 {
                            assert(rest[j - 1] == fields[j]);
                        }
                    }
                    assert(first_with_text(fields, k + 1));
                },
                None => {
                    assert forall|i: int| 0 <= i < fields.len() implies strings::all_white(
                        #[trigger] fields[i],
                    ) by {
                        if i > 0 {
                            assert(rest[i - 1] == fields[i]);
                        }
                    }
                },
            }
        }
    }
}

/// An exported note asks with the first field of its note that has more than white space, or with
/// the text of its card where none has; answers with all fields in order, a blank line between any
/// two, or with the joined fields where there is at most one; and names the deck and the number of
/// the card that it comes from.
pub proof fn law_exported_note(card: ExportCard, fields: Seq<Seq<char>>)
    ensures
        exported(card, fields).len() == 3,
        is_front(exported(card, fields)[0], fields, card.card.card_text_clean@),
        fields.len() > 1 ==> exists|at: Seq<int>| #[trigger]
            strings::laid_out(exported(card, fields)[1], fields, "<br><br>"@, at),
        fields.len() <= 1 ==> exported(card, fields)[1] == card.fields_joined@,
        exported(card, fields)[2] == card.deck_name@ + " / card "@ + numbers::decimal(
            card.card.original_card_id as int,
        ),
{
    lemma_first_telling_is_first(fields);
    strings::law_join(fields, "<br><br>"@);
    if fields.len() > 1 {
        assert(exported(card, fields)[1] == strings::join(fields, "<br><br>"@));
    }
}

/// The notes of an exported deck are of a kind with a front, a back and a source: the question is
/// the front, and the answer shows the front, the back and the source. Each note has the texts of
/// the card that it is made of, with the fields that were stored for it; where they were not stored
/// as a list, it has none.
pub proof fn law_export_notes(search_id: i64, cards: Seq<ExportCard>, i: int)
    requires
        0 <= i < cards.len(),
    ensures
        ({
            let note = export_notes(search_id, cards)[i];
            let model = note.model;
            &&& model.fields.len() == 3 && note.fields.len() == 3
            &&& model.question == "{{"@ + model.fields[0] + "}}"@
            &&& strings::occurs("{{FrontSide}}"@, model.answer)
            &&& strings::occurs("{{"@ + model.fields[1] + "}}"@, model.answer)
            &&& strings::occurs("{{"@ + model.fields[2] + "}}"@, model.answer)
            &&& model.id == (1_600_000_000 + search_id) as i64
            &&& match json::string_list(cards[i].fields_json@) {
                Some(fields) => is_front(
                    note.fields[0],
                    fields,
                    cards[i].card.card_text_clean@,
                ) && (fields.len() > 1 ==> exists|at: Seq<int>| #[trigger]
                    strings::laid_out(note.fields[1], fields, "<br><br>"@, at)) && (fields.len()
                    <= 1 ==> note.fields[1] == cards[i].fields_joined@),
                None => note.fields[0] == cards[i].card.card_text_clean@ && note.fields[1]
                    == cards[i].fields_joined@,
            }
            &&& note.fields[2] == cards[i].deck_name@ + " / card "@ + numbers::decimal(
                cards[i].card.original_card_id as int,
            )
        }),
{
    law_exported_note(cards[i], stored_fields(cards[i]));
    assert(export_notes(search_id, cards)[i].fields == exported(cards[i], stored_fields(cards[i])));
    assert(export_notes(search_id, cards)[i].model == recovered_model(search_id));
    assert(recovered_model(search_id).fields =~= seq!["Front"@, "Back"@, "Source"@]);
    lemma_first_telling_is_first(stored_fields(cards[i]));
    let model = recovered_model(search_id);
    let answer = "{{FrontSide}}<hr id=\"answer\">{{Back}}<div><small>{{Source}}</small></div>"@;
    assert(model.answer == answer);
    reveal_strlit("{{FrontSide}}<hr id=\"answer\">{{Back}}<div><small>{{Source}}</small></div>");
    reveal_strlit("{{FrontSide}}");
    reveal_strlit("{{Front}}");
    reveal_strlit("{{");
    reveal_strlit("}}");
    reveal_strlit("Front");
    reveal_strlit("Back");
    reveal_strlit("Source");
    assert("{{Front}}"@ =~= "{{"@ + "Front"@ + "}}"@);
    strings::lemma_occurs_at("{{FrontSide}}"@, answer, 0);
    strings::lemma_occurs_at("{{"@ + "Back"@ + "}}"@, answer, 29);
    strings::lemma_occurs_at("{{"@ + "Source"@ + "}}"@, answer, 49);
}

/// The kind of the notes of the example deck.
pub open spec fn fixture_model() -> NoteModelView {
    NoteModelView {
        id: 1_700_000_101,
        name: "BasicFixture"@,
        fields: seq!["Front"@, "Back"@],
        template: "Card 1"@,
        question: "{{Front}}"@,
        answer: "{{FrontSide}}<hr id=\"answer\">{{Back}}"@,
    }
}

fn make_fixture_model() -> (res: NoteModel)
    ensures
        res@ == fixture_model(),
        asks_first_field(res@),
{
    let mut fields: Vec<String> = Vec::new();
    fields.push(strings::copy("Front"));
    fields.push(strings::copy("Back"));
    let res = NoteModel {
        id: 1_700_000_101,
        name: strings::copy("BasicFixture"),
        fields,
        template: strings::copy("Card 1"),
        question: strings::copy("{{Front}}"),
        answer: strings::copy("{{FrontSide}}<hr id=\"answer\">{{Back}}"),
    };
    proof {
        assert(strings::texts(res.fields@) =~= fixture_model().fields);
        reveal_strlit("Front");
        reveal_strlit("Back");
        reveal_strlit("{{");
        reveal_strlit("}}");
        reveal_strlit("{{Front}}");
        assert("{{Front}}"@ =~= "{{"@ + "Front"@ + "}}"@);
        assert("Front"@[0] != "Back"@[0]);
        assert(plain_name("Front"@));
        assert(plain_name("Back"@));
    }
    res
}

/// The questions and answers of the example deck.
pub open spec fn fixture_texts() -> Seq<Seq<Seq<char>>> {
    seq![
        seq!["What does IMCI stand for?"@, "Integrated Management of Child Health."@],
        seq![
            "Where are IMCI clinical guidelines mainly used?"@,
            "At outpatient level for management of children under five in hospitals, health centres, or the community."@,
        ],
        seq![
            "Which teaching skills are emphasized in community medicine IMCI sessions?"@,
            "Counselling skills, communication, and analysis of family practices related to child care."@,
        ],
        seq![
            "Welche Rolle spielen medizinische Fakultäten in der IMCI-Ausbildung?"@,
            "Sie bereiten künftige Gesundheitsfachkräfte auf die Versorgung von Kindern im öffentlichen und privaten Sektor vor."@,
        ],
    ]
}

/// The notes of the example deck.
pub open spec fn fixture_notes() -> Seq<NoteView> {
    Seq::new(
        fixture_texts().len(),
        |i: int| NoteView { model: fixture_model(), fields: fixture_texts()[i] },
    )
}

fn push_question(deck: &mut genanki_rs::Deck, model: &NoteModel, front: &str, back: &str)
    requires
        asks_first_field(model@),
        model.fields@.len() == 2,
    ensures
        deck_notes(*final(deck)) == deck_notes(*old(deck)).push(
            NoteView { model: model@, fields: seq![front@, back@] },
        ),
        deck_head(*final(deck)) == deck_head(*old(deck)),
{
    let mut fields: Vec<String> = Vec::new();
    fields.push(strings::copy(front));
    fields.push(strings::copy(back));
    assert(strings::texts(fields@) =~= seq![front@, back@]);
    push_note(deck, model, &fields);
}

/// Makes the example deck.
pub fn build_deck() -> (res: genanki_rs::Deck)
    ensures
        deck_head(res) == (DeckHead {
            id: 1_700_000_001,
            name: "Shiori IMCI Fixture"@,
            description: "Fixture deck for Shiori end-to-end testing"@,
        }),
        deck_notes(res) == fixture_notes(),
{
    let mut deck = genanki_rs::Deck::new(
        1_700_000_001,
        "Shiori IMCI Fixture",
        "Fixture deck for Shiori end-to-end testing",
    );
    let model = make_fixture_model();
    assert(strings::texts(model.fields@).len() == model.fields@.len());
    push_question(
        &mut deck,
        &model,
        "What does IMCI stand for?",
        "Integrated Management of Child Health.",
    );
    push_question(
        &mut deck,
        &model,
        "Where are IMCI clinical guidelines mainly used?",
        "At outpatient level for management of children under five in hospitals, health centres, or the community.",
    );
    push_question(
        &mut deck,
        &model,
        "Which teaching skills are emphasized in community medicine IMCI sessions?",
        "Counselling skills, communication, and analysis of family practices related to child care.",
    );
    push_question(
        &mut deck,
        &model,
        "Welche Rolle spielen medizinische Fakultäten in der IMCI-Ausbildung?",
        "Sie bereiten künftige Gesundheitsfachkräfte auf die Versorgung von Kindern im öffentlichen und privaten Sektor vor.",
    );
    assert(deck_notes(deck) =~= fixture_notes());
    deck
}

} // verus!
