//! What the records of an imported deck say, told by the rows that they come from.

use vstd::prelude::*;
use vstd::utf8;
use crate::deck::{
    card_points, cards_with_notes, deck_name, deck_names, ids_taken, import_points, is_note_of,
    model_of, models_of, name_for, name_or_default, note_chunks, note_fields, note_for, paired,
    string_under, CardRow, ImportNote, ModelView, NoteRow,
};
use crate::json;
use crate::models;
use crate::numbers;
use crate::strings;
use crate::strings::Separator;
use crate::text;

verus! {

/// The name for decks without one.
pub open spec fn unnamed() -> Seq<char> {
    "Imported deck"@
}

/// Whether a row is the last one of a note id.
pub open spec fn is_last_row(note_rows: Seq<NoteRow>, id: i64, i: int) -> bool {
    &&& 0 <= i < note_rows.len()
    &&& note_rows[i].id == id
    &&& forall|j: int| i < j < note_rows.len() ==> (#[trigger] note_rows[j]).id != id
}

/// Whether fields are the plain fields of a text: it is cut at its unit separators, and field `k`
/// is the plain text of piece `k`.
pub open spec fn are_plain_fields(fields: Seq<Seq<char>>, raw: Seq<char>) -> bool {
    exists|pieces: Seq<Seq<char>>, at: Seq<int>| #[trigger]
        strings::cut_at(raw, pieces, Separator::Char('\u{1f}'), at) && are_plain(fields, pieces)
}

/// Whether texts are the plain texts of pieces without unit separators, one for one.
pub open spec fn are_plain(fields: Seq<Seq<char>>, pieces: Seq<Seq<char>>) -> bool {
    &&& fields.len() == pieces.len()
    &&& forall|k: int|
        0 <= k < pieces.len() ==> !(#[trigger] pieces[k]).contains('\u{1f}') && text::normalized(
            pieces[k],
        ) == Some(fields[k])
}

/// Whether a text is made of fields with bars between them.
pub open spec fn is_barred(whole: Seq<char>, fields: Seq<Seq<char>>) -> bool {
    exists|at: Seq<int>| #[trigger] strings::laid_out(whole, fields, " | "@, at)
}

/// Whether a name is the last one that a list gives a deck, or the one for decks without any.
pub open spec fn names_deck(names: Seq<(i64, Seq<char>)>, deck_id: i64, name: Seq<char>) -> bool {
    if deck_is_named(names, deck_id) {
        exists|t: int| #[trigger] is_last_name(names, deck_id, t) && names[t].1 == name
    } else {
        name == unnamed()
    }
}

/// Whether a list names a deck.
pub open spec fn deck_is_named(names: Seq<(i64, Seq<char>)>, deck_id: i64) -> bool {
    exists|t: int| 0 <= t < names.len() && (#[trigger] names[t]).0 == deck_id
}

/// Whether a name is the last one that a list gives a deck.
pub open spec fn is_last_name(names: Seq<(i64, Seq<char>)>, deck_id: i64, t: int) -> bool {
    &&& 0 <= t < names.len()
    &&& names[t].0 == deck_id
    &&& forall|u: int| t < u < names.len() ==> (#[trigger] names[u]).0 != deck_id
}

/// Whether a text is a chunk of another: of its words cut into windows of at most 400 that overlap
/// by 60, those of window `k`.
pub open spec fn is_chunk(chunk: Seq<char>, whole: Seq<char>, k: int) -> bool {
    exists|cs: Seq<Seq<char>>, at: Seq<(int, int)>| #[trigger]
        text::are_windows(strings::words(whole), cs, 400, 60, at) && 0 <= k < cs.len() && cs[k]
            == chunk
}

/// Whether a record is that of a chunk of a card: it says what the rows of the card and of its note
/// say.
pub open spec fn shows_rows(
    point: (models::CardView, Seq<char>),
    import_id: i64,
    card: CardRow,
    note: NoteRow,
    names: Seq<(i64, Seq<char>)>,
) -> bool {
    let record = point.0;
    &&& record.import_id == import_id
    &&& record.original_card_id == card.id
    &&& record.original_note_id == card.note_id
    &&& record.original_note_id == note.id
    &&& record.original_deck_id == card.deck_id
    &&& record.ord == card.ord
    &&& record.guid == note.guid@
    &&& record.original_model_id == note.model_id
    &&& record.tags == strings::trim(note.tags@)
    &&& names_deck(names, card.deck_id, record.deck_name)
    &&& json::string_list(record.fields_json) matches Some(fields) && are_plain_fields(
        fields,
        note.fields@,
    ) && is_barred(record.card_text_clean, fields) && is_barred(record.fields_joined, fields)
    &&& record.card_text_clean == record.fields_joined
    &&& record.note_hash == text::hex(
        text::sha256(utf8::encode_utf8(note.guid@ + ":"@ + numbers::decimal(card.ord as int))),
    )
    &&& is_chunk_at(record.chunk_text, record.card_text_clean, record.chunk_index)
    &&& point.1 == "passage: "@ + record.chunk_text
}

/// Whether a text is a chunk of another, under a number.
pub open spec fn is_chunk_at(chunk: Seq<char>, whole: Seq<char>, index: i64) -> bool {
    exists|k: int| #[trigger] is_chunk(chunk, whole, k) && index == k as i64
}

proof fn lemma_name_for(names: Seq<(i64, Seq<char>)>, deck_id: i64)
    ensures
        match name_for(names, deck_id) {
            Some(name) => exists|t: int| #[trigger]
                is_last_name(names, deck_id, t) && names[t].1 == name,
            None => !deck_is_named(names, deck_id),
        },
    decreases names.len(),
{
    if names.len() > 0 {
        let front = names.drop_last();
        let last = names.len() - 1;
        if names[last].0 == deck_id {
            assert(is_last_name(names, deck_id, last));
        } else {
            lemma_name_for(front, deck_id);
            match name_for(front, deck_id) {
                Some(name) => {
                    let t = choose|t: int| #[trigger]
                        is_last_name(front, deck_id, t) && front[t].1 == name;
                    assert(names[t] == front[t]);
                    assert forall|u: int| t < u < names.len() implies (#[trigger] names[u]).0
                        != deck_id by {
                        if u < last {
                            assert(front[u] == names[u]);
                        }
                    }
                    assert(is_last_name(names, deck_id, t));
                },
                None => {
                    assert forall|t: int| 0 <= t < names.len() implies (#[trigger] names[t]).0
                        != deck_id by {
                        if t < last {
                            assert(front[t] == names[t]);
                        }
                    }
                },
            }
        }
    }
}

proof fn lemma_names_deck(names: Seq<(i64, Seq<char>)>, deck_id: i64)
    ensures
        names_deck(names, deck_id, name_or_default(names, deck_id)),
{
    lemma_name_for(names, deck_id);
    if let Some(name) = name_for(names, deck_id) {
        let t = choose|t: int| #[trigger] is_last_name(names, deck_id, t) && names[t].1 == name;
        assert(names[t].0 == deck_id);
    }
}

proof fn lemma_note_row(notes: Seq<ImportNote>, note_rows: Seq<NoteRow>, id: i64)
    requires
        notes.len() == note_rows.len(),
        forall|i: int| 0 <= i < notes.len() ==> is_note_of(#[trigger] notes[i], note_rows[i]),
    ensures
        match note_for(notes, id) {
            Some(note) => exists|i: int| #[trigger]
                is_last_row(note_rows, id, i) && notes[i] == note,
            None => forall|i: int| 0 <= i < note_rows.len() ==> (#[trigger] note_rows[i]).id != id,
        },
    decreases notes.len(),
{
    if notes.len() > 0 {
        let front = notes.drop_last();
        let front_rows = note_rows.drop_last();
        let last = notes.len() - 1;
        assert(is_note_of(notes[last], note_rows[last]));
        assert forall|i: int| 0 <= i < front.len() implies is_note_of(
            #[trigger] front[i],
            front_rows[i],
        ) by {
            assert(is_note_of(notes[i], note_rows[i]));
        }
        if notes[last].id == id {
            assert(is_last_row(note_rows, id, last));
        } else {
            lemma_note_row(front, front_rows, id);
            match note_for(front, id) {
                Some(note) => {
                    let i = choose|i: int| #[trigger]
                        is_last_row(front_rows, id, i) && front[i] == note;
                    assert(note_rows[i] == front_rows[i]);
                    assert forall|j: int| i < j < note_rows.len() implies (
                    #[trigger] note_rows[j]).id != id by {
                        if j < last {
                            assert(front_rows[j] == note_rows[j]);
                        }
                    }
                    assert(is_last_row(note_rows, id, i));
                    assert(notes[i] == note);
                },
                None => {
                    assert forall|i: int| 0 <= i < note_rows.len() implies (
                    #[trigger] note_rows[i]).id != id by {
                        if i < last {
                            assert(front_rows[i] == note_rows[i]);
                        }
                    }
                },
            }
        }
    }
}

proof fn lemma_plain_fields(raw: Seq<char>)
    ensures
        note_fields(raw) matches Some(fields) ==> are_plain_fields(fields, raw),
{
    let sep = Separator::Char('\u{1f}');
    let pieces = strings::split_on(raw, sep);
    strings::law_split_is_lossless(raw, sep);
    strings::law_split_pieces(raw, sep);
    text::lemma_all_normalized(pieces);
    if let Some(fields) = note_fields(raw) {
        let at = choose|at: Seq<int>| #[trigger] strings::cut_at(raw, pieces, sep, at);
        assert forall|k: int| 0 <= k < pieces.len() implies !(#[trigger] pieces[k]).contains(
            '\u{1f}',
        ) && text::normalized(pieces[k]) == Some(fields[k]) by {
            assert(strings::unsplit(pieces[k], sep));
            if pieces[k].contains('\u{1f}') {
                let i = choose|i: int| 0 <= i < pieces[k].len() && pieces[k][i] == '\u{1f}';
                assert(sep.at(pieces[k][i]));
            }
        }
        assert(are_plain(fields, pieces));
    }
}

proof fn lemma_card_point_shows_rows(
    import_id: i64,
    card: CardRow,
    note: ImportNote,
    row: NoteRow,
    names: Seq<(i64, Seq<char>)>,
    start: i64,
    first: int,
    k: int,
)
    requires
        is_note_of(note, row),
        row.id == card.note_id,
        0 <= k < note_chunks(note).len(),
    ensures
        shows_rows(
            card_points(
                import_id,
                card,
                note,
                name_or_default(names, card.deck_id),
                start,
                first,
            )[k],
            import_id,
            card,
            row,
            names,
        ),
{
    let fields = note_fields(row.fields@)->Some_0;
    let whole = note.fields_joined@;
    let cs = note_chunks(note);
    lemma_names_deck(names, card.deck_id);
    lemma_plain_fields(row.fields@);
    strings::law_join(fields, " | "@);
    assert(is_barred(whole, fields));
    text::law_chunks_are_windows(whole, 400, 60);
    let at = choose|at: Seq<(int, int)>| #[trigger]
        text::are_windows(strings::words(whole), cs, 400, 60, at);
    assert(text::are_windows(strings::words(whole), cs, 400, 60, at));
    assert(is_chunk(cs[k], whole, k));
}

/// Every record of an import is that of a chunk of a card whose note is there: it says what the row
/// of the card and the last row of its note say, its text is the plain fields of the note with bars
/// between them, it is filed under the last name of its deck, and what is embedded is its chunk.
pub proof fn law_records_show_their_rows(
    import_id: i64,
    rows: Seq<CardRow>,
    note_rows: Seq<NoteRow>,
    notes: Seq<ImportNote>,
    names: Seq<(i64, Seq<char>)>,
    start: i64,
    p: int,
)
    requires
        notes.len() == note_rows.len(),
        forall|i: int| 0 <= i < notes.len() ==> is_note_of(#[trigger] notes[i], note_rows[i]),
        0 <= p < import_points(import_id, rows, notes, names, start).len(),
    ensures
        exists|r: int, i: int|
            #![trigger rows[r], note_rows[i]]
            0 <= r < rows.len() && is_last_row(note_rows, rows[r].note_id, i) && shows_rows(
                import_points(import_id, rows, notes, names, start)[p],
                import_id,
                rows[r],
                note_rows[i],
                names,
            ),
    decreases rows.len(),
{
    let points = import_points(import_id, rows, notes, names, start);
    let fewer = rows.drop_last();
    let front = import_points(import_id, fewer, notes, names, start);
    let last = rows.len() - 1;
    if p < front.len() {
        assert(points[p] == front[p]);
        law_records_show_their_rows(import_id, fewer, note_rows, notes, names, start, p);
        let (r, i) = choose|r: int, i: int|
            #![trigger fewer[r], note_rows[i]]
            0 <= r < fewer.len() && is_last_row(note_rows, fewer[r].note_id, i) && shows_rows(
                front[p],
                import_id,
                fewer[r],
                note_rows[i],
                names,
            );
        assert(rows[r] == fewer[r]);
        assert(is_last_row(note_rows, rows[r].note_id, i));
    } else {
        let row = rows[last];
        lemma_note_row(notes, note_rows, row.note_id);
        let note = note_for(notes, row.note_id)->Some_0;
        let i = choose|i: int| #[trigger]
            is_last_row(note_rows, row.note_id, i) && notes[i] == note;
        assert(is_note_of(notes[i], note_rows[i]));
        lemma_card_point_shows_rows(
            import_id,
            row,
            note,
            note_rows[i],
            names,
            start,
            ids_taken(fewer, notes) as int,
            p - front.len(),
        );
        assert(is_last_row(note_rows, rows[last].note_id, i));
    }
}

/// Whether a record of an import is that of chunk `k` of a card, under the card's new id.
pub open spec fn has_chunk(
    points: Seq<(models::CardView, Seq<char>)>,
    card: CardRow,
    k: int,
) -> bool {
    exists|p: int|
        0 <= p < points.len() && (#[trigger] points[p]).0.original_card_id == card.id
            && points[p].0.original_note_id == card.note_id && points[p].0.chunk_index == k as i64
}

/// Nothing of a card is left out: where its note is there, each of the windows over the words of
/// the note's text has a record.
pub proof fn law_every_chunk_has_a_record(
    import_id: i64,
    rows: Seq<CardRow>,
    notes: Seq<ImportNote>,
    names: Seq<(i64, Seq<char>)>,
    start: i64,
    r: int,
    cs: Seq<Seq<char>>,
    at: Seq<(int, int)>,
    k: int,
)
    requires
        0 <= r < rows.len(),
        note_for(notes, rows[r].note_id) is Some,
        text::are_windows(
            strings::words(note_for(notes, rows[r].note_id)->Some_0.fields_joined@),
            cs,
            400,
            60,
            at,
        ),
        0 <= k < cs.len(),
    ensures
        has_chunk(import_points(import_id, rows, notes, names, start), rows[r], k),
    decreases rows.len(),
{
    let points = import_points(import_id, rows, notes, names, start);
    let fewer = rows.drop_last();
    let front = import_points(import_id, fewer, notes, names, start);
    let last = rows.len() - 1;
    if r < last {
        assert(fewer[r] == rows[r]);
        law_every_chunk_has_a_record(import_id, fewer, notes, names, start, r, cs, at, k);
        let p = choose|p: int|
            0 <= p < front.len() && (#[trigger] front[p]).0.original_card_id == rows[r].id
                && front[p].0.original_note_id == rows[r].note_id && front[p].0.chunk_index
                == k as i64;
        assert(points[p] == front[p]);
    } else {
        let note = note_for(notes, rows[r].note_id)->Some_0;
        let own = note_chunks(note);
        let ws = strings::words(note.fields_joined@);
        text::law_chunks_are_windows(note.fields_joined@, 400, 60);
        let other = choose|at: Seq<(int, int)>| #[trigger]
            text::are_windows(ws, own, 400, 60, at);
        lemma_as_many_windows(ws, own, cs, 400, 60, other, at, k);
        assert(points[front.len() + k].0.chunk_index == k as i64);
    }
}

/// Windows over the same words are the same windows, as far as they go.
proof fn lemma_as_many_windows(
    ws: Seq<Seq<char>>,
    a: Seq<Seq<char>>,
    b: Seq<Seq<char>>,
    max_words: nat,
    overlap: nat,
    at: Seq<(int, int)>,
    bt: Seq<(int, int)>,
    k: int,
)
    requires
        text::are_windows(ws, a, max_words, overlap, at),
        text::are_windows(ws, b, max_words, overlap, bt),
        overlap < max_words,
        0 <= k < b.len(),
    ensures
        k < a.len(),
        at[k].0 == bt[k].0,
    decreases k,
{
    assert(text::is_window(ws, b[k], bt[k], max_words));
    assert(text::window_follows(bt, k, overlap));
    assert(ws.len() > 0);
    if k > 0 {
        lemma_as_many_windows(ws, a, b, max_words, overlap, at, bt, k - 1);
        assert(bt[k - 1].1 - bt[k - 1].0 == max_words);
        assert(text::is_window(ws, a[k - 1], at[k - 1], max_words));
        if k == a.len() {
            assert(at.last() == at[k - 1]);
            assert(bt[k].0 == bt[k - 1].1 - overlap);
            assert(at[k - 1].1 == ws.len());
            assert(at[k - 1].1 - at[k - 1].0 <= max_words);
            lemma_last_window(ws, b, max_words, overlap, bt, k);
        } else {
            assert(text::window_follows(at, k, overlap));
            assert(at[k - 1].1 - at[k - 1].0 == max_words);
        }
    } else {
        assert(a.len() > 0);
        assert(text::window_follows(at, 0, overlap));
    }
}

/// A window that is not the first one takes words that the one before it has not.
proof fn lemma_last_window(
    ws: Seq<Seq<char>>,
    cs: Seq<Seq<char>>,
    max_words: nat,
    overlap: nat,
    at: Seq<(int, int)>,
    k: int,
)
    requires
        text::are_windows(ws, cs, max_words, overlap, at),
        overlap < max_words,
        0 < k < cs.len(),
    ensures
        at[k - 1].1 < ws.len(),
{
}


/// The places of the cards whose note is there.
pub open spec fn places_with_notes(rows: Seq<CardRow>, notes: Seq<ImportNote>) -> Set<int> {
    Set::new(
        |r: int|
            0 <= r < rows.len() && exists|i: int|
                0 <= i < notes.len() && (#[trigger] notes[i]).id == rows[r].note_id,
    )
}

proof fn lemma_note_is_there(notes: Seq<ImportNote>, id: i64)
    ensures
        note_for(notes, id) is Some <==> exists|i: int|
            0 <= i < notes.len() && (#[trigger] notes[i]).id == id,
    decreases notes.len(),
{
    if notes.len() > 0 {
        let front = notes.drop_last();
        let last = notes.len() - 1;
        lemma_note_is_there(front, id);
        if notes[last].id != id && exists|i: int|
            0 <= i < notes.len() && (#[trigger] notes[i]).id == id {
            let i = choose|i: int| 0 <= i < notes.len() && (#[trigger] notes[i]).id == id;
            assert(front[i].id == id);
        }
        if notes[last].id != id && note_for(front, id) is Some {
            let i = choose|i: int| 0 <= i < front.len() && (#[trigger] front[i]).id == id;
            assert(notes[i].id == id);
        }
    }
}

/// The cards that an import counts are those whose note is there, each of them once.
pub proof fn law_cards_are_counted(rows: Seq<CardRow>, notes: Seq<ImportNote>)
    ensures
        places_with_notes(rows, notes).finite(),
        cards_with_notes(rows, notes) == places_with_notes(rows, notes).len(),
    decreases rows.len(),
{
    let all = places_with_notes(rows, notes);
    if rows.len() == 0 {
        assert(all =~= Set::<int>::empty());
    } else {
        let front = rows.drop_last();
        let last = rows.len() - 1;
        let fewer = places_with_notes(front, notes);
        law_cards_are_counted(front, notes);
        lemma_note_is_there(notes, rows[last].note_id);
        assert forall|r: int| 0 <= r < last implies front[r] == #[trigger] rows[r] by {}
        if note_for(notes, rows[last].note_id) is Some {
            assert(all =~= fewer.insert(last));
        } else {
            assert(all =~= fewer);
        }
    }
}

/// Whether a member of the decks of a collection names a deck.
pub open spec fn names_as(
    member: (Seq<char>, Seq<char>),
    deck_id: i64,
    name: Seq<char>,
) -> bool {
    numbers::read_in_range(member.0, true, i64::MIN as int, i64::MAX as int) == Some(
        deck_id as int,
    ) && string_under(member.1, "name"@) == Some(name)
}

/// Whether a member is the last one that names a deck.
pub open spec fn is_last_naming(
    members: Seq<(Seq<char>, Seq<char>)>,
    deck_id: i64,
    t: int,
    name: Seq<char>,
) -> bool {
    &&& 0 <= t < members.len()
    &&& names_as(members[t], deck_id, name)
    &&& forall|u: int| t < u < members.len() ==> !names_any(#[trigger] members[u], deck_id)
}

/// Whether a member of the decks of a collection gives a deck any name.
pub open spec fn names_any(member: (Seq<char>, Seq<char>), deck_id: i64) -> bool {
    exists|name: Seq<char>| #[trigger] names_as(member, deck_id, name)
}

/// A deck has the name that the last member with its id gives it, and the name for decks without
/// one where no member does.
pub proof fn law_decks_are_named(members: Seq<(Seq<char>, Seq<char>)>, deck_id: i64)
    ensures
        match name_for(deck_names(members), deck_id) {
            Some(name) => exists|t: int| #[trigger] is_last_naming(members, deck_id, t, name),
            None => forall|t: int|
                0 <= t < members.len() ==> !names_any(#[trigger] members[t], deck_id),
        },
        name_for(deck_names(members), deck_id) is None ==> name_or_default(
            deck_names(members),
            deck_id,
        ) == "Imported deck"@,
    decreases members.len(),
{
    if members.len() > 0 {
        let front = members.drop_last();
        let last = members.len() - 1;
        let fewer = deck_names(front);
        let all = deck_names(members);
        law_decks_are_named(front, deck_id);
        match deck_name(members[last]) {
            Some(named) => {
                assert(all.last() == named);
                assert(all.drop_last() =~= fewer);
                if named.0 == deck_id {
                    assert(is_last_naming(members, deck_id, last, named.1));
                }
            },
            None => {},
        }
        if !(deck_name(members[last]) matches Some(named) && named.0 == deck_id) {
            assert(!names_any(members[last], deck_id));
            match name_for(fewer, deck_id) {
                Some(name) => {
                    let t = choose|t: int| #[trigger] is_last_naming(front, deck_id, t, name);
                    assert(members[t] == front[t]);
                    assert forall|u: int| t < u < members.len() implies !names_any(
                        #[trigger] members[u],
                        deck_id,
                    ) by {
                        if u < last {
                            assert(front[u] == members[u]);
                        }
                    }
                    assert(is_last_naming(members, deck_id, t, name));
                },
                None => {
                    assert forall|t: int| 0 <= t < members.len() implies !names_any(
                        #[trigger] members[t],
                        deck_id,
                    ) by {
                        if t < last {
                            assert(front[t] == members[t]);
                        }
                    }
                },
            }
        }
    }
}

/// Every member of the models of a collection is kept as a model, in order: with the number that
/// its key writes, its own text, and its name and style sheet where it has them. Where a key is no
/// number, the first such key is told.
pub proof fn law_models_are_kept(members: Seq<(Seq<char>, Seq<char>)>)
    ensures
        match models_of(members) {
            Ok(models) => {
                &&& models.len() == members.len()
                &&& forall|i: int|
                    0 <= i < members.len() ==> keeps_member(#[trigger] models[i], members[i])
            },
            Err(key) => exists|i: int|
                0 <= i < members.len() && is_first_odd(#[trigger] members[i], members, i)
                    && members[i].0 == key,
        },
    decreases members.len(),
{
    if members.len() > 0 {
        let front = members.drop_last();
        let last = members.len() - 1;
        law_models_are_kept(front);
        match models_of(front) {
            Ok(fewer) => {
                match model_of(members[last]) {
                    Some(model) => {
                        let models = fewer.push(model);
                        assert forall|i: int| 0 <= i < members.len() implies keeps_member(
                            #[trigger] models[i],
                            members[i],
                        ) by {
                            if i < last {
                                assert(keeps_member(fewer[i], front[i]));
                            }
                        }
                    },
                    None => {
                        assert forall|j: int| 0 <= j < last implies writes_number(
                            (#[trigger] members[j]).0,
                        ) by {
                            assert(keeps_member(fewer[j], front[j]));
                        }
                        assert(is_first_odd(members[last], members, last));
                    },
                }
            },
            Err(key) => {
                let i = choose|i: int|
                    0 <= i < front.len() && is_first_odd(#[trigger] front[i], front, i)
                        && front[i].0 == key;
                assert(members[i] == front[i]);
                assert forall|j: int| 0 <= j < i implies writes_number(
                    (#[trigger] members[j]).0,
                ) by {
                    assert(front[j] == members[j]);
                }
                assert(is_first_odd(members[i], members, i));
            },
        }
    }
}

/// Whether a text is a whole number of 64 bits.
pub open spec fn writes_number(s: Seq<char>) -> bool {
    numbers::read_in_range(s, true, i64::MIN as int, i64::MAX as int) is Some
}

/// Whether a member is the first one whose key is no number.
pub open spec fn is_first_odd(
    member: (Seq<char>, Seq<char>),
    members: Seq<(Seq<char>, Seq<char>)>,
    i: int,
) -> bool {
    !writes_number(member.0) && forall|j: int|
        0 <= j < i ==> writes_number((#[trigger] members[j]).0)
}

/// Whether a model keeps what a member says.
pub open spec fn keeps_member(model: ModelView, member: (Seq<char>, Seq<char>)) -> bool {
    &&& numbers::read_in_range(member.0, true, i64::MIN as int, i64::MAX as int) == Some(
        model.original_model_id as int,
    )
    &&& model.model_json == member.1
    &&& model.name == match string_under(member.1, "name"@) {
        Some(name) => name,
        None => "Unknown model"@,
    }
    &&& model.css == match string_under(member.1, "css"@) {
        Some(css) => css,
        None => Seq::empty(),
    }
}

/// Records are indexed with the vectors that came for them, one for one and in order, under their
/// own ids.
pub proof fn law_records_get_their_vectors<V>(
    vectors: Seq<V>,
    payloads: Seq<(models::CardRecord, String)>,
    i: int,
)
    requires
        0 <= i < payloads.len(),
        vectors.len() == payloads.len(),
    ensures
        paired(vectors, payloads).len() == payloads.len(),
        paired(vectors, payloads)[i].vector == vectors[i],
        paired(vectors, payloads)[i].payload == payloads[i].0,
        paired(vectors, payloads)[i].point_id == payloads[i].0.point_id,
{
}

/// All chunks of a card are filed under one card id: a record that is not that of a first chunk has
/// the card id of the record before it, and is of the same card.
pub proof fn law_chunks_share_their_card(
    import_id: i64,
    rows: Seq<CardRow>,
    notes: Seq<ImportNote>,
    names: Seq<(i64, Seq<char>)>,
    start: i64,
    p: int,
)
    requires
        0 <= p < import_points(import_id, rows, notes, names, start).len(),
        import_points(import_id, rows, notes, names, start)[p].0.chunk_index != 0,
    ensures
        p > 0,
        ({
            let points = import_points(import_id, rows, notes, names, start);
            points[p].0.card_id == points[p - 1].0.card_id && points[p].0.original_card_id
                == points[p - 1].0.original_card_id && points[p].0.fields_joined
                == points[p - 1].0.fields_joined
        }),
    decreases rows.len(),
{
    let points = import_points(import_id, rows, notes, names, start);
    let front = import_points(import_id, rows.drop_last(), notes, names, start);
    if p < front.len() {
        assert(points[p] == front[p]);
        law_chunks_share_their_card(import_id, rows.drop_last(), notes, names, start, p);
        assert(points[p - 1] == front[p - 1]);
    } else {
        assert(p - front.len() > 0);
    }
}

} // verus!
