//! Importing a deck: its models, notes and cards, cut into chunks for the index.

use vstd::prelude::*;
use std::collections::HashMap;
use vstd::utf8;
use crate::db;
use crate::db::IdCounter;
use crate::json;
use crate::models;
use crate::models::{CardRecord, DeckModel, DenseCardPoint};
use crate::numbers;
use crate::order;
use crate::strings;
use crate::strings::Separator;
use crate::text;

verus! {

broadcast use vstd::std_specs::hash::group_hash_axioms;

/// Why a deck cannot be imported.
#[derive(Debug, Clone)]
pub enum ImportError {
    /// The archive holds no collection.
    MissingCollection,
    /// The models, the decks or the media list of the collection are not JSON, with the reason.
    Json(String),
    /// A model has an id that is no number.
    ModelId(String),
    /// The fields of a note cannot be laid out as text.
    Unrenderable,
    /// The fields of a note cannot be written as JSON.
    Fields,
    /// A media file would be read or written outside its directory, with the message.
    Media(String),
}

impl ImportError {
    /// The message of the error.
    pub open spec fn text(self) -> Seq<char> {
        match self {
            ImportError::MissingCollection => "APKG missing collection.anki21/collection.anki2"@,
            ImportError::Json(reason) => reason@,
            ImportError::ModelId(key) => match numbers::i64_fault(key@) {
                Some(fault) => fault,
                None => key@,
            },
            ImportError::Unrenderable => "note cannot be laid out as text"@,
            ImportError::Fields => "note fields cannot be written"@,
            ImportError::Media(message) => message@,
        }
    }

    /// Says why the deck cannot be imported.
    pub fn message(&self) -> (res: String)
        ensures
            res@ == self.text(),
    {
        match self {
            ImportError::MissingCollection => strings::copy(
                "APKG missing collection.anki21/collection.anki2",
            ),
            ImportError::Json(reason) => strings::copy(reason.as_str()),
            ImportError::ModelId(key) => match numbers::parse_fault(key.as_str()) {
                Some(fault) => strings::copy(fault),
                None => strings::copy(key.as_str()),
            },
            ImportError::Unrenderable => strings::copy("note cannot be laid out as text"),
            ImportError::Fields => strings::copy("note fields cannot be written"),
            ImportError::Media(message) => strings::copy(message.as_str()),
        }
    }
}

/// Which file of an archive holds its collection: the newer format where there is one.
pub fn collection_name(has_anki21: bool, has_anki2: bool) -> (res: Result<&'static str, ImportError>)
    ensures
        match res {
            Ok(name) => name@ == (if has_anki21 {
                "collection.anki21"@
            } else {
                "collection.anki2"@
            }) && (has_anki21 || has_anki2),
            Err(e) => e == ImportError::MissingCollection && !has_anki21 && !has_anki2,
        },
{
    if has_anki21 {
        Ok("collection.anki21")
    } else if has_anki2 {
        Ok("collection.anki2")
    } else {
        Err(ImportError::MissingCollection)
    }
}

/// The first member with a key.
pub open spec fn member(members: Seq<(Seq<char>, Seq<char>)>, key: Seq<char>) -> Option<Seq<char>>
    decreases members.len(),
{
    if members.len() == 0 {
        None
    } else if members[0].0 == key {
        Some(members[0].1)
    } else {
        member(members.skip(1), key)
    }
}

/// The string under a key of the object that a JSON text denotes, where there is one.
pub open spec fn string_under(value: Seq<char>, key: Seq<char>) -> Option<Seq<char>> {
    match json::object_members(value) {
        Ok(Some(members)) => match member(members, key) {
            Some(found) => json::string_value(found),
            None => None,
        },
        _ => None,
    }
}

fn find_member(members: &Vec<(String, String)>, key: &str) -> (res: Option<usize>)
    ensures
        match res {
            Some(i) => i < members.len() && member(json::pair_texts(members@), key@) == Some(
                members@[i as int].1@,
            ),
            None => member(json::pair_texts(members@), key@) is None,
        },
{
    let ghost all = json::pair_texts(members@);
    let mut i: usize = 0;
    assert(all.skip(0) =~= all);
    while i < members.len()
        invariant
            i <= members.len(),
            all == json::pair_texts(members@),
            member(all, key@) == member(all.skip(i as int), key@),
        decreases members.len() - i,
    {
        assert(all.skip(i as int).skip(1) =~= all.skip(i + 1));
        if strings::same(members[i].0.as_str(), key) {
            return Some(i);
        }
        i = i + 1;
    }
    None
}

fn read_string_under(value: &str, key: &str) -> (res: Option<String>)
    ensures
        match res {
            Some(found) => string_under(value@, key@) == Some(found@),
            None => string_under(value@, key@) is None,
        },
{
    match json::read_object(value) {
        Ok(Some(members)) => match find_member(&members, key) {
            Some(i) => json::read_string(members[i].1.as_str()),
            None => None,
        },
        _ => None,
    }
}

/// The members of the object that a JSON text denotes: none where it denotes another value.
pub open spec fn members_of(value: Seq<char>) -> Result<Seq<(Seq<char>, Seq<char>)>, Seq<char>> {
    match json::object_members(value) {
        Ok(Some(members)) => Ok(members),
        Ok(None) => Ok(Seq::empty()),
        Err(reason) => Err(reason),
    }
}

fn read_members(value: &str) -> (res: Result<Vec<(String, String)>, String>)
    ensures
        match res {
            Ok(members) => members_of(value@) == Ok::<Seq<(Seq<char>, Seq<char>)>, Seq<char>>(
                json::pair_texts(members@),
            ),
            Err(reason) => members_of(value@) == Err::<Seq<(Seq<char>, Seq<char>)>, Seq<char>>(
                reason@,
            ),
        },
{
    match json::read_object(value) {
        Ok(Some(members)) => Ok(members),
        Ok(None) => {
            let res: Vec<(String, String)> = Vec::new();
            assert(json::pair_texts(res@) =~= Seq::<(Seq<char>, Seq<char>)>::empty());
            Ok(res)
        },
        Err(reason) => Err(reason),
    }
}

/// The name of a deck as its JSON gives it, with its id, where both can be read.
pub open spec fn deck_name(member: (Seq<char>, Seq<char>)) -> Option<(i64, Seq<char>)> {
    match (
        numbers::read_in_range(member.0, true, i64::MIN as int, i64::MAX as int),
        string_under(member.1, "name"@),
    ) {
        (Some(id), Some(name)) => Some((id as i64, name)),
        _ => None,
    }
}

/// The deck names that can be read from the members of a JSON object.
pub open spec fn deck_names(members: Seq<(Seq<char>, Seq<char>)>) -> Seq<(i64, Seq<char>)>
    decreases members.len(),
{
    if members.len() == 0 {
        Seq::empty()
    } else {
        let front = deck_names(members.drop_last());
        match deck_name(members.last()) {
            Some(named) => front.push(named),
            None => front,
        }
    }
}

/// The character sequences of a list of names.
pub open spec fn name_texts(v: Seq<(i64, String)>) -> Seq<(i64, Seq<char>)> {
    Seq::new(v.len(), |i: int| (v[i].0, v[i].1@))
}

/// Picks the deck names out of the members of a JSON object.
pub fn names_of_members(members: &Vec<(String, String)>) -> (res: Vec<(i64, String)>)
    ensures
        name_texts(res@) == deck_names(json::pair_texts(members@)),
{
    let mut res: Vec<(i64, String)> = Vec::new();
    let ghost all = json::pair_texts(members@);
    assert(name_texts(res@) =~= Seq::<(i64, Seq<char>)>::empty());
    for i in 0..members.len()
        invariant
            all == json::pair_texts(members@),
            name_texts(res@) == deck_names(all.take(i as int)),
    {
        assert(all.take(i + 1).drop_last() =~= all.take(i as int));
        if let Some(id) = numbers::parse_i64(members[i].0.as_str()) {
            if let Some(name) = read_string_under(members[i].1.as_str(), "name") {
                let ghost before = name_texts(res@);
                let ghost named = (id, name@);
                res.push((id, name));
                assert(name_texts(res@) =~= before.push(named));
            }
        }
    }
    assert(all.take(all.len() as int) =~= all);
    res
}

/// The names of the decks of a collection.
pub fn parse_name_map(decks_json: &str) -> (res: Result<Vec<(i64, String)>, ImportError>)
    ensures
        match res {
            Ok(names) => members_of(decks_json@) matches Ok(members) && name_texts(names@)
                == deck_names(members),
            Err(e) => e matches ImportError::Json(reason) && members_of(decks_json@) == Err::<
                Seq<(Seq<char>, Seq<char>)>,
                Seq<char>,
            >(reason@),
        },
{
    match read_members(decks_json) {
        Ok(members) => Ok(names_of_members(&members)),
        Err(reason) => Err(ImportError::Json(reason)),
    }
}

/// The name that a list gives to a deck: the last one.
pub open spec fn name_for(names: Seq<(i64, Seq<char>)>, deck_id: i64) -> Option<Seq<char>>
    decreases names.len(),
{
    if names.len() == 0 {
        None
    } else if names.last().0 == deck_id {
        Some(names.last().1)
    } else {
        name_for(names.drop_last(), deck_id)
    }
}

/// The name of a deck, or the name for decks without one.
pub open spec fn name_or_default(names: Seq<(i64, Seq<char>)>, deck_id: i64) -> Seq<char> {
    match name_for(names, deck_id) {
        Some(name) => name,
        None => "Imported deck"@,
    }
}

fn find_name(names: &Vec<(i64, String)>, deck_id: i64) -> (res: String)
    ensures
        res@ == name_or_default(name_texts(names@), deck_id),
{
    let ghost all = name_texts(names@);
    let mut n: usize = names.len();
    assert(all.take(all.len() as int) =~= all);
    while n > 0
        invariant
            n <= names.len(),
            all == name_texts(names@),
            name_for(all, deck_id) == name_for(all.take(n as int), deck_id),
        decreases n,
    {
        assert(all.take(n as int).drop_last() =~= all.take(n - 1));
        if names[n - 1].0 == deck_id {
            return names[n - 1].1.clone();
        }
        n = n - 1;
    }
    strings::copy("Imported deck")
}

/// What is kept of a model of a collection.
#[verifier::ext_equal]
pub struct ModelView {
    pub original_model_id: i64,
    pub name: Seq<char>,
    pub css: Seq<char>,
    pub model_json: Seq<char>,
}

/// A model of a collection.
#[derive(Debug, Clone)]
pub struct ModelEntry {
    pub original_model_id: i64,
    pub name: String,
    pub css: String,
    pub model_json: String,
}

impl View for ModelEntry {
    type V = ModelView;

    open spec fn view(&self) -> ModelView {
        ModelView {
            original_model_id: self.original_model_id,
            name: self.name@,
            css: self.css@,
            model_json: self.model_json@,
        }
    }
}

/// The views of a list of models.
pub open spec fn model_views(v: Seq<ModelEntry>) -> Seq<ModelView> {
    Seq::new(v.len(), |i: int| v[i]@)
}

/// The model that a member of the models object describes.
pub open spec fn model_of(member: (Seq<char>, Seq<char>)) -> Option<ModelView> {
    match numbers::read_in_range(member.0, true, i64::MIN as int, i64::MAX as int) {
        None => None,
        Some(id) => Some(
            ModelView {
                original_model_id: id as i64,
                name: match string_under(member.1, "name"@) {
                    Some(name) => name,
                    None => "Unknown model"@,
                },
                css: match string_under(member.1, "css"@) {
                    Some(css) => css,
                    None => Seq::empty(),
                },
                model_json: member.1,
            },
        ),
    }
}

/// The models that the members of a models object describe, or the first key that is no number.
pub open spec fn models_of(members: Seq<(Seq<char>, Seq<char>)>) -> Result<
    Seq<ModelView>,
    Seq<char>,
>
    decreases members.len(),
{
    if members.len() == 0 {
        Ok(Seq::empty())
    } else {
        match models_of(members.drop_last()) {
            Err(key) => Err(key),
            Ok(front) => match model_of(members.last()) {
                Some(model) => Ok(front.push(model)),
                None => Err(members.last().0),
            },
        }
    }
}

proof fn lemma_models_of_prefix(members: Seq<(Seq<char>, Seq<char>)>, n: int)
    requires
        0 <= n <= members.len(),
        models_of(members.take(n)) is Err,
    ensures
        models_of(members) == models_of(members.take(n)),
    decreases members.len(),
{
    if n == members.len() {
        assert(members.take(n) =~= members);
    } else {
        assert(members.drop_last().take(n) =~= members.take(n));
        lemma_models_of_prefix(members.drop_last(), n);
    }
}

/// Reads the models of a collection from the members of its models object.
pub fn models_of_members(members: &Vec<(String, String)>) -> (res: Result<
    Vec<ModelEntry>,
    ImportError,
>)
    ensures
        match res {
            Ok(models) => models_of(json::pair_texts(members@)) == Ok::<Seq<ModelView>, Seq<char>>(
                model_views(models@),
            ),
            Err(ImportError::ModelId(key)) => models_of(json::pair_texts(members@)) == Err::<
                Seq<ModelView>,
                Seq<char>,
            >(key@),
            Err(_) => false,
        },
{
    let mut res: Vec<ModelEntry> = Vec::new();
    let ghost all = json::pair_texts(members@);
    assert(model_views(res@) =~= Seq::<ModelView>::empty());
    for i in 0..members.len()
        invariant
            all == json::pair_texts(members@),
            models_of(all.take(i as int)) == Ok::<Seq<ModelView>, Seq<char>>(model_views(res@)),
    {
        assert(all.take(i + 1).drop_last() =~= all.take(i as int));
        let key = &members[i].0;
        let value = &members[i].1;
        match numbers::parse_i64(key.as_str()) {
            None => {
                proof {
                    lemma_models_of_prefix(all, i + 1);
                }
                return Err(ImportError::ModelId(key.clone()));
            },
            Some(original_model_id) => {
                let name = match read_string_under(value.as_str(), "name") {
                    Some(name) => name,
                    None => strings::copy("Unknown model"),
                };
                let css = match read_string_under(value.as_str(), "css") {
                    Some(css) => css,
                    None => String::new(),
                };
                let entry = ModelEntry { original_model_id, name, css, model_json: value.clone() };
                let ghost before = model_views(res@);
                let ghost model = entry@;
                assert(model_of(all[i as int]) == Some(model));
                res.push(entry);
                assert(model_views(res@) =~= before.push(model));
            },
        }
    }
    assert(all.take(all.len() as int) =~= all);
    Ok(res)
}

/// Reads the models of a collection.
pub fn read_models(models_json: &str) -> (res: Result<Vec<ModelEntry>, ImportError>)
    ensures
        match res {
            Ok(models) => members_of(models_json@) matches Ok(members) && models_of(members) == Ok::<
                Seq<ModelView>,
                Seq<char>,
            >(model_views(models@)),
            Err(ImportError::Json(reason)) => members_of(models_json@) == Err::<
                Seq<(Seq<char>, Seq<char>)>,
                Seq<char>,
            >(reason@),
            Err(ImportError::ModelId(key)) => members_of(models_json@) matches Ok(members)
                && models_of(members) == Err::<Seq<ModelView>, Seq<char>>(key@),
            Err(_) => false,
        },
{
    match read_members(models_json) {
        Err(reason) => Err(ImportError::Json(reason)),
        Ok(members) => models_of_members(&members),
    }
}

/// The models of an imported deck, each with an id of its own.
pub fn number_models(import_id: i64, entries: Vec<ModelEntry>, ids: &mut IdCounter) -> (res: Vec<
    DeckModel,
>)
    ensures
        res@.len() == entries@.len(),
        forall|i: int|
            0 <= i < res@.len() ==> (#[trigger] res@[i]) == (DeckModel {
                id: db::id_after(old(ids).next, i),
                import_id,
                original_model_id: entries@[i].original_model_id,
                name: entries@[i].name,
                css: entries@[i].css,
                model_json: entries@[i].model_json,
            }),
        final(ids).next == db::id_after(old(ids).next, entries@.len() as int),
{
    let mut res: Vec<DeckModel> = Vec::new();
    let ghost all = entries@;
    let ghost start = ids.next;
    proof {
        db::lemma_id_after(start, 0);
    }
    for entry in it: entries
        invariant
            it.seq() == all,
            res@.len() == it.index(),
            ids.next == db::id_after(start, it.index() as int),
            forall|i: int|
                0 <= i < res@.len() ==> (#[trigger] res@[i]) == (DeckModel {
                    id: db::id_after(start, i),
                    import_id,
                    original_model_id: all[i].original_model_id,
                    name: all[i].name,
                    css: all[i].css,
                    model_json: all[i].model_json,
                }),
    {
        proof {
            db::lemma_id_after(start, it.index() as int);
        }
        res.push(
            DeckModel {
                id: ids.next_id(),
                import_id,
                original_model_id: entry.original_model_id,
                name: entry.name,
                css: entry.css,
                model_json: entry.model_json,
            },
        );
    }
    res
}

/// A note as the collection keeps it: its fields in one text, apart by unit separators.
#[derive(Debug, Clone)]
pub struct NoteRow {
    pub id: i64,
    pub guid: String,
    pub model_id: i64,
    pub tags: String,
    pub fields: String,
}

/// A card as the collection keeps it.
#[derive(Debug, Clone, Copy)]
pub struct CardRow {
    pub id: i64,
    pub note_id: i64,
    pub deck_id: i64,
    pub ord: i64,
}

/// A note whose fields are plain text.
#[derive(Debug, Clone)]
pub struct ImportNote {
    pub id: i64,
    pub guid: String,
    pub model_id: i64,
    pub tags: String,
    pub fields_json: String,
    pub fields_joined: String,
}

/// The plain fields of a note, `None` where one of them cannot be laid out.
pub open spec fn note_fields(raw: Seq<char>) -> Option<Seq<Seq<char>>> {
    text::all_normalized(strings::split_on(raw, Separator::Char('\u{1f}')))
}

/// Whether `note` is the note of a row with the given plain fields.
pub open spec fn is_note(note: ImportNote, row: NoteRow, fields: Seq<Seq<char>>) -> bool {
    &&& note.id == row.id
    &&& note.guid@ == row.guid@
    &&& note.model_id == row.model_id
    &&& note.tags@ == strings::trim(row.tags@)
    &&& json::string_list_text(fields) == Some(note.fields_json@)
    &&& json::string_list(note.fields_json@) == Some(fields)
    &&& note.fields_joined@ == strings::join(fields, " | "@)
}

/// Whether `note` is the note of a row.
pub open spec fn is_note_of(note: ImportNote, row: NoteRow) -> bool {
    match note_fields(row.fields@) {
        Some(fields) => is_note(note, row, fields),
        None => false,
    }
}

/// The note of a row with the given plain fields.
pub fn note_of_fields(row: &NoteRow, fields: &Vec<String>) -> (res: Result<ImportNote, ImportError>)
    ensures
        match res {
            Ok(note) => is_note(note, *row, strings::texts(fields@)),
            Err(e) => e == ImportError::Fields && json::string_list_text(strings::texts(fields@))
                is None,
        },
{
    match json::write_string_list(fields) {
        None => Err(ImportError::Fields),
        Some(fields_json) => Ok(
            ImportNote {
                id: row.id,
                guid: row.guid.clone(),
                model_id: row.model_id,
                tags: strings::trimmed(row.tags.as_str()),
                fields_json,
                fields_joined: strings::join_all(fields, " | "),
            },
        ),
    }
}

/// Why a row has no note, where it has none.
pub open spec fn note_failure(row: NoteRow) -> Option<ImportError> {
    match note_fields(row.fields@) {
        None => Some(ImportError::Unrenderable),
        Some(fields) => if json::string_list_text(fields) is None {
            Some(ImportError::Fields)
        } else {
            None
        },
    }
}

/// The note of a row, its fields made plain text.
pub fn prepare_note(row: &NoteRow) -> (res: Result<ImportNote, ImportError>)
    ensures
        match res {
            Ok(note) => note_failure(*row) is None && is_note_of(note, *row),
            Err(e) => note_failure(*row) == Some(e),
        },
{
    let parts = strings::split_by(row.fields.as_str(), Separator::Char('\u{1f}'));
    match text::normalize_all(&parts) {
        None => Err(ImportError::Unrenderable),
        Some(fields) => note_of_fields(row, &fields),
    }
}

/// The notes of a list of rows; the first row without a note is the error.
pub fn prepare_notes(rows: &Vec<NoteRow>) -> (res: Result<Vec<ImportNote>, ImportError>)
    ensures
        match res {
            Ok(notes) => notes@.len() == rows@.len() && (forall|i: int|
                0 <= i < rows@.len() ==> is_note_of(#[trigger] notes@[i], rows@[i])),
            Err(e) => exists|i: int|
                0 <= i < rows@.len() && note_failure(#[trigger] rows@[i]) == Some(e) && (forall|
                    j: int,
                |
                    0 <= j < i ==> note_failure(#[trigger] rows@[j]) is None),
        },
{
    let mut res: Vec<ImportNote> = Vec::new();
    for i in 0..rows.len()
        invariant
            res@.len() == i,
            forall|j: int| 0 <= j < i ==> note_failure(#[trigger] rows@[j]) is None,
            forall|j: int|
                0 <= j < i ==> is_note_of(#[trigger] res@[j], rows@[j]),
    {
        match prepare_note(&rows[i]) {
            Ok(note) => res.push(note),
            Err(e) => {
                assert(note_failure(rows@[i as int]) == Some(e));
                return Err(e);
            },
        }
    }
    Ok(res)
}

/// The last note with an id.
pub open spec fn note_for(notes: Seq<ImportNote>, id: i64) -> Option<ImportNote>
    decreases notes.len(),
{
    if notes.len() == 0 {
        None
    } else if notes.last().id == id {
        Some(notes.last())
    } else {
        note_for(notes.drop_last(), id)
    }
}

/// The position of the last note with each id.
pub open spec fn note_index(notes: Seq<ImportNote>) -> Map<i64, usize>
    decreases notes.len(),
{
    if notes.len() == 0 {
        Map::empty()
    } else {
        note_index(notes.drop_last()).insert(notes.last().id, (notes.len() - 1) as usize)
    }
}

proof fn lemma_note_index(notes: Seq<ImportNote>, id: i64)
    requires
        notes.len() <= usize::MAX,
    ensures
        note_index(notes).contains_key(id) <==> note_for(notes, id) is Some,
        note_index(notes).contains_key(id) ==> note_index(notes)[id] < notes.len() && note_for(
            notes,
            id,
        ) == Some(notes[note_index(notes)[id] as int]),
    decreases notes.len(),
{
    if notes.len() > 0 {
        lemma_note_index(notes.drop_last(), id);
    }
}

fn index_notes(notes: &Vec<ImportNote>) -> (res: HashMap<i64, usize>)
    ensures
        res@ == note_index(notes@),
{
    let mut res: HashMap<i64, usize> = HashMap::new();
    assert(res@ =~= note_index(notes@.take(0)));
    for i in 0..notes.len()
        invariant
            res@ == note_index(notes@.take(i as int)),
    {
        assert(notes@.take(i + 1).drop_last() =~= notes@.take(i as int));
        res.insert(notes[i].id, i);
    }
    assert(notes@.take(notes@.len() as int) =~= notes@);
    res
}

/// How many words a chunk of a card holds at most.
pub const CARD_CHUNK_WORDS: usize = 400;

/// How many words a chunk of a card shares with the one before it.
pub const CARD_CHUNK_OVERLAP: usize = 60;

/// The chunks of a note's text.
pub open spec fn note_chunks(note: ImportNote) -> Seq<Seq<char>> {
    text::chunks(
        strings::words(note.fields_joined@),
        CARD_CHUNK_WORDS as nat,
        CARD_CHUNK_OVERLAP as nat,
    )
}

/// The hash by which a card of a note is known.
pub open spec fn card_hash(guid: Seq<char>, ord: i64) -> Seq<char> {
    text::hex(text::sha256(utf8::encode_utf8(guid + ":"@ + numbers::decimal(ord as int))))
}

/// The record of chunk `k` of a card.
pub open spec fn chunk_view(
    import_id: i64,
    row: CardRow,
    note: ImportNote,
    deck_name: Seq<char>,
    card_id: i64,
    point_id: i64,
    k: int,
) -> models::CardView {
    models::CardView {
        point_id,
        import_id,
        card_id,
        original_note_id: row.note_id,
        original_card_id: row.id,
        original_deck_id: row.deck_id,
        original_model_id: note.model_id,
        deck_name,
        guid: note.guid@,
        ord: row.ord,
        chunk_index: k as i64,
        note_hash: card_hash(note.guid@, row.ord),
        card_text_clean: note.fields_joined@,
        fields_json: note.fields_json@,
        fields_joined: note.fields_joined@,
        tags: note.tags@,
        chunk_text: note_chunks(note)[k],
    }
}

/// The records of a card, one for each chunk, each with the text to embed. The card takes the id
/// `first` draws after `start`, its chunks the ids behind that one.
pub open spec fn card_points(
    import_id: i64,
    row: CardRow,
    note: ImportNote,
    deck_name: Seq<char>,
    start: i64,
    first: int,
) -> Seq<(models::CardView, Seq<char>)> {
    Seq::new(
        note_chunks(note).len(),
        |k: int|
            (
                chunk_view(
                    import_id,
                    row,
                    note,
                    deck_name,
                    db::id_after(start, first),
                    db::id_after(start, first + 1 + k),
                    k,
                ),
                "passage: "@ + note_chunks(note)[k],
            ),
    )
}

/// How many ids a list of cards takes: one for each card that has a note, one for each chunk.
pub open spec fn ids_taken(rows: Seq<CardRow>, notes: Seq<ImportNote>) -> nat
    decreases rows.len(),
{
    if rows.len() == 0 {
        0
    } else {
        ids_taken(rows.drop_last(), notes) + (match note_for(notes, rows.last().note_id) {
            Some(note) => 1 + note_chunks(note).len(),
            None => 0,
        })
    }
}

/// How many cards of a list have a note.
pub open spec fn cards_with_notes(rows: Seq<CardRow>, notes: Seq<ImportNote>) -> nat
    decreases rows.len(),
{
    if rows.len() == 0 {
        0
    } else {
        cards_with_notes(rows.drop_last(), notes) + (if note_for(notes, rows.last().note_id) is Some {
            1nat
        } else {
            0nat
        })
    }
}

/// The records of a list of cards.
pub open spec fn import_points(
    import_id: i64,
    rows: Seq<CardRow>,
    notes: Seq<ImportNote>,
    names: Seq<(i64, Seq<char>)>,
    start: i64,
) -> Seq<(models::CardView, Seq<char>)>
    decreases rows.len(),
{
    if rows.len() == 0 {
        Seq::empty()
    } else {
        let front = import_points(import_id, rows.drop_last(), notes, names, start);
        let row = rows.last();
        match note_for(notes, row.note_id) {
            Some(note) => front + card_points(
                import_id,
                row,
                note,
                name_or_default(names, row.deck_id),
                start,
                ids_taken(rows.drop_last(), notes) as int,
            ),
            None => front,
        }
    }
}

/// The views of records with the texts to embed.
pub open spec fn point_views(v: Seq<(CardRecord, String)>) -> Seq<(models::CardView, Seq<char>)> {
    Seq::new(v.len(), |i: int| (v[i].0@, v[i].1@))
}

/// What an import found: the records to index, and how many cards had a note.
#[derive(Debug, Clone)]
pub struct ImportedCards {
    pub points: Vec<(CardRecord, String)>,
    pub card_count: i64,
}

fn hash_of_card(guid: &str, ord: i64) -> (res: String)
    ensures
        res@ == card_hash(guid@, ord),
{
    let mut key = strings::copy(guid);
    key.append(":");
    numbers::push_decimal(&mut key, ord);
    text::hash_text(key.as_str())
}

/// Appends the records of one card.
fn push_card(
    points: &mut Vec<(CardRecord, String)>,
    import_id: i64,
    row: &CardRow,
    note: &ImportNote,
    deck_name: &String,
    ids: &mut IdCounter,
    Ghost(start): Ghost<i64>,
    Ghost(first): Ghost<int>,
)
    requires
        old(ids).next == db::id_after(start, first),
    ensures
        point_views(final(points)@) == point_views(old(points)@) + card_points(
            import_id,
            *row,
            *note,
            deck_name@,
            start,
            first,
        ),
        final(ids).next == db::id_after(start, first + 1 + note_chunks(*note).len()),
{
    proof {
        db::lemma_id_after(start, first);
    }
    let card_id: i64 = ids.next_id();
    let note_hash = hash_of_card(note.guid.as_str(), row.ord);
    let chunks = text::chunk_text(
        note.fields_joined.as_str(),
        CARD_CHUNK_WORDS,
        CARD_CHUNK_OVERLAP,
    );
    let ghost all = note_chunks(*note);
    let ghost given = point_views(points@);
    let ghost target = card_points(import_id, *row, *note, deck_name@, start, first);
    assert(chunks@.len() == all.len());
    assert(given + target.take(0) =~= given);
    for k in 0..chunks.len()
        invariant
            all == note_chunks(*note),
            all == strings::texts(chunks@),
            chunks@.len() == all.len(),
            card_id == db::id_after(start, first),
            note_hash@ == card_hash(note.guid@, row.ord),
            target == card_points(import_id, *row, *note, deck_name@, start, first),
            ids.next == db::id_after(start, first + 1 + k),
            point_views(points@) == given + target.take(k as int),
    {
        proof {
            db::lemma_id_after(start, first + 1 + k);
        }
        let point_id: i64 = ids.next_id();
        let record = CardRecord {
            point_id,
            import_id,
            card_id,
            original_note_id: row.note_id,
            original_card_id: row.id,
            original_deck_id: row.deck_id,
            original_model_id: note.model_id,
            deck_name: deck_name.clone(),
            guid: note.guid.clone(),
            ord: row.ord,
            chunk_index: k as i64,
            note_hash: note_hash.clone(),
            card_text_clean: note.fields_joined.clone(),
            fields_json: note.fields_json.clone(),
            fields_joined: note.fields_joined.clone(),
            tags: note.tags.clone(),
            chunk_text: chunks[k].clone(),
        };
        let mut passage = strings::copy("passage: ");
        passage.append(chunks[k].as_str());
        let ghost before = point_views(points@);
        let ghost point = (record@, passage@);
        assert(chunks@[k as int]@ == all[k as int]);
        assert(record@ == chunk_view(
            import_id,
            *row,
            *note,
            deck_name@,
            card_id,
            point_id,
            k as int,
        ));
        assert(point == target[k as int]);
        points.push((record, passage));
        assert(point_views(points@) =~= before.push(point));
        assert(target.take(k + 1) =~= target.take(k as int).push(target[k as int]));
        assert(given + target.take(k + 1) =~= (given + target.take(k as int)).push(
            target[k as int],
        ));
    }
    assert(target.take(target.len() as int) =~= target);
}

/// The records of the cards that have a note, chunk by chunk, with fresh ids.
pub fn import_cards(
    import_id: i64,
    notes: &Vec<ImportNote>,
    names: &Vec<(i64, String)>,
    rows: &Vec<CardRow>,
    ids: &mut IdCounter,
) -> (res: ImportedCards)
    ensures
        point_views(res.points@) == import_points(
            import_id,
            rows@,
            notes@,
            name_texts(names@),
            old(ids).next,
        ),
        res.card_count == cards_with_notes(rows@, notes@) as i64,
        final(ids).next == db::id_after(old(ids).next, ids_taken(rows@, notes@) as int),
{
    let index = index_notes(notes);
    let note_total: usize = notes.len();
    let mut points: Vec<(CardRecord, String)> = Vec::new();
    let mut card_count: usize = 0;
    let ghost start = ids.next;
    let ghost name_list = name_texts(names@);
    proof {
        db::lemma_id_after(start, 0);
    }
    assert(point_views(points@) =~= Seq::<(models::CardView, Seq<char>)>::empty());
    for i in 0..rows.len()
        invariant
            index@ == note_index(notes@),
            note_total == notes@.len(),
            name_list == name_texts(names@),
            point_views(points@) == import_points(
                import_id,
                rows@.take(i as int),
                notes@,
                name_list,
                start,
            ),
            card_count == cards_with_notes(rows@.take(i as int), notes@),
            card_count <= i,
            ids.next == db::id_after(start, ids_taken(rows@.take(i as int), notes@) as int),
    {
        assert(rows@.take(i + 1).drop_last() =~= rows@.take(i as int));
        let row = &rows[i];
        proof {
            lemma_note_index(notes@, row.note_id);
        }
        if let Some(at) = index.get(&row.note_id) {
            let deck_name = find_name(names, row.deck_id);
            push_card(
                &mut points,
                import_id,
                row,
                &notes[*at],
                &deck_name,
                ids,
                Ghost(start),
                Ghost(ids_taken(rows@.take(i as int), notes@) as int),
            );
            card_count = card_count + 1;
        }
    }
    assert(rows@.take(rows@.len() as int) =~= rows@);
    ImportedCards { points, card_count: card_count as i64 }
}

/// How many draws after the first one the card and the point of each record took their ids.
pub open spec fn point_draws(rows: Seq<CardRow>, notes: Seq<ImportNote>) -> Seq<(int, int)>
    decreases rows.len(),
{
    if rows.len() == 0 {
        Seq::empty()
    } else {
        let front = point_draws(rows.drop_last(), notes);
        let first = ids_taken(rows.drop_last(), notes) as int;
        match note_for(notes, rows.last().note_id) {
            Some(note) => front + Seq::new(
                note_chunks(note).len(),
                |k: int| (first, first + 1 + k),
            ),
            None => front,
        }
    }
}

proof fn lemma_point_draws(
    import_id: i64,
    rows: Seq<CardRow>,
    notes: Seq<ImportNote>,
    names: Seq<(i64, Seq<char>)>,
    start: i64,
)
    ensures
        ({
            let points = import_points(import_id, rows, notes, names, start);
            let draws = point_draws(rows, notes);
            &&& draws.len() == points.len()
            &&& forall|i: int|
                #![trigger points[i]]
                #![trigger draws[i]]
                0 <= i < points.len() ==> {
                    &&& points[i].0.card_id == db::id_after(start, draws[i].0)
                    &&& points[i].0.point_id == db::id_after(start, draws[i].1)
                    &&& 0 <= draws[i].0 < draws[i].1 < ids_taken(rows, notes)
                }
            &&& forall|i: int, j: int|
                #![trigger draws[i], draws[j]]
                0 <= i < j < draws.len() ==> draws[i].1 < draws[j].1 && (draws[i].0 == draws[j].0
                    && points[i].0.original_card_id == points[j].0.original_card_id || draws[i].1
                    < draws[j].0)
        }),
    decreases rows.len(),
{
    let points = import_points(import_id, rows, notes, names, start);
    let draws = point_draws(rows, notes);
    if rows.len() > 0 {
        let front = rows.drop_last();
        lemma_point_draws(import_id, front, notes, names, start);
        let fp = import_points(import_id, front, notes, names, start);
        let fd = point_draws(front, notes);
        let first = ids_taken(front, notes) as int;
        assert forall|i: int|
            #![trigger points[i]]
            #![trigger draws[i]]
            0 <= i < points.len() implies {
            &&& points[i].0.card_id == db::id_after(start, draws[i].0)
            &&& points[i].0.point_id == db::id_after(start, draws[i].1)
            &&& 0 <= draws[i].0 < draws[i].1 < ids_taken(rows, notes)
        } by {
            if i < fp.len() {
                assert(points[i] == fp[i] && draws[i] == fd[i]);
            }
        }
        assert forall|i: int, j: int|
            #![trigger draws[i], draws[j]]
            0 <= i < j < draws.len() implies draws[i].1 < draws[j].1 && (draws[i].0 == draws[j].0
            && points[i].0.original_card_id == points[j].0.original_card_id || draws[i].1
            < draws[j].0) by {
            if i < fd.len() {
                assert(draws[i] == fd[i]);
                assert(fp[i] == points[i]);
            }
            if j < fd.len() {
                assert(draws[j] == fd[j]);
                assert(fp[j] == points[j]);
            }
        }
    }
}

/// The ids of an import are unique: no two records share a point id, no record's point id is the
/// card id of any record, and records of different cards have different card ids.
pub proof fn law_import_ids_are_unique(
    import_id: i64,
    rows: Seq<CardRow>,
    notes: Seq<ImportNote>,
    names: Seq<(i64, Seq<char>)>,
    start: i64,
    i: int,
    j: int,
)
    requires
        ids_taken(rows, notes) <= 0x1_0000_0000_0000_0000int,
        0 <= i < import_points(import_id, rows, notes, names, start).len(),
        0 <= j < import_points(import_id, rows, notes, names, start).len(),
    ensures
        ({
            let points = import_points(import_id, rows, notes, names, start);
            &&& i != j ==> points[i].0.point_id != points[j].0.point_id
            &&& points[i].0.point_id != points[j].0.card_id
            &&& points[i].0.original_card_id != points[j].0.original_card_id
                ==> points[i].0.card_id != points[j].0.card_id
        }),
{
    lemma_point_draws(import_id, rows, notes, names, start);
    let points = import_points(import_id, rows, notes, names, start);
    let draws = point_draws(rows, notes);
    assert(points[i].0.card_id == db::id_after(start, draws[i].0));
    assert(points[j].0.card_id == db::id_after(start, draws[j].0));
    if i < j {
        assert(draws[i].1 < draws[j].1);
        db::law_ids_differ(start, draws[i].1, draws[j].1);
        if draws[i].0 < draws[j].0 {
            db::law_ids_differ(start, draws[i].0, draws[j].0);
        }
    } else if j < i {
        assert(draws[j].1 < draws[i].1);
        db::law_ids_differ(start, draws[j].1, draws[i].1);
        if draws[j].0 < draws[i].0 {
            db::law_ids_differ(start, draws[j].0, draws[i].0);
        }
    }
    if draws[i].1 < draws[j].0 {
        db::law_ids_differ(start, draws[i].1, draws[j].0);
    } else if draws[j].0 < draws[i].1 {
        db::law_ids_differ(start, draws[j].0, draws[i].1);
    } else {
        assert(draws[j].0 < draws[j].1);
        assert(false);
    }
}

proof fn lemma_import_points_extend(
    import_id: i64,
    rows: Seq<CardRow>,
    notes: Seq<ImportNote>,
    names: Seq<(i64, Seq<char>)>,
    start: i64,
    n: int,
)
    requires
        0 <= n <= rows.len(),
    ensures
        ({
            let part = import_points(import_id, rows.take(n), notes, names, start);
            let whole = import_points(import_id, rows, notes, names, start);
            part.len() <= whole.len() && whole.take(part.len() as int) == part
        }),
    decreases rows.len(),
{
    let whole = import_points(import_id, rows, notes, names, start);
    let part = import_points(import_id, rows.take(n), notes, names, start);
    if n == rows.len() {
        assert(rows.take(n) =~= rows);
        assert(whole.take(part.len() as int) =~= part);
    } else {
        let front = rows.drop_last();
        assert(front.take(n) =~= rows.take(n));
        lemma_import_points_extend(import_id, front, notes, names, start, n);
        let fp = import_points(import_id, front, notes, names, start);
        assert(whole.take(fp.len() as int) =~= fp);
        assert(whole.take(part.len() as int) =~= fp.take(part.len() as int));
    }
}

/// A card whose note has any text is indexed, and its first chunk, by which it is looked up, is
/// there.
pub proof fn law_imported_cards_can_be_found(
    import_id: i64,
    rows: Seq<CardRow>,
    notes: Seq<ImportNote>,
    names: Seq<(i64, Seq<char>)>,
    start: i64,
    r: int,
)
    requires
        0 <= r < rows.len(),
        note_for(notes, rows[r].note_id) matches Some(note) && strings::words(
            note.fields_joined@,
        ).len() > 0,
    ensures
        exists|i: int|
            0 <= i < import_points(import_id, rows, notes, names, start).len() && {
                let record = (#[trigger] import_points(import_id, rows, notes, names, start)[i]).0;
                record.original_card_id == rows[r].id && record.chunk_index == db::FIRST_CHUNK
            },
{
    let upto = rows.take(r + 1);
    assert(upto.drop_last() =~= rows.take(r));
    assert(upto.last() == rows[r]);
    let whole = import_points(import_id, rows, notes, names, start);
    let part = import_points(import_id, upto, notes, names, start);
    let before = import_points(import_id, rows.take(r), notes, names, start);
    lemma_import_points_extend(import_id, rows, notes, names, start, r + 1);
    let note = note_for(notes, rows[r].note_id).unwrap();
    let n = strings::words(note.fields_joined@).len();
    assert(note_chunks(note).len() > 0) by {
        if n > CARD_CHUNK_WORDS {
            text::law_chunks_cover(0, n, CARD_CHUNK_WORDS as nat, CARD_CHUNK_OVERLAP as nat);
        }
    }
    let i = before.len() as int;
    assert(whole.take(part.len() as int)[i] == part[i]);
    assert(whole[i] == part[i]);
    assert(part[i].0.chunk_index == 0);
}

proof fn lemma_note_for(notes: Seq<ImportNote>, id: i64)
    ensures
        note_for(notes, id) matches Some(note) ==> note.id == id && notes.contains(note),
    decreases notes.len(),
{
    if notes.len() > 0 {
        if notes.last().id == id {
            assert(notes.contains(notes[notes.len() - 1]));
        } else {
            lemma_note_for(notes.drop_last(), id);
            if let Some(note) = note_for(notes.drop_last(), id) {
                let i = choose|i: int|
                    0 <= i < notes.drop_last().len() && notes.drop_last()[i] == note;
                assert(notes[i] == note);
            }
        }
    }
}

/// A record keeps the fields of its note: the list that its JSON denotes is the list of plain
/// fields of the row that the note came from.
pub proof fn law_records_keep_fields(
    import_id: i64,
    rows: Seq<CardRow>,
    note_rows: Seq<NoteRow>,
    notes: Seq<ImportNote>,
    names: Seq<(i64, Seq<char>)>,
    start: i64,
    p: int,
)
    requires
        notes.len() == note_rows.len(),
        forall|i: int| 0 <= i < notes.len() ==> is_note_of(#[trigger] notes[i], note_rows[i]),
        0 <= p < import_points(import_id, rows, notes, names, start).len(),
    ensures
        exists|i: int|
            0 <= i < note_rows.len() && (#[trigger] note_rows[i]).id == import_points(
                import_id,
                rows,
                notes,
                names,
                start,
            )[p].0.original_note_id && json::string_list(
                import_points(import_id, rows, notes, names, start)[p].0.fields_json,
            ) == note_fields(note_rows[i].fields@),
    decreases rows.len(),
{
    let points = import_points(import_id, rows, notes, names, start);
    let front = import_points(import_id, rows.drop_last(), notes, names, start);
    if p < front.len() {
        assert(points[p] == front[p]);
        law_records_keep_fields(import_id, rows.drop_last(), note_rows, notes, names, start, p);
    } else {
        let row = rows.last();
        lemma_note_for(notes, row.note_id);
        let note = note_for(notes, row.note_id).unwrap();
        let i = choose|i: int| 0 <= i < notes.len() && notes[i] == note;
        assert(is_note_of(notes[i], note_rows[i]));
        assert(note_rows[i].id == row.note_id);
        assert(points[p].0.fields_json == note.fields_json@);
    }
}

/// The texts to embed.
pub open spec fn embed_texts(payloads: Seq<(CardRecord, String)>) -> Seq<Seq<char>> {
    Seq::new(payloads.len(), |i: int| payloads[i].1@)
}

/// The texts to embed for a list of records.
pub fn embed_inputs(payloads: &Vec<(CardRecord, String)>) -> (res: Vec<String>)
    ensures
        strings::texts(res@) == embed_texts(payloads@),
{
    let mut res: Vec<String> = Vec::new();
    for i in 0..payloads.len()
        invariant
            strings::texts(res@) == embed_texts(payloads@.take(i as int)),
    {
        let ghost before = strings::texts(res@);
        res.push(payloads[i].1.clone());
        assert(strings::texts(res@) =~= before.push(payloads@[i as int].1@));
        assert(embed_texts(payloads@.take(i + 1)) =~= embed_texts(payloads@.take(i as int)).push(
            payloads@[i as int].1@,
        ));
    }
    assert(payloads@.take(payloads@.len() as int) =~= payloads@);
    res
}

/// Records paired with vectors, one for one, as far as both go.
pub open spec fn paired<V>(vectors: Seq<V>, payloads: Seq<(CardRecord, String)>) -> Seq<
    DenseCardPoint<V>,
> {
    Seq::new(
        if vectors.len() <= payloads.len() {
            vectors.len()
        } else {
            payloads.len()
        },
        |i: int|
            DenseCardPoint {
                point_id: payloads[i].0.point_id,
                vector: vectors[i],
                payload: payloads[i].0,
            },
    )
}

fn pair_points<V>(vectors: Vec<V>, payloads: Vec<(CardRecord, String)>) -> (res: Vec<
    DenseCardPoint<V>,
>)
    ensures
        res@ == paired(vectors@, payloads@),
{
    let mut res: Vec<DenseCardPoint<V>> = Vec::new();
    let mut vectors = vectors;
    let mut payloads = payloads;
    let ghost vs = vectors@;
    let ghost ps = payloads@;
    let n: usize = if vectors.len() <= payloads.len() {
        vectors.len()
    } else {
        payloads.len()
    };
    vectors.truncate(n);
    payloads.truncate(n);
    assert(vectors@ =~= vs.take(n as int));
    assert(payloads@ =~= ps.take(n as int));
    let mut rest = order::reversed(payloads);
    for vector in it: vectors
        invariant
            it.seq() == vs.take(n as int),
            n <= vs.len(),
            n <= ps.len(),
            rest@ == ps.subrange(it.index() as int, n as int).reverse(),
            res@ == paired(vs, ps).take(it.index() as int),
            paired(vs, ps).len() == n,
    {
        let ghost k = it.index() as int;
        assert(vector == vs[k]);
        assert(rest@.last() == ps[k]);
        if let Some((payload, _)) = rest.pop() {
            assert(rest@ =~= ps.subrange(k + 1, n as int).reverse());
            res.push(DenseCardPoint { point_id: payload.point_id, vector, payload });
            assert(paired(vs, ps).take(k + 1) =~= paired(vs, ps).take(k).push(paired(vs, ps)[k]));
        }
    }
    assert(paired(vs, ps).take(n as int) =~= paired(vs, ps));
    res
}

/// The points to index: the records with their vectors or, where the vectors could not be had,
/// with the stand-ins and a warning. Where there are no records there is nothing to warn of.
pub fn embed_card_points<V>(
    embedded: Result<Vec<V>, String>,
    stand_ins: Vec<V>,
    payloads: Vec<(CardRecord, String)>,
) -> (res: (Vec<DenseCardPoint<V>>, Option<String>))
    ensures
        payloads@.len() == 0 ==> res.0@.len() == 0 && res.1 is None,
        payloads@.len() > 0 ==> match embedded {
            Ok(vectors) => res.0@ == paired(vectors@, payloads@) && res.1 is None,
            Err(reason) => res.0@ == paired(stand_ins@, payloads@) && db::opt_text(res.1) == Some(
                "Dense indexing unavailable, stored lexical-only records: "@ + reason@,
            ),
        },
{
    if payloads.len() == 0 {
        return (Vec::new(), None);
    }
    match embedded {
        Ok(vectors) => (pair_points(vectors, payloads), None),
        Err(reason) => {
            let mut warning = strings::copy(
                "Dense indexing unavailable, stored lexical-only records: ",
            );
            warning.append(reason.as_str());
            (pair_points(stand_ins, payloads), Some(warning))
        },
    }
}

/// Reads the media map of a package: under which name each media file stands in the archive, and
/// its own name.
pub fn read_media_map(media_json: &str) -> (res: Result<Vec<(String, String)>, ImportError>)
    ensures
        match (json::string_members(media_json@), res) {
            (Ok(members), Ok(entries)) => json::pair_texts(entries@) == members,
            (Err(message), Err(ImportError::Json(text))) => text@ == message,
            _ => false,
        },
{
    match json::read_string_members(media_json) {
        Ok(entries) => Ok(entries),
        Err(message) => Err(ImportError::Json(message)),
    }
}

/// What is read out of a collection.
pub struct ImportedDeck {
    pub models: Vec<DeckModel>,
    pub names: Vec<(i64, String)>,
    pub notes: Vec<ImportNote>,
    pub cards: ImportedCards,
}

/// Whether numbered models say what the models of a collection say, under ids from `start` on.
pub open spec fn are_models(
    models: Seq<DeckModel>,
    views: Seq<ModelView>,
    import_id: i64,
    start: i64,
) -> bool {
    &&& models.len() == views.len()
    &&& forall|i: int|
        0 <= i < models.len() ==> {
            &&& (#[trigger] models[i]).id == db::id_after(start, i)
            &&& models[i].import_id == import_id
            &&& models[i].original_model_id == views[i].original_model_id
            &&& models[i].name@ == views[i].name
            &&& models[i].css@ == views[i].css
            &&& models[i].model_json@ == views[i].model_json
        }
}

/// Whether a collection reads as an imported deck.
pub open spec fn is_import(
    deck: ImportedDeck,
    import_id: i64,
    models: Seq<ModelView>,
    names: Seq<(i64, Seq<char>)>,
    note_rows: Seq<NoteRow>,
    card_rows: Seq<CardRow>,
    start: i64,
) -> bool {
    &&& are_models(deck.models@, models, import_id, start)
    &&& name_texts(deck.names@) == names
    &&& deck.notes@.len() == note_rows.len()
    &&& forall|i: int|
        0 <= i < note_rows.len() ==> is_note_of(#[trigger] deck.notes@[i], note_rows[i])
    &&& point_views(deck.cards.points@) == import_points(
        import_id,
        card_rows,
        deck.notes@,
        names,
        db::id_after(start, models.len() as int),
    )
    &&& deck.cards.card_count == cards_with_notes(card_rows, deck.notes@) as i64
}

/// The note that cannot be imported, if there is one, is the first such note.
pub open spec fn first_note_failure(rows: Seq<NoteRow>, e: ImportError) -> bool {
    exists|i: int|
        0 <= i < rows.len() && note_failure(#[trigger] rows[i]) == Some(e) && (forall|j: int|
            0 <= j < i ==> note_failure(#[trigger] rows[j]) is None)
}

/// Imports a deck: reads its models, its deck names, its notes and its cards, and draws an id for
/// each model, each card and each chunk of a card. What stops it is the first of: models that are
/// not JSON, decks that are not JSON, a model without a proper id, a note that cannot be read.
pub fn ingest_deck(
    import_id: i64,
    models_json: &str,
    decks_json: &str,
    note_rows: &Vec<NoteRow>,
    card_rows: &Vec<CardRow>,
    ids: &mut IdCounter,
) -> (res: Result<ImportedDeck, ImportError>)
    ensures
        match members_of(models_json@) {
            Err(reason) => match res {
                Err(ImportError::Json(text)) => text@ == reason && *final(ids) == *old(ids),
                _ => false,
            },
            Ok(model_members) => match members_of(decks_json@) {
                Err(reason) => match res {
                    Err(ImportError::Json(text)) => text@ == reason && *final(ids) == *old(ids),
                    _ => false,
                },
                Ok(deck_members) => match models_of(model_members) {
                    Err(key) => match res {
                        Err(ImportError::ModelId(text)) => text@ == key && *final(ids) == *old(ids),
                        _ => false,
                    },
                    Ok(models) => match res {
                        Err(e) => first_note_failure(note_rows@, e) && *final(ids) == *old(ids),
                        Ok(deck) => {
                            &&& is_import(
                                deck,
                                import_id,
                                models,
                                deck_names(deck_members),
                                note_rows@,
                                card_rows@,
                                old(ids).next,
                            )
                            &&& final(ids).next == db::id_after(
                                old(ids).next,
                                (models.len() + ids_taken(card_rows@, deck.notes@)) as int,
                            )
                        },
                    },
                },
            },
        },
{
    let models = read_models(models_json);
    if let Err(ImportError::Json(reason)) = models {
        return Err(ImportError::Json(reason));
    }
    let names = match parse_name_map(decks_json) {
        Ok(names) => names,
        Err(e) => {
            return Err(e);
        },
    };
    let entries = match models {
        Ok(entries) => entries,
        Err(e) => {
            return Err(e);
        },
    };
    let notes = match prepare_notes(note_rows) {
        Ok(notes) => notes,
        Err(e) => {
            return Err(e);
        },
    };
    let ghost start = ids.next;
    let ghost views = model_views(entries@);
    let ghost whole = entries@;
    let models = number_models(import_id, entries, ids);
    proof {
        assert forall|i: int| 0 <= i < models@.len() implies {
            &&& (#[trigger] models@[i]).name@ == views[i].name
            &&& models@[i].css@ == views[i].css
            &&& models@[i].model_json@ == views[i].model_json
            &&& models@[i].original_model_id == views[i].original_model_id
        } by {
            assert(views[i] == whole[i]@);
        }
        let k = views.len() as int;
        lemma_ids_after(start, k, ids_taken(card_rows@, notes@) as int);
    }
    let cards = import_cards(import_id, &notes, &names, card_rows, ids);
    Ok(ImportedDeck { models, names, notes, cards })
}

proof fn lemma_ids_after(start: i64, j: int, k: int)
    ensures
        db::id_after(db::id_after(start, j), k) == db::id_after(start, j + k),
{
}

} // verus!
