//! The store: which records it creates, how they change, what it asks of the vector database and
//! what it makes of the answers.

use vstd::prelude::*;
use crate::models::{
    CardRecord, DashboardData, DeckImport, DeckModel, DeckRecord, GroupedResultRecord, ImportedMedia,
    ImportedCard, Material, MaterialRecord, MaterialSegment, ScoreKey, Search, SearchRecord,
    Timestamp,
};
use crate::numbers;
use crate::order;
use crate::order::RankBy;
use crate::strings;

verus! {

/// The instant that an RFC 3339 text denotes: whole seconds since the Unix epoch, and nanoseconds
/// beyond them.
pub uninterp spec fn rfc3339(text: Seq<char>) -> Option<(i64, u32)>;

/// `chrono::DateTime::parse_from_rfc3339` reads a date and time; `timestamp` and
/// `timestamp_subsec_nanos` give its instant, whatever its offset. The result depends on the text
/// alone and is named, not described.
#[verifier::external_body]
fn read_rfc3339(raw: &str) -> (res: Option<(i64, u32)>)
    ensures
        res == rfc3339(raw@),
{
    chrono::DateTime::parse_from_rfc3339(raw).ok().map(
        |time| (time.timestamp(), time.timestamp_subsec_nanos()),
    )
}

/// Why the store cannot answer.
#[derive(Debug, Clone, Copy, PartialEq, Eq, Structural)]
pub enum StoreError {
    DeckNotFound(i64),
    MaterialNotFound(i64),
    SearchNotFound(i64),
    CardNotFound(i64),
    /// The deck was there when its import started.
    DeckMissing(i64),
}

impl StoreError {
    /// The message of the error.
    pub open spec fn text(self) -> Seq<char> {
        match self {
            StoreError::DeckNotFound(id) => "deck "@ + numbers::decimal(id as int) + " not found"@,
            StoreError::MaterialNotFound(id) => "material "@ + numbers::decimal(id as int)
                + " not found"@,
            StoreError::SearchNotFound(id) => "search "@ + numbers::decimal(id as int)
                + " not found"@,
            StoreError::CardNotFound(id) => "card "@ + numbers::decimal(id as int) + " not found"@,
            StoreError::DeckMissing(id) => "deck "@ + numbers::decimal(id as int) + " missing"@,
        }
    }

    /// Says what is missing.
    pub fn message(&self) -> (res: String)
        ensures
            res@ == self.text(),
    {
        let (kind, id, what): (&str, i64, &str) = match *self {
            StoreError::DeckNotFound(id) => ("deck ", id, " not found"),
            StoreError::MaterialNotFound(id) => ("material ", id, " not found"),
            StoreError::SearchNotFound(id) => ("search ", id, " not found"),
            StoreError::CardNotFound(id) => ("card ", id, " not found"),
            StoreError::DeckMissing(id) => ("deck ", id, " missing"),
        };
        let mut res = strings::copy(kind);
        numbers::push_decimal(&mut res, id);
        res.append(what);
        res
    }
}

/// A counter that hands out ids, one after the other.
#[derive(Debug, Clone, Copy, PartialEq, Eq, Structural)]
pub struct IdCounter {
    pub next: i64,
}

/// The id that comes `k` after `start`, wrapping around at the end of the range.
pub open spec fn id_after(start: i64, k: int) -> i64 {
    let span = 0x1_0000_0000_0000_0000int;
    let low = -0x8000_0000_0000_0000int;
    ((start + k - low) % span + low) as i64
}

pub proof fn lemma_id_after(start: i64, k: int)
    ensures
        id_after(start, 0) == start,
        id_after(start, k + 1) == id_after(id_after(start, k), 1),
        0 <= k <= i64::MAX ==> id_after(start, k) == (if start + k > i64::MAX {
            start + k - 0x1_0000_0000_0000_0000int
        } else {
            start + k
        }),
{
}

/// Ids drawn fewer than 2^64 draws apart differ.
pub proof fn law_ids_differ(start: i64, j: int, k: int)
    requires
        j < k < j + 0x1_0000_0000_0000_0000int,
    ensures
        id_after(start, j) != id_after(start, k),
{
    let span = 0x1_0000_0000_0000_0000int;
    let a = start + j + 0x8000_0000_0000_0000int;
    let b = start + k + 0x8000_0000_0000_0000int;
    if a % span == b % span {
        assert(false) by (nonlinear_arith)
            requires
                a < b < a + span,
                a % span == b % span,
                span == 0x1_0000_0000_0000_0000int,
        ;
    }
}

impl IdCounter {
    /// Hands out the next id.
    pub fn next_id(&mut self) -> (res: i64)
        ensures
            res == old(self).next,
            final(self).next == id_after(old(self).next, 1),
    {
        let res: i64 = self.next;
        self.next = if res == i64::MAX {
            i64::MIN
        } else {
            res + 1
        };
        proof {
            lemma_id_after(res, 1);
        }
        res
    }
}

/// The text of an optional string.
pub open spec fn opt_text(o: Option<String>) -> Option<Seq<char>> {
    match o {
        Some(s) => Some(s@),
        None => None,
    }
}

/// The text of an optional string slice.
pub open spec fn opt_str(o: Option<&str>) -> Option<Seq<char>> {
    match o {
        Some(s) => Some(s@),
        None => None,
    }
}

fn copy_opt(o: Option<&str>) -> (res: Option<String>)
    ensures
        opt_text(res) == opt_str(o),
{
    match o {
        Some(s) => Some(strings::copy(s)),
        None => None,
    }
}

/// Whether a list of ids holds an id.
pub fn has_id(ids: &Vec<i64>, id: i64) -> (res: bool)
    ensures
        res == ids@.contains(id),
{
    for i in 0..ids.len()
        invariant
            forall|j: int| 0 <= j < i ==> ids@[j] != id,
    {
        if ids[i] == id {
            return true;
        }
    }
    false
}

/// A payload field that queries match on.
#[derive(Debug, Clone, Copy, PartialEq, Eq, Structural)]
pub enum Field {
    Id,
    CardId,
    PointId,
    ImportId,
    ChunkIndex,
}

impl Field {
    /// The key of the field in a payload.
    pub open spec fn name(self) -> Seq<char> {
        match self {
            Field::Id => "id"@,
            Field::CardId => "card_id"@,
            Field::PointId => "point_id"@,
            Field::ImportId => "import_id"@,
            Field::ChunkIndex => "chunk_index"@,
        }
    }

    /// The value of the field in a card's payload, where a card has the field.
    pub open spec fn of_card(self, card: CardRecord) -> Option<i64> {
        match self {
            Field::Id => None,
            Field::CardId => Some(card.card_id),
            Field::PointId => Some(card.point_id),
            Field::ImportId => Some(card.import_id),
            Field::ChunkIndex => Some(card.chunk_index),
        }
    }

    /// The key of the field in a payload.
    pub fn key(&self) -> (res: &'static str)
        ensures
            res@ == self.name(),
    {
        match self {
            Field::Id => "id",
            Field::CardId => "card_id",
            Field::PointId => "point_id",
            Field::ImportId => "import_id",
            Field::ChunkIndex => "chunk_index",
        }
    }
}

/// The condition that a field has a value.
#[derive(Debug, Clone, Copy, PartialEq, Eq, Structural)]
pub struct Condition {
    pub field: Field,
    pub value: i64,
}

impl Condition {
    pub open spec fn holds_of(self, card: CardRecord) -> bool {
        self.field.of_card(card) == Some(self.value)
    }
}

/// Which points a query selects.
#[derive(Debug, Clone)]
pub struct Filter {
    pub must: Vec<Condition>,
    pub must_not: Vec<Condition>,
}

impl Filter {
    /// Whether the filter selects a card chunk.
    pub open spec fn selects(self, card: CardRecord) -> bool {
        &&& forall|i: int| 0 <= i < self.must@.len() ==> (#[trigger] self.must@[i]).holds_of(card)
        &&& forall|i: int|
            0 <= i < self.must_not@.len() ==> !(#[trigger] self.must_not@[i]).holds_of(card)
    }
}

/// What is asked of one collection: the points that a filter selects, or all of them.
#[derive(Debug, Clone)]
pub struct Query {
    pub collection: String,
    pub filter: Option<Filter>,
}

/// A collection and the size of its vectors.
#[derive(Debug, Clone)]
pub struct CollectionSpec {
    pub name: String,
    pub vector_size: usize,
}

/// The chunk by which a card is looked up.
pub const FIRST_CHUNK: i64 = 0;

/// The chunk index of a point that holds no chunk.
pub const NO_CHUNK: i64 = -1;

fn with_field(field: Field, value: i64) -> (res: Filter)
    ensures
        res.must@ == seq![Condition { field, value }],
        res.must_not@.len() == 0,
{
    let mut must: Vec<Condition> = Vec::new();
    must.push(Condition { field, value });
    Filter { must, must_not: Vec::new() }
}

/// The filter for the first chunk of every card.
pub fn first_chunks() -> (res: Filter)
    ensures
        res.must@ == seq![Condition { field: Field::ChunkIndex, value: FIRST_CHUNK }],
        res.must_not@.len() == 0,
        forall|card: CardRecord|
            #![trigger res.selects(card)]
            res.selects(card) <==> card.chunk_index == FIRST_CHUNK,
{
    let res = with_field(Field::ChunkIndex, FIRST_CHUNK);
    assert forall|card: CardRecord| #![trigger res.selects(card)] res.selects(card) implies card.chunk_index
        == FIRST_CHUNK by {
        assert(res.must@[0].holds_of(card));
    }
    res
}

/// The filter for the first chunks of the cards with a value in one field.
fn first_chunks_with(field: Field, value: i64) -> (res: Filter)
    ensures
        res.must@ == seq![
            Condition { field, value },
            Condition { field: Field::ChunkIndex, value: FIRST_CHUNK },
        ],
        res.must_not@.len() == 0,
        forall|card: CardRecord|
            #![trigger res.selects(card)]
            res.selects(card) <==> field.of_card(card) == Some(value) && card.chunk_index
                == FIRST_CHUNK,
{
    let mut res = with_field(field, value);
    res.must.push(Condition { field: Field::ChunkIndex, value: FIRST_CHUNK });
    assert(res.must@ =~= seq![
        Condition { field, value },
        Condition { field: Field::ChunkIndex, value: FIRST_CHUNK },
    ]);
    assert forall|card: CardRecord| #![trigger res.selects(card)] res.selects(card) implies field.of_card(
        card,
    ) == Some(value) && card.chunk_index == FIRST_CHUNK by {
        assert(res.must@[0].holds_of(card));
        assert(res.must@[1].holds_of(card));
    }
    res
}

/// The filter of a dense search: every chunk, of one deck where a deck is selected, that is not
/// marked as having no position.
pub fn dense_filter(selected_deck_import_id: Option<i64>) -> (res: Filter)
    ensures
        match selected_deck_import_id {
            Some(id) => res.must@ == seq![Condition { field: Field::ImportId, value: id }],
            None => res.must@.len() == 0,
        },
        res.must_not@ == seq![Condition { field: Field::ChunkIndex, value: NO_CHUNK }],
        forall|card: CardRecord|
            #![trigger res.selects(card)]
            res.selects(card) <==> card.chunk_index != NO_CHUNK && (selected_deck_import_id matches Some(
                id,
            ) ==> card.import_id == id),
{
    let mut must: Vec<Condition> = Vec::new();
    if let Some(id) = selected_deck_import_id {
        must.push(Condition { field: Field::ImportId, value: id });
    }
    let mut must_not: Vec<Condition> = Vec::new();
    must_not.push(Condition { field: Field::ChunkIndex, value: NO_CHUNK });
    let res = Filter { must, must_not };
    assert forall|card: CardRecord| #![trigger res.selects(card)] res.selects(card) implies card.chunk_index
        != NO_CHUNK && (selected_deck_import_id matches Some(id) ==> card.import_id == id) by {
        assert(!res.must_not@[0].holds_of(card));
        if selected_deck_import_id is Some {
            assert(res.must@[0].holds_of(card));
        }
    }
    res
}

/// The collections beside the card collection.
pub open spec fn side_collections() -> Seq<Seq<char>> {
    seq!["decks"@, "materials"@, "searches"@]
}

/// The store: its id counter, the collection of its card chunks and the size of their vectors.
#[derive(Debug, Clone)]
pub struct Database {
    pub id_counter: IdCounter,
    pub qdrant_collection: String,
    pub embedding_vector_size: usize,
}

impl Database {
    /// A store whose ids start at `first_id`.
    pub fn new(first_id: i64, qdrant_collection: String, embedding_vector_size: usize) -> (res: Self)
        ensures
            res.id_counter.next == first_id,
            res.qdrant_collection == qdrant_collection,
            res.embedding_vector_size == embedding_vector_size,
    {
        Database { id_counter: IdCounter { next: first_id }, qdrant_collection, embedding_vector_size }
    }

    /// The collections that the store keeps: three whose vectors hold one number, and the card
    /// collection.
    pub fn init(&self) -> (res: Vec<CollectionSpec>)
        ensures
            res@.len() == 4,
            forall|i: int|
                0 <= i < 3 ==> (#[trigger] res@[i]).name@ == side_collections()[i]
                    && res@[i].vector_size == 1,
            res@[3].name@ == self.qdrant_collection@,
            res@[3].vector_size == self.embedding_vector_size,
    {
        let mut res: Vec<CollectionSpec> = Vec::new();
        res.push(CollectionSpec { name: strings::copy("decks"), vector_size: 1 });
        res.push(CollectionSpec { name: strings::copy("materials"), vector_size: 1 });
        res.push(CollectionSpec { name: strings::copy("searches"), vector_size: 1 });
        res.push(
            CollectionSpec {
                name: self.qdrant_collection.clone(),
                vector_size: self.embedding_vector_size,
            },
        );
        res
    }

    /// Hands out the next id.
    pub fn next_id(&mut self) -> (res: i64)
        ensures
            res == old(self).id_counter.next,
            *final(self) == (Database {
                id_counter: IdCounter { next: id_after(old(self).id_counter.next, 1) },
                ..*old(self)
            }),
    {
        self.id_counter.next_id()
    }

    /// The record of a deck that was just uploaded.
    pub fn create_deck_import(
        &mut self,
        filename: &str,
        storage_path: &str,
        created_at: &str,
    ) -> (res: DeckRecord)
        ensures
            res.id == old(self).id_counter.next,
            res.filename@ == filename@,
            res.status@ == "pending"@,
            res.warning is None,
            res.error is None,
            res.storage_path@ == storage_path@,
            res.note_count == 0,
            res.card_count == 0,
            res.models@.len() == 0,
            res.media@.len() == 0,
            res.created_at@ == created_at@,
            *final(self) == (Database {
                id_counter: IdCounter { next: id_after(old(self).id_counter.next, 1) },
                ..*old(self)
            }),
    {
        let id: i64 = self.next_id();
        DeckRecord {
            id,
            filename: strings::copy(filename),
            status: strings::copy("pending"),
            warning: None,
            error: None,
            storage_path: strings::copy(storage_path),
            note_count: 0,
            card_count: 0,
            models: Vec::new(),
            media: Vec::new(),
            created_at: strings::copy(created_at),
        }
    }

    /// The record of a material that was just uploaded.
    pub fn create_material(&mut self, filename: &str, kind: &str, created_at: &str) -> (res:
        MaterialRecord)
        ensures
            res.id == old(self).id_counter.next,
            res.filename@ == filename@,
            res.kind@ == kind@,
            res.status@ == "pending"@,
            res.warning is None,
            res.error is None,
            res.source_text@.len() == 0,
            res.segments@.len() == 0,
            res.created_at@ == created_at@,
            *final(self) == (Database {
                id_counter: IdCounter { next: id_after(old(self).id_counter.next, 1) },
                ..*old(self)
            }),
    {
        let id: i64 = self.next_id();
        MaterialRecord {
            id,
            filename: strings::copy(filename),
            kind: strings::copy(kind),
            status: strings::copy("pending"),
            warning: None,
            error: None,
            source_text: String::new(),
            segments: Vec::new(),
            created_at: strings::copy(created_at),
        }
    }

    /// The record of a search that was just asked for.
    pub fn create_search(
        &mut self,
        material_id: Option<i64>,
        query_text: &str,
        selected_deck_import_id: Option<i64>,
        created_at: &str,
    ) -> (res: SearchRecord)
        ensures
            res.id == old(self).id_counter.next,
            res.material_id == material_id,
            res.query_text@ == query_text@,
            res.selected_deck_import_id == selected_deck_import_id,
            res.status@ == "pending"@,
            !res.low_coverage,
            res.error is None,
            res.results@.len() == 0,
            res.cart@.len() == 0,
            res.created_at@ == created_at@,
            *final(self) == (Database {
                id_counter: IdCounter { next: id_after(old(self).id_counter.next, 1) },
                ..*old(self)
            }),
    {
        let id: i64 = self.next_id();
        SearchRecord {
            id,
            material_id,
            query_text: strings::copy(query_text),
            selected_deck_import_id,
            status: strings::copy("pending"),
            low_coverage: false,
            error: None,
            results: Vec::new(),
            cart: Vec::new(),
            created_at: strings::copy(created_at),
        }
    }

    /// A deck's record with a new status and error; the warning and the counts change only where
    /// they are given.
    pub fn update_deck_status(
        id: i64,
        found: Option<DeckRecord>,
        status: &str,
        warning: Option<&str>,
        error: Option<&str>,
        note_count: Option<i64>,
        card_count: Option<i64>,
    ) -> (res: Result<DeckRecord, StoreError>)
        ensures
            match (found, res) {
                (None, Err(e)) => e == StoreError::DeckNotFound(id),
                (Some(was), Ok(new)) => {
                    &&& new.status@ == status@
                    &&& opt_text(new.warning) == (if warning is Some {
                        opt_str(warning)
                    } else {
                        opt_text(was.warning)
                    })
                    &&& opt_text(new.error) == opt_str(error)
                    &&& new.note_count == (if let Some(n) = note_count {
                        n
                    } else {
                        was.note_count
                    })
                    &&& new.card_count == (if let Some(n) = card_count {
                        n
                    } else {
                        was.card_count
                    })
                    &&& new == (DeckRecord {
                        status: new.status,
                        warning: new.warning,
                        error: new.error,
                        note_count: new.note_count,
                        card_count: new.card_count,
                        ..was
                    })
                },
                _ => false,
            },
    {
        match found {
            None => Err(StoreError::DeckNotFound(id)),
            Some(record) => {
                let mut record = record;
                record.status = strings::copy(status);
                if warning.is_some() {
                    record.warning = copy_opt(warning);
                }
                record.error = copy_opt(error);
                if let Some(value) = note_count {
                    record.note_count = value;
                }
                if let Some(value) = card_count {
                    record.card_count = value;
                }
                Ok(record)
            },
        }
    }

    /// A deck's record once its cards are indexed.
    pub fn finish_deck(
        id: i64,
        found: Option<DeckRecord>,
        warning: Option<String>,
        note_count: i64,
        card_count: i64,
        models: Vec<DeckModel>,
        media: Vec<ImportedMedia>,
    ) -> (res: Result<DeckRecord, StoreError>)
        ensures
            match (found, res) {
                (None, Err(e)) => e == StoreError::DeckMissing(id),
                (Some(was), Ok(new)) => {
                    &&& new.status@ == "ready"@
                    &&& new == (DeckRecord {
                        status: new.status,
                        warning,
                        error: None,
                        note_count,
                        card_count,
                        models,
                        media,
                        ..was
                    })
                },
                _ => false,
            },
    {
        match found {
            None => Err(StoreError::DeckMissing(id)),
            Some(record) => {
                let mut record = record;
                record.status = strings::copy("ready");
                record.warning = warning;
                record.error = None;
                record.note_count = note_count;
                record.card_count = card_count;
                record.models = models;
                record.media = media;
                Ok(record)
            },
        }
    }

    /// A material's record with a new status and error; the text and the warning change only
    /// where they are given.
    pub fn update_material(
        id: i64,
        found: Option<MaterialRecord>,
        status: &str,
        source_text: Option<&str>,
        warning: Option<&str>,
        error: Option<&str>,
    ) -> (res: Result<MaterialRecord, StoreError>)
        ensures
            match (found, res) {
                (None, Err(e)) => e == StoreError::MaterialNotFound(id),
                (Some(was), Ok(new)) => {
                    &&& new.status@ == status@
                    &&& new.source_text@ == (if let Some(text) = source_text {
                        text@
                    } else {
                        was.source_text@
                    })
                    &&& opt_text(new.warning) == (if warning is Some {
                        opt_str(warning)
                    } else {
                        opt_text(was.warning)
                    })
                    &&& opt_text(new.error) == opt_str(error)
                    &&& new == (MaterialRecord {
                        status: new.status,
                        source_text: new.source_text,
                        warning: new.warning,
                        error: new.error,
                        ..was
                    })
                },
                _ => false,
            },
    {
        match found {
            None => Err(StoreError::MaterialNotFound(id)),
            Some(record) => {
                let mut record = record;
                record.status = strings::copy(status);
                if let Some(text) = source_text {
                    record.source_text = strings::copy(text);
                }
                if warning.is_some() {
                    record.warning = copy_opt(warning);
                }
                record.error = copy_opt(error);
                Ok(record)
            },
        }
    }

    /// A material's record once its text is extracted.
    pub fn finish_material(
        id: i64,
        found: Option<MaterialRecord>,
        warning: Option<String>,
        source_text: String,
        segments: Vec<MaterialSegment>,
    ) -> (res: Result<MaterialRecord, StoreError>)
        ensures
            match (found, res) {
                (None, Err(e)) => e == StoreError::MaterialNotFound(id),
                (Some(was), Ok(new)) => {
                    &&& new.status@ == "ready"@
                    &&& new == (MaterialRecord {
                        status: new.status,
                        warning,
                        error: None,
                        source_text,
                        segments,
                        ..was
                    })
                },
                _ => false,
            },
    {
        match found {
            None => Err(StoreError::MaterialNotFound(id)),
            Some(record) => {
                let mut record = record;
                record.status = strings::copy("ready");
                record.warning = warning;
                record.error = None;
                record.source_text = source_text;
                record.segments = segments;
                Ok(record)
            },
        }
    }

    /// A search's record with a new status, coverage and error.
    pub fn update_search_status(
        id: i64,
        found: Option<SearchRecord>,
        status: &str,
        low_coverage: bool,
        error: Option<&str>,
    ) -> (res: Result<SearchRecord, StoreError>)
        ensures
            match (found, res) {
                (None, Err(e)) => e == StoreError::SearchNotFound(id),
                (Some(was), Ok(new)) => {
                    &&& new.status@ == status@
                    &&& opt_text(new.error) == opt_str(error)
                    &&& new == (SearchRecord {
                        status: new.status,
                        low_coverage,
                        error: new.error,
                        ..was
                    })
                },
                _ => false,
            },
    {
        match found {
            None => Err(StoreError::SearchNotFound(id)),
            Some(record) => {
                let mut record = record;
                record.status = strings::copy(status);
                record.low_coverage = low_coverage;
                record.error = copy_opt(error);
                Ok(record)
            },
        }
    }

    /// A search's record with its results.
    pub fn save_search_results(
        id: i64,
        found: Option<SearchRecord>,
        results: Vec<GroupedResultRecord>,
        low_coverage: bool,
    ) -> (res: Result<SearchRecord, StoreError>)
        ensures
            match (found, res) {
                (None, Err(e)) => e == StoreError::SearchNotFound(id),
                (Some(was), Ok(new)) => {
                    &&& new.status@ == "ready"@
                    &&& new == (SearchRecord {
                        status: new.status,
                        results,
                        low_coverage,
                        error: None,
                        ..was
                    })
                },
                _ => false,
            },
    {
        match found {
            None => Err(StoreError::SearchNotFound(id)),
            Some(record) => {
                let mut record = record;
                record.status = strings::copy("ready");
                record.results = results;
                record.low_coverage = low_coverage;
                record.error = None;
                Ok(record)
            },
        }
    }
}

/// The instant that a stored time denotes, or `now` where it denotes none.
pub open spec fn instant(raw: Seq<char>, now: Timestamp) -> Timestamp {
    match rfc3339(raw) {
        Some((seconds, nanos)) => Timestamp { seconds, nanos },
        None => now,
    }
}

/// Reads a stored time; a text that is no time stands for `now`.
pub fn parse_timestamp(raw: &str, now: Timestamp) -> (res: Timestamp)
    ensures
        res == instant(raw@, now),
{
    match read_rfc3339(raw) {
        Some((seconds, nanos)) => Timestamp { seconds, nanos },
        None => now,
    }
}

/// What the pages show of a deck's record.
pub open spec fn deck_model(record: DeckRecord, now: Timestamp) -> DeckImport {
    DeckImport {
        id: record.id,
        filename: record.filename,
        status: record.status,
        warning: record.warning,
        error: record.error,
        storage_path: record.storage_path,
        note_count: record.note_count,
        card_count: record.card_count,
        created_at: instant(record.created_at@, now),
    }
}

/// What the pages show of a material's record.
pub open spec fn material_model(record: MaterialRecord, now: Timestamp) -> Material {
    Material {
        id: record.id,
        filename: record.filename,
        kind: record.kind,
        status: record.status,
        warning: record.warning,
        error: record.error,
        source_text: record.source_text,
        created_at: instant(record.created_at@, now),
    }
}

/// What the pages show of a search's record.
pub open spec fn search_model(record: SearchRecord, now: Timestamp) -> Search {
    Search {
        id: record.id,
        material_id: record.material_id,
        query_text: record.query_text,
        selected_deck_import_id: record.selected_deck_import_id,
        status: record.status,
        low_coverage: record.low_coverage,
        error: record.error,
        created_at: instant(record.created_at@, now),
    }
}

/// What the pages show of a card's record.
pub open spec fn card_model(record: CardRecord) -> ImportedCard {
    ImportedCard {
        id: record.card_id,
        import_id: record.import_id,
        note_id: record.original_note_id,
        original_card_id: record.original_card_id,
        original_deck_id: record.original_deck_id,
        deck_name: record.deck_name,
        ord: record.ord,
        card_text_clean: record.card_text_clean,
        note_hash: record.note_hash,
    }
}

pub fn deck_record_to_model(record: DeckRecord, now: Timestamp) -> (res: DeckImport)
    ensures
        res == deck_model(record, now),
{
    let created_at = parse_timestamp(record.created_at.as_str(), now);
    DeckImport {
        id: record.id,
        filename: record.filename,
        status: record.status,
        warning: record.warning,
        error: record.error,
        storage_path: record.storage_path,
        note_count: record.note_count,
        card_count: record.card_count,
        created_at,
    }
}

pub fn material_record_to_model(record: MaterialRecord, now: Timestamp) -> (res: Material)
    ensures
        res == material_model(record, now),
{
    let created_at = parse_timestamp(record.created_at.as_str(), now);
    Material {
        id: record.id,
        filename: record.filename,
        kind: record.kind,
        status: record.status,
        warning: record.warning,
        error: record.error,
        source_text: record.source_text,
        created_at,
    }
}

pub fn search_record_to_model(record: SearchRecord, now: Timestamp) -> (res: Search)
    ensures
        res == search_model(record, now),
{
    let created_at = parse_timestamp(record.created_at.as_str(), now);
    Search {
        id: record.id,
        material_id: record.material_id,
        query_text: record.query_text,
        selected_deck_import_id: record.selected_deck_import_id,
        status: record.status,
        low_coverage: record.low_coverage,
        error: record.error,
        created_at,
    }
}

pub fn card_record_to_model(record: CardRecord) -> (res: ImportedCard)
    ensures
        res == card_model(record),
{
    ImportedCard {
        id: record.card_id,
        import_id: record.import_id,
        note_id: record.original_note_id,
        original_card_id: record.original_card_id,
        original_deck_id: record.original_deck_id,
        deck_name: record.deck_name,
        ord: record.ord,
        card_text_clean: record.card_text_clean,
        note_hash: record.note_hash,
    }
}

/// Ranking by time of creation, the newest first.
pub struct Newest {}

/// Ranking by id, the smallest first.
pub struct SmallestId {}

/// Ranking by score, the greatest first.
pub struct HighestScore {}

impl RankBy<Newest> for DeckRecord {
    open spec fn may_precede(self, other: Self) -> bool {
        strings::text_le(other.created_at@, self.created_at@)
    }

    proof fn total(a: Self, b: Self) {
        strings::law_text_order_total(a.created_at@, b.created_at@);
    }

    proof fn transitive(a: Self, b: Self, c: Self) {
        strings::law_text_order_transitive(c.created_at@, b.created_at@, a.created_at@);
    }

    fn precedes(&self, other: &Self) -> (res: bool) {
        strings::is_le(other.created_at.as_str(), self.created_at.as_str())
    }
}

impl RankBy<Newest> for MaterialRecord {
    open spec fn may_precede(self, other: Self) -> bool {
        strings::text_le(other.created_at@, self.created_at@)
    }

    proof fn total(a: Self, b: Self) {
        strings::law_text_order_total(a.created_at@, b.created_at@);
    }

    proof fn transitive(a: Self, b: Self, c: Self) {
        strings::law_text_order_transitive(c.created_at@, b.created_at@, a.created_at@);
    }

    fn precedes(&self, other: &Self) -> (res: bool) {
        strings::is_le(other.created_at.as_str(), self.created_at.as_str())
    }
}

impl RankBy<Newest> for SearchRecord {
    open spec fn may_precede(self, other: Self) -> bool {
        strings::text_le(other.created_at@, self.created_at@)
    }

    proof fn total(a: Self, b: Self) {
        strings::law_text_order_total(a.created_at@, b.created_at@);
    }

    proof fn transitive(a: Self, b: Self, c: Self) {
        strings::law_text_order_transitive(c.created_at@, b.created_at@, a.created_at@);
    }

    fn precedes(&self, other: &Self) -> (res: bool) {
        strings::is_le(other.created_at.as_str(), self.created_at.as_str())
    }
}

impl RankBy<SmallestId> for CardRecord {
    open spec fn may_precede(self, other: Self) -> bool {
        self.card_id <= other.card_id
    }

    proof fn total(a: Self, b: Self) {
    }

    proof fn transitive(a: Self, b: Self, c: Self) {
    }

    fn precedes(&self, other: &Self) -> (res: bool) {
        self.card_id <= other.card_id
    }
}

impl RankBy<HighestScore> for (i64, ScoreKey) {
    open spec fn may_precede(self, other: Self) -> bool {
        self.1 >= other.1
    }

    proof fn total(a: Self, b: Self) {
    }

    proof fn transitive(a: Self, b: Self, c: Self) {
    }

    fn precedes(&self, other: &Self) -> (res: bool) {
        self.1 >= other.1
    }
}

/// The models of a list of decks.
pub open spec fn deck_models(records: Seq<DeckRecord>, now: Timestamp) -> Seq<DeckImport> {
    Seq::new(records.len(), |i: int| deck_model(records[i], now))
}

/// The models of a list of materials.
pub open spec fn material_models(records: Seq<MaterialRecord>, now: Timestamp) -> Seq<Material> {
    Seq::new(records.len(), |i: int| material_model(records[i], now))
}

/// The models of a list of searches.
pub open spec fn search_models(records: Seq<SearchRecord>, now: Timestamp) -> Seq<Search> {
    Seq::new(records.len(), |i: int| search_model(records[i], now))
}

/// The models of a list of cards.
pub open spec fn card_models(records: Seq<CardRecord>) -> Seq<ImportedCard> {
    Seq::new(records.len(), |i: int| card_model(records[i]))
}

fn to_card_models(records: Vec<CardRecord>) -> (res: Vec<ImportedCard>)
    ensures
        res@ == card_models(records@),
{
    let mut res: Vec<ImportedCard> = Vec::new();
    let ghost all = records@;
    for record in it: records
        invariant
            it.seq() == all,
            res@ == card_models(all.take(it.index() as int)),
    {
        let ghost n = it.index() as int;
        res.push(card_record_to_model(record));
        assert(res@ =~= card_models(all.take(n + 1)));
    }
    assert(all.take(all.len() as int) =~= all);
    res
}

/// The first of the records that a query found.
pub fn first_found<T>(items: Vec<T>) -> (res: Option<T>)
    ensures
        res == (if items@.len() > 0 {
            Some(items@[0])
        } else {
            None
        }),
{
    let mut items = items;
    if items.len() > 0 {
        Some(items.remove(0))
    } else {
        None
    }
}

impl Database {
    /// The query for the record with an id in one of the side collections.
    fn by_id(collection: &str, id: i64) -> (res: Query)
        ensures
            res.collection@ == collection@,
            res.filter matches Some(f) && f.must@ == seq![Condition { field: Field::Id, value: id }]
                && f.must_not@.len() == 0,
    {
        Query { collection: strings::copy(collection), filter: Some(with_field(Field::Id, id)) }
    }

    fn all_of(collection: &str) -> (res: Query)
        ensures
            res.collection@ == collection@,
            res.filter is None,
    {
        Query { collection: strings::copy(collection), filter: None }
    }

    fn of_cards(&self, filter: Filter) -> (res: Query)
        ensures
            res.collection == self.qdrant_collection,
            res.filter == Some(filter),
    {
        Query { collection: self.qdrant_collection.clone(), filter: Some(filter) }
    }

    /// The query for a deck's record.
    pub fn get_deck_record(id: i64) -> (res: Query)
        ensures
            res.collection@ == "decks"@,
            res.filter matches Some(f) && f.must@ == seq![Condition { field: Field::Id, value: id }]
                && f.must_not@.len() == 0,
    {
        Self::by_id("decks", id)
    }

    /// The query for a material's record.
    pub fn get_material_record(id: i64) -> (res: Query)
        ensures
            res.collection@ == "materials"@,
            res.filter matches Some(f) && f.must@ == seq![Condition { field: Field::Id, value: id }]
                && f.must_not@.len() == 0,
    {
        Self::by_id("materials", id)
    }

    /// The query for a search's record.
    pub fn get_search_record(id: i64) -> (res: Query)
        ensures
            res.collection@ == "searches"@,
            res.filter matches Some(f) && f.must@ == seq![Condition { field: Field::Id, value: id }]
                && f.must_not@.len() == 0,
    {
        Self::by_id("searches", id)
    }

    /// The query for every deck.
    pub fn all_decks() -> (res: Query)
        ensures
            res.collection@ == "decks"@,
            res.filter is None,
    {
        Self::all_of("decks")
    }

    /// The query for every material.
    pub fn all_materials() -> (res: Query)
        ensures
            res.collection@ == "materials"@,
            res.filter is None,
    {
        Self::all_of("materials")
    }

    /// The query for every search.
    pub fn all_searches() -> (res: Query)
        ensures
            res.collection@ == "searches"@,
            res.filter is None,
    {
        Self::all_of("searches")
    }

    /// The query for a card: its first chunk.
    pub fn get_card_record(&self, card_id: i64) -> (res: Query)
        ensures
            res.collection == self.qdrant_collection,
            res.filter matches Some(f) && (forall|card: CardRecord|
                #![trigger f.selects(card)]
                f.selects(card) <==> card.card_id == card_id && card.chunk_index == FIRST_CHUNK),
    {
        self.of_cards(first_chunks_with(Field::CardId, card_id))
    }

    /// The query for one chunk of a card.
    pub fn get_card_chunk(&self, point_id: i64) -> (res: Query)
        ensures
            res.collection == self.qdrant_collection,
            res.filter matches Some(f) && (forall|card: CardRecord|
                #![trigger f.selects(card)]
                f.selects(card) <==> card.point_id == point_id),
    {
        let filter = with_field(Field::PointId, point_id);
        assert forall|card: CardRecord| #![trigger filter.selects(card)] filter.selects(card) implies card.point_id
            == point_id by {
            assert(filter.must@[0].holds_of(card));
        }
        self.of_cards(filter)
    }

    /// The query for the cards of a deck, or of all decks.
    pub fn cards_of_deck(&self, deck_import_id: Option<i64>) -> (res: Query)
        ensures
            res.collection == self.qdrant_collection,
            res.filter matches Some(f) && (forall|card: CardRecord|
                #![trigger f.selects(card)]
                f.selects(card) <==> card.chunk_index == FIRST_CHUNK && (
                deck_import_id matches Some(id) ==> card.import_id == id)),
    {
        match deck_import_id {
            Some(id) => self.of_cards(first_chunks_with(Field::ImportId, id)),
            None => self.of_cards(first_chunks()),
        }
    }

    /// The card of a chunk, and the chunk's text.
    pub fn chunk_of(found: Option<CardRecord>) -> (res: Option<(i64, String)>)
        ensures
            res == (match found {
                Some(card) => Some((card.card_id, card.chunk_text)),
                None => None,
            }),
    {
        match found {
            Some(card) => Some((card.card_id, card.chunk_text)),
            None => None,
        }
    }

    /// The model of a card that was found.
    pub fn get_card_by_id(found: Option<CardRecord>) -> (res: Option<ImportedCard>)
        ensures
            res == (match found {
                Some(card) => Some(card_model(card)),
                None => None,
            }),
    {
        match found {
            Some(card) => Some(card_record_to_model(card)),
            None => None,
        }
    }

    /// The decks, the newest first.
    pub fn list_decks(records: Vec<DeckRecord>, now: Timestamp) -> (res: Vec<DeckImport>)
        ensures
            res@ == deck_models(order::ranked::<Newest, DeckRecord>(records@), now),
    {
        let records = order::rank::<Newest, DeckRecord>(records);
        let mut res: Vec<DeckImport> = Vec::new();
        let ghost all = records@;
        for record in it: records
            invariant
                it.seq() == all,
                res@ == deck_models(all.take(it.index() as int), now),
        {
            let ghost n = it.index() as int;
            res.push(deck_record_to_model(record, now));
            assert(res@ =~= deck_models(all.take(n + 1), now));
        }
        assert(all.take(all.len() as int) =~= all);
        res
    }

    /// The materials, the newest first.
    pub fn list_materials(records: Vec<MaterialRecord>, now: Timestamp) -> (res: Vec<Material>)
        ensures
            res@ == material_models(order::ranked::<Newest, MaterialRecord>(records@), now),
    {
        let records = order::rank::<Newest, MaterialRecord>(records);
        let mut res: Vec<Material> = Vec::new();
        let ghost all = records@;
        for record in it: records
            invariant
                it.seq() == all,
                res@ == material_models(all.take(it.index() as int), now),
        {
            let ghost n = it.index() as int;
            res.push(material_record_to_model(record, now));
            assert(res@ =~= material_models(all.take(n + 1), now));
        }
        assert(all.take(all.len() as int) =~= all);
        res
    }

    /// The searches, the newest first.
    pub fn list_searches(records: Vec<SearchRecord>, now: Timestamp) -> (res: Vec<Search>)
        ensures
            res@ == search_models(order::ranked::<Newest, SearchRecord>(records@), now),
    {
        let records = order::rank::<Newest, SearchRecord>(records);
        let mut res: Vec<Search> = Vec::new();
        let ghost all = records@;
        for record in it: records
            invariant
                it.seq() == all,
                res@ == search_models(all.take(it.index() as int), now),
        {
            let ghost n = it.index() as int;
            res.push(search_record_to_model(record, now));
            assert(res@ =~= search_models(all.take(n + 1), now));
        }
        assert(all.take(all.len() as int) =~= all);
        res
    }

    /// What the start page shows; a list that could not be had is shown empty.
    pub fn dashboard(
        decks: Option<Vec<DeckImport>>,
        materials: Option<Vec<Material>>,
        searches: Option<Vec<Search>>,
    ) -> (res: DashboardData)
        ensures
            decks matches Some(d) ==> res.decks == d,
            decks is None ==> res.decks@.len() == 0,
            materials matches Some(m) ==> res.materials == m,
            materials is None ==> res.materials@.len() == 0,
            searches matches Some(s) ==> res.searches == s,
            searches is None ==> res.searches@.len() == 0,
    {
        DashboardData {
            decks: match decks {
                Some(d) => d,
                None => Vec::new(),
            },
            materials: match materials {
                Some(m) => m,
                None => Vec::new(),
            },
            searches: match searches {
                Some(s) => s,
                None => Vec::new(),
            },
        }
    }

    /// The first `limit` cards of a deck by id.
    pub fn get_cards_for_deck(cards: Vec<CardRecord>, limit: usize) -> (res: Vec<ImportedCard>)
        ensures
            res@ == card_models(
                order::first_n(order::ranked::<SmallestId, CardRecord>(cards@), limit as nat),
            ),
    {
        let cards = order::cut(order::rank::<SmallestId, CardRecord>(cards), limit);
        to_card_models(cards)
    }
}

} // verus!
