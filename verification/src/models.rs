//! The records that the store keeps and the models that the pages show.

use vstd::prelude::*;

verus! {

/// A score by its rank among all scores: a greater key is a greater score.
pub type ScoreKey = i32;

/// An instant: whole seconds since the Unix epoch, and nanoseconds beyond them.
#[derive(Debug, Clone, Copy, PartialEq, Eq, Structural)]
pub struct Timestamp {
    pub seconds: i64,
    pub nanos: u32,
}

#[derive(Debug, Clone)]
pub struct DashboardData {
    pub decks: Vec<DeckImport>,
    pub materials: Vec<Material>,
    pub searches: Vec<Search>,
}

#[derive(Debug, Clone)]
pub struct DeckImport {
    pub id: i64,
    pub filename: String,
    pub status: String,
    pub warning: Option<String>,
    pub error: Option<String>,
    pub storage_path: String,
    pub note_count: i64,
    pub card_count: i64,
    pub created_at: Timestamp,
}

#[derive(Debug, Clone)]
pub struct DeckModel {
    pub id: i64,
    pub import_id: i64,
    pub original_model_id: i64,
    pub name: String,
    pub css: String,
    pub model_json: String,
}

#[derive(Debug, Clone)]
pub struct ImportedNote {
    pub id: i64,
    pub import_id: i64,
    pub original_note_id: i64,
    pub original_model_id: i64,
    pub guid: String,
    pub tags: String,
    pub fields_json: String,
    pub fields_joined: String,
    pub sort_field: String,
    pub checksum: i64,
}

#[derive(Debug, Clone)]
pub struct ImportedCard {
    pub id: i64,
    pub import_id: i64,
    pub note_id: i64,
    pub original_card_id: i64,
    pub original_deck_id: i64,
    pub deck_name: String,
    pub ord: i64,
    pub card_text_clean: String,
    pub note_hash: String,
}

#[derive(Debug, Clone)]
pub struct ImportedMedia {
    pub id: i64,
    pub import_id: i64,
    pub media_name: String,
    pub extracted_path: String,
}

#[derive(Debug, Clone)]
pub struct Material {
    pub id: i64,
    pub filename: String,
    pub kind: String,
    pub status: String,
    pub warning: Option<String>,
    pub error: Option<String>,
    pub source_text: String,
    pub created_at: Timestamp,
}

#[derive(Debug, Clone)]
pub struct MaterialSegment {
    pub id: i64,
    pub material_id: i64,
    pub ordinal: i64,
    pub label: String,
    pub text: String,
}

/// What a segment of a material says.
#[verifier::ext_equal]
pub struct SegmentView {
    pub id: i64,
    pub material_id: i64,
    pub ordinal: i64,
    pub label: Seq<char>,
    pub text: Seq<char>,
}

impl View for MaterialSegment {
    type V = SegmentView;

    open spec fn view(&self) -> SegmentView {
        SegmentView {
            id: self.id,
            material_id: self.material_id,
            ordinal: self.ordinal,
            label: self.label@,
            text: self.text@,
        }
    }
}

#[derive(Debug, Clone)]
pub struct Search {
    pub id: i64,
    pub material_id: Option<i64>,
    pub query_text: String,
    pub selected_deck_import_id: Option<i64>,
    pub status: String,
    pub low_coverage: bool,
    pub error: Option<String>,
    pub created_at: Timestamp,
}

#[derive(Debug, Clone)]
pub struct SearchQueryChunk {
    pub id: i64,
    pub search_id: i64,
    pub chunk_index: i64,
    pub text: String,
}

#[derive(Debug, Clone)]
pub struct SearchHit {
    pub card_id: i64,
    pub query_chunk_id: i64,
    pub source: String,
    pub score: ScoreKey,
    pub snippet: String,
    pub matched_labels_json: String,
}

#[derive(Debug, Clone)]
pub struct GroupedResult {
    pub id: i64,
    pub search_id: i64,
    pub card_id: i64,
    pub rerank_score: ScoreKey,
    pub fused_score: ScoreKey,
    pub chunk_hits: i64,
    pub lexical_bonus: i64,
    pub best_snippet: String,
    pub matched_labels_json: String,
    pub matched_labels_text: String,
    pub deck_name: String,
    pub card_text_clean: String,
    pub in_cart: bool,
}

#[derive(Debug, Clone)]
pub struct DeckDetail {
    pub deck: DeckImport,
    pub models: Vec<DeckModel>,
    pub sample_cards: Vec<ImportedCard>,
}

#[derive(Debug, Clone)]
pub struct MaterialDetail {
    pub material: Material,
    pub segments: Vec<MaterialSegment>,
}

#[derive(Debug, Clone)]
pub struct SearchDetail {
    pub search: Search,
    pub material: Option<Material>,
    pub results: Vec<GroupedResult>,
    pub cart: Vec<GroupedResult>,
    pub cart_card_ids: Vec<i64>,
    pub available_decks: Vec<DeckImport>,
}

#[derive(Debug, Clone)]
pub struct DeckRecord {
    pub id: i64,
    pub filename: String,
    pub status: String,
    pub warning: Option<String>,
    pub error: Option<String>,
    pub storage_path: String,
    pub note_count: i64,
    pub card_count: i64,
    pub models: Vec<DeckModel>,
    pub media: Vec<ImportedMedia>,
    pub created_at: String,
}

#[derive(Debug, Clone)]
pub struct CardRecord {
    pub point_id: i64,
    pub import_id: i64,
    pub card_id: i64,
    pub original_note_id: i64,
    pub original_card_id: i64,
    pub original_deck_id: i64,
    pub original_model_id: i64,
    pub deck_name: String,
    pub guid: String,
    pub ord: i64,
    pub chunk_index: i64,
    pub note_hash: String,
    pub card_text_clean: String,
    pub fields_json: String,
    pub fields_joined: String,
    pub tags: String,
    pub chunk_text: String,
}

/// What a card's record says.
#[verifier::ext_equal]
pub struct CardView {
    pub point_id: i64,
    pub import_id: i64,
    pub card_id: i64,
    pub original_note_id: i64,
    pub original_card_id: i64,
    pub original_deck_id: i64,
    pub original_model_id: i64,
    pub deck_name: Seq<char>,
    pub guid: Seq<char>,
    pub ord: i64,
    pub chunk_index: i64,
    pub note_hash: Seq<char>,
    pub card_text_clean: Seq<char>,
    pub fields_json: Seq<char>,
    pub fields_joined: Seq<char>,
    pub tags: Seq<char>,
    pub chunk_text: Seq<char>,
}

impl View for CardRecord {
    type V = CardView;

    open spec fn view(&self) -> CardView {
        CardView {
            point_id: self.point_id,
            import_id: self.import_id,
            card_id: self.card_id,
            original_note_id: self.original_note_id,
            original_card_id: self.original_card_id,
            original_deck_id: self.original_deck_id,
            original_model_id: self.original_model_id,
            deck_name: self.deck_name@,
            guid: self.guid@,
            ord: self.ord,
            chunk_index: self.chunk_index,
            note_hash: self.note_hash@,
            card_text_clean: self.card_text_clean@,
            fields_json: self.fields_json@,
            fields_joined: self.fields_joined@,
            tags: self.tags@,
            chunk_text: self.chunk_text@,
        }
    }
}

#[derive(Debug, Clone)]
pub struct MaterialRecord {
    pub id: i64,
    pub filename: String,
    pub kind: String,
    pub status: String,
    pub warning: Option<String>,
    pub error: Option<String>,
    pub source_text: String,
    pub segments: Vec<MaterialSegment>,
    pub created_at: String,
}

#[derive(Debug, Clone)]
pub struct SearchRecord {
    pub id: i64,
    pub material_id: Option<i64>,
    pub query_text: String,
    pub selected_deck_import_id: Option<i64>,
    pub status: String,
    pub low_coverage: bool,
    pub error: Option<String>,
    pub results: Vec<GroupedResultRecord>,
    pub cart: Vec<i64>,
    pub created_at: String,
}

#[derive(Debug, Clone)]
pub struct GroupedResultRecord {
    pub search_id: i64,
    pub card_id: i64,
    pub rerank_score: ScoreKey,
    pub fused_score: ScoreKey,
    pub chunk_hits: i64,
    pub lexical_bonus: i64,
    pub best_snippet: String,
    pub matched_labels: Vec<String>,
}

/// A card chunk with the vector under which it is indexed.
#[derive(Debug, Clone)]
pub struct DenseCardPoint<V> {
    pub point_id: i64,
    pub vector: V,
    pub payload: CardRecord,
}

} // verus!
