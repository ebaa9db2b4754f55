use shiori::db::{
    dense_filter, first_chunks, first_found, parse_timestamp, Condition, Database, Field,
    IdCounter, StoreError,
};
use shiori::detail::{has_stable_id, stable_id};
use shiori::lexical::tokenize;
use shiori::models::{
    CardRecord, DeckRecord, GroupedResultRecord, ImportedMedia, MaterialRecord, MaterialSegment,
    SearchRecord, Timestamp,
};
use shiori::scroll::{scroll_collection, Page, ScrollStep};

const NOW: Timestamp = Timestamp { seconds: 1_700_000_000, nanos: 5 };

fn store() -> Database {
    Database::new(100, "cards".to_string(), 8)
}

fn deck(id: i64, created_at: &str) -> DeckRecord {
    DeckRecord {
        id,
        filename: format!("{id}.apkg"),
        status: "pending".to_string(),
        warning: Some("old".to_string()),
        error: Some("old".to_string()),
        storage_path: "p".to_string(),
        note_count: 1,
        card_count: 2,
        models: Vec::new(),
        media: Vec::new(),
        created_at: created_at.to_string(),
    }
}

fn material(id: i64) -> MaterialRecord {
    MaterialRecord {
        id,
        filename: "m.pdf".to_string(),
        kind: "pdf".to_string(),
        status: "pending".to_string(),
        warning: None,
        error: None,
        source_text: "s".to_string(),
        segments: vec![MaterialSegment {
            id: 0,
            material_id: 0,
            ordinal: 0,
            label: "Page 1".to_string(),
            text: "s".to_string(),
        }],
        created_at: "2024-01-02T03:04:05Z".to_string(),
    }
}

fn result(search_id: i64, card_id: i64) -> GroupedResultRecord {
    GroupedResultRecord {
        search_id,
        card_id,
        rerank_score: 7,
        fused_score: 6,
        chunk_hits: 2,
        lexical_bonus: 1,
        best_snippet: "snip".to_string(),
        matched_labels: vec!["A \"q\"".to_string(), "B".to_string()],
    }
}

fn search(id: i64, results: Vec<GroupedResultRecord>, cart: Vec<i64>) -> SearchRecord {
    SearchRecord {
        id,
        material_id: None,
        query_text: "q".to_string(),
        selected_deck_import_id: None,
        status: "pending".to_string(),
        low_coverage: false,
        error: Some("old".to_string()),
        results,
        cart,
        created_at: "2024-01-02T03:04:05+02:00".to_string(),
    }
}

fn card(card_id: i64, text: &str) -> CardRecord {
    CardRecord {
        point_id: card_id * 10,
        import_id: 1,
        card_id,
        original_note_id: 50,
        original_card_id: 60,
        original_deck_id: 70,
        original_model_id: 80,
        deck_name: "Deck".to_string(),
        guid: "g".to_string(),
        ord: 0,
        chunk_index: 0,
        note_hash: "h".to_string(),
        card_text_clean: text.to_string(),
        fields_json: "[\"f\"]".to_string(),
        fields_joined: "joined".to_string(),
        tags: "tag".to_string(),
        chunk_text: text.to_string(),
    }
}

#[test]
fn ids_count_up_and_wrap() {
    let mut ids = IdCounter { next: i64::MAX };
    assert_eq!(ids.next_id(), i64::MAX);
    assert_eq!(ids.next_id(), i64::MIN);
    let mut db = store();
    assert_eq!(db.next_id(), 100);
    assert_eq!(db.next_id(), 101);
}

#[test]
fn the_store_has_four_collections() {
    let specs = store().init();
    let names = specs.iter().map(|s| (s.name.as_str(), s.vector_size)).collect::<Vec<_>>();
    assert_eq!(names, vec![("decks", 1), ("materials", 1), ("searches", 1), ("cards", 8)]);
}

#[test]
fn new_records_are_pending() {
    let mut db = store();
    let deck = db.create_deck_import("a.apkg", "/tmp/a", "t");
    assert_eq!((deck.id, deck.status.as_str(), deck.note_count), (100, "pending", 0));
    assert_eq!(deck.storage_path, "/tmp/a");
    let material = db.create_material("m", "pdf", "t");
    assert_eq!((material.id, material.kind.as_str()), (101, "pdf"));
    assert!(material.segments.is_empty());
    let search = db.create_search(Some(5), "q", None, "t");
    assert_eq!((search.id, search.material_id), (102, Some(5)));
    assert!(search.cart.is_empty() && search.results.is_empty() && !search.low_coverage);
}

#[test]
fn deck_status_changes() {
    let failed = Database::update_deck_status(1, Some(deck(1, "t")), "failed", None, Some("bad"), None, Some(9)).unwrap();
    assert_eq!(failed.status, "failed");
    assert_eq!(failed.warning, Some("old".to_string()));
    assert_eq!(failed.error, Some("bad".to_string()));
    assert_eq!((failed.note_count, failed.card_count), (1, 9));
    let cleared = Database::update_deck_status(1, Some(deck(1, "t")), "x", Some("w"), None, None, None).unwrap();
    assert_eq!(cleared.error, None);
    assert_eq!(cleared.warning, Some("w".to_string()));
    let missing = Database::update_deck_status(1, None, "x", None, None, None, None).unwrap_err();
    assert_eq!(missing.message(), "deck 1 not found");
}

#[test]
fn imported_decks_are_ready() {
    let media = vec![ImportedMedia {
        id: 5,
        import_id: 1,
        media_name: "a.mp3".to_string(),
        extracted_path: "m/a.mp3".to_string(),
    }];
    let done = Database::finish_deck(1, Some(deck(1, "t")), None, 3, 4, Vec::new(), media).unwrap();
    assert_eq!(done.media[0].media_name, "a.mp3");
    assert_eq!((done.status.as_str(), done.note_count, done.card_count), ("ready", 3, 4));
    assert_eq!((done.warning, done.error), (None, None));
    let missing = Database::finish_deck(1, None, None, 0, 0, Vec::new(), Vec::new()).unwrap_err();
    assert_eq!(missing, StoreError::DeckMissing(1));
    assert_eq!(missing.message(), "deck 1 missing");
}

#[test]
fn material_status_changes() {
    let ready = Database::update_material(2, Some(material(2)), "ready", Some("text"), None, None).unwrap();
    assert_eq!((ready.status.as_str(), ready.source_text.as_str()), ("ready", "text"));
    let failed = Database::update_material(2, Some(material(2)), "failed", None, None, Some("e")).unwrap();
    assert_eq!((failed.source_text.as_str(), failed.error.as_deref()), ("s", Some("e")));
    assert_eq!(
        Database::update_material(2, None, "x", None, None, None).unwrap_err().message(),
        "material 2 not found"
    );
    let done = Database::finish_material(2, Some(material(2)), Some("w".to_string()), "t".to_string(), Vec::new()).unwrap();
    assert_eq!((done.status.as_str(), done.source_text.as_str()), ("ready", "t"));
    assert!(done.segments.is_empty());
    assert!(Database::finish_material(2, None, None, String::new(), Vec::new()).is_err());
}

#[test]
fn search_status_changes() {
    let failed = Database::update_search_status(3, Some(search(3, Vec::new(), Vec::new())), "failed", true, Some("e")).unwrap();
    assert_eq!((failed.status.as_str(), failed.low_coverage), ("failed", true));
    assert_eq!(failed.error, Some("e".to_string()));
    let saved = Database::save_search_results(3, Some(search(3, Vec::new(), vec![1])), vec![result(3, 1)], true).unwrap();
    assert_eq!((saved.status.as_str(), saved.low_coverage, saved.results.len()), ("ready", true, 1));
    assert_eq!((saved.error, saved.cart), (None, vec![1]));
    assert_eq!(
        Database::save_search_results(3, None, Vec::new(), true).unwrap_err().message(),
        "search 3 not found"
    );
    assert!(Database::update_search_status(3, None, "x", false, None).is_err());
}

#[test]
fn carts_hold_each_card_once() {
    let with = Database::upsert_cart_item(3, Some(search(3, Vec::new(), vec![5, 6, 5])), 7, true).unwrap();
    assert_eq!(with.cart, vec![5, 6, 7]);
    let again = Database::upsert_cart_item(3, Some(with), 6, true).unwrap();
    let without = Database::upsert_cart_item(3, Some(again), 5, false).unwrap();
    assert!(!without.cart.contains(&5));
    assert!(without.cart.contains(&6) && without.cart.contains(&7));
    assert!(Database::upsert_cart_item(3, None, 5, true).is_err());
}

#[test]
fn putting_in_and_taking_out_leaves_the_cart() {
    let before = search(3, Vec::new(), vec![5, 6]);
    let with = Database::upsert_cart_item(3, Some(before), 7, true).unwrap();
    let after = Database::upsert_cart_item(3, Some(with), 7, false).unwrap();
    assert_eq!(after.cart, vec![5, 6]);
}

#[test]
fn selected_cards_are_those_of_the_cart() {
    let cards = vec![card(1, "a"), card(2, "b"), card(3, "c")];
    let picked = Database::get_selected_cards(3, Some(search(3, Vec::new(), vec![3, 1])), cards).unwrap();
    assert_eq!(picked.iter().map(|c| c.id).collect::<Vec<_>>(), vec![1, 3]);
    assert_eq!(picked[0].note_id, 50);
    assert!(Database::get_selected_cards(3, None, Vec::new()).is_err());
}

#[test]
fn note_fields_come_from_the_card() {
    let (json, joined, name) = Database::get_note_fields_for_card(1, Some(card(1, "a"))).unwrap();
    assert_eq!((json.as_str(), joined.as_str(), name.as_str()), ("[\"f\"]", "joined", "Deck"));
    assert_eq!(
        Database::get_note_fields_for_card(1, None).unwrap_err().message(),
        "card 1 not found"
    );
}

#[test]
fn queries_ask_for_what_is_wanted() {
    let by_id = Database::get_search_record(4);
    assert_eq!(by_id.collection, "searches");
    assert_eq!(by_id.filter.unwrap().must, vec![Condition { field: Field::Id, value: 4 }]);
    assert!(Database::all_decks().filter.is_none());
    assert_eq!(Database::get_deck_record(1).collection, "decks");
    assert_eq!(Database::get_material_record(1).collection, "materials");
    let cards = store().get_card_record(6);
    assert_eq!(cards.collection, "cards");
    assert_eq!(
        cards.filter.unwrap().must,
        vec![
            Condition { field: Field::CardId, value: 6 },
            Condition { field: Field::ChunkIndex, value: 0 },
        ]
    );
    let near = dense_filter(Some(9));
    assert_eq!(near.must, vec![Condition { field: Field::ImportId, value: 9 }]);
    assert_eq!(near.must_not, vec![Condition { field: Field::ChunkIndex, value: -1 }]);
    assert!(dense_filter(None).must.is_empty());
    assert_eq!(first_chunks().must.len(), 1);
    assert_eq!(Field::ImportId.key(), "import_id");
    assert_eq!(first_found(vec![1, 2]), Some(1));
    assert_eq!(first_found(Vec::<i64>::new()), None);
}

#[test]
fn timestamps_are_read_with_their_offset() {
    let utc = parse_timestamp("2024-01-02T03:04:05.5Z", NOW);
    assert_eq!((utc.seconds, utc.nanos), (1_704_164_645, 500_000_000));
    let east = parse_timestamp("2024-01-02T03:04:05+02:00", NOW);
    assert_eq!(east.seconds, 1_704_164_645 - 7200);
    assert_eq!(parse_timestamp("yesterday", NOW), NOW);
}

#[test]
fn newer_decks_come_first() {
    let decks = Database::list_decks(
        vec![deck(1, "2024-01-01T00:00:00Z"), deck(2, "2024-03-01T00:00:00Z"), deck(3, "2024-01-01T00:00:00Z")],
        NOW,
    );
    assert_eq!(decks.iter().map(|d| d.id).collect::<Vec<_>>(), vec![2, 1, 3]);
    let data = Database::dashboard(Some(decks), None, None);
    assert_eq!(data.decks.len(), 3);
    assert!(data.materials.is_empty() && data.searches.is_empty());
}

#[test]
fn decks_show_their_first_cards() {
    let cards = (0..30).rev().map(|i| card(i, "t")).collect::<Vec<_>>();
    let detail = Database::get_deck_detail(Some(deck(1, "t")), cards, NOW).unwrap();
    assert_eq!(detail.sample_cards.len(), 25);
    assert_eq!(detail.sample_cards[0].id, 0);
    assert_eq!(detail.deck.created_at, NOW);
    assert!(Database::get_deck_detail(None, Vec::new(), NOW).is_none());
}

#[test]
fn materials_show_their_segments() {
    let detail = Database::get_material_detail(Some(material(2)), NOW).unwrap();
    assert_eq!(detail.segments.len(), 1);
    assert_eq!(detail.material.id, 2);
    assert!(Database::get_material(None, NOW).is_none());
    assert_eq!(Database::list_materials(vec![material(2)], NOW).len(), 1);
}

#[test]
fn searches_show_results_and_cart() {
    let mut record = search(3, vec![result(3, 1), result(3, 9), result(3, 2)], vec![2, 8]);
    record.material_id = Some(2);
    let detail = Database::get_search_detail(
        Some(record),
        Some(material(2)),
        vec![card(1, "one"), card(2, "two"), card(8, "eight")],
        vec![deck(1, "t")],
        NOW,
    )
    .unwrap();
    assert_eq!(detail.results.iter().map(|r| r.card_id).collect::<Vec<_>>(), vec![1, 2]);
    assert!(!detail.results[0].in_cart);
    assert!(detail.results[1].in_cart);
    assert_eq!(detail.results[0].id, 3 * 1_000_003 + 1);
    assert_eq!(detail.results[0].matched_labels_json, "[\"A \\\"q\\\"\",\"B\"]");
    assert_eq!(detail.results[0].matched_labels_text, "A \"q\", B");
    assert_eq!(detail.results[1].card_text_clean, "two");
    assert_eq!(detail.cart.iter().map(|r| r.card_id).collect::<Vec<_>>(), vec![2]);
    assert!(!detail.cart[0].in_cart);
    assert_eq!(detail.cart_card_ids, vec![2, 8]);
    assert_eq!(detail.available_decks.len(), 1);
    assert!(detail.material.is_some());
    assert!(Database::get_search_detail(None, None, Vec::new(), Vec::new(), NOW).is_none());
}

#[test]
fn result_ids_are_stable() {
    assert_eq!(stable_id(2, 5), 2_000_011);
    assert_eq!(stable_id(-2, 5), 2_000_001);
    assert!(has_stable_id(2, 5));
    assert!(!has_stable_id(0, i64::MIN));
    assert_eq!(stable_id(i64::MAX, 0), i64::MAX.wrapping_mul(1_000_003).abs());
}

#[test]
fn lexical_hits_hold_terms() {
    assert_eq!(tokenize("Ab c1 d"), vec!["ab".to_string(), "c1".to_string()]);
    assert!(store().lexical_query("a ?", None).is_none());
    let query = store().lexical_query("Red DECK", Some(1)).unwrap();
    assert_eq!(query.terms, vec!["red".to_string(), "deck".to_string()]);
    let mut plain = card(3, "blue");
    plain.deck_name = "Other".to_string();
    let overlaps = Database::lexical_overlaps(&vec![card(1, "Red"), card(2, "blue"), plain], &query.terms);
    assert_eq!(overlaps, vec![(1, 2), (2, 1)]);
    let best = Database::lexical_search(vec![(1, 5), (2, 9), (3, 5)], 2);
    assert_eq!(best, vec![(2, 9), (1, 5)]);
}

#[test]
fn pages_follow_one_another() {
    let first: Page<i64, i64> = Page { items: vec![1, 2], next: Some(7) };
    let items = match scroll_collection(Vec::new(), Ok(first)) {
        ScrollStep::Fetch(items, offset) => {
            assert_eq!(offset, 7);
            items
        }
        _ => panic!("there is another page"),
    };
    let last: Page<i64, i64> = Page { items: vec![3], next: None };
    match scroll_collection(items, Ok(last)) {
        ScrollStep::Done(items) => assert_eq!(items, vec![1, 2, 3]),
        _ => panic!("there is no other page"),
    }
    let broken: Result<Page<i64, i64>, String> = Err("down".to_string());
    match scroll_collection(vec![1], broken) {
        ScrollStep::Failed(reason) => assert_eq!(reason, "down"),
        _ => panic!("the page is missing"),
    }
}

#[test]
fn cards_are_found_by_chunk() {
    let query = store().get_card_chunk(30);
    assert_eq!(query.filter.unwrap().must, vec![Condition { field: Field::PointId, value: 30 }]);
    assert_eq!(Database::chunk_of(Some(card(3, "t"))), Some((3, "t".to_string())));
    assert_eq!(Database::chunk_of(None), None);
    assert_eq!(Database::get_card_by_id(Some(card(3, "t"))).unwrap().id, 3);
    assert!(Database::get_card_by_id(None).is_none());
    assert_eq!(Database::get_cards_for_deck(vec![card(3, "t"), card(2, "t")], 1)[0].id, 2);
}

#[test]
fn searches_are_listed() {
    let found = Database::get_search(Some(search(3, Vec::new(), Vec::new())), NOW).unwrap();
    assert_eq!((found.id, found.created_at.seconds), (3, 1_704_164_645 - 7200));
    assert!(Database::get_search(None, NOW).is_none());
    let listed = Database::list_searches(vec![search(1, Vec::new(), Vec::new())], NOW);
    assert_eq!(listed.len(), 1);
    assert_eq!(Database::all_searches().collection, "searches");
    assert_eq!(Database::all_materials().collection, "materials");
}
