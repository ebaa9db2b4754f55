use std::io::Cursor;

use shiori::db::IdCounter;
use shiori::deck::{
    collection_name, embed_card_points, embed_inputs, import_cards, ingest_deck, number_models,
    parse_name_map, prepare_note, prepare_notes, read_media_map, read_models, CardRow,
    ImportError, NoteRow,
};
use shiori::export::{
    build_deck, content_disposition, export_file_name, export_search, note_texts, ExportCard,
};
use shiori::media::index_media;
use shiori::models::ImportedCard;

const MODELS: &str = r#"{"7":{"name":"Basic","css":".card {}"},"9":{"css":5}}"#;
const DECKS: &str = r#"{"1":{"name":"Default"},"x":{"name":"Odd"},"2":{"noname":1}}"#;

fn note(id: i64, fields: &str) -> NoteRow {
    NoteRow {
        id,
        guid: format!("g{id}"),
        model_id: 7,
        tags: "  a b ".to_string(),
        fields: fields.to_string(),
    }
}

fn card_row(id: i64, note_id: i64, deck_id: i64) -> CardRow {
    CardRow { id, note_id, deck_id, ord: 1 }
}

#[test]
fn newer_collections_come_first() {
    assert_eq!(collection_name(true, true).unwrap(), "collection.anki21");
    assert_eq!(collection_name(false, true).unwrap(), "collection.anki2");
    assert_eq!(
        collection_name(false, false).unwrap_err().message(),
        "APKG missing collection.anki21/collection.anki2"
    );
}

#[test]
fn deck_names_are_read() {
    assert_eq!(parse_name_map(DECKS).unwrap(), vec![(1, "Default".to_string())]);
    assert!(parse_name_map("[]").unwrap().is_empty());
    assert!(matches!(parse_name_map("{").unwrap_err(), ImportError::Json(_)));
}

#[test]
fn models_are_read_and_numbered() {
    let entries = read_models(MODELS).unwrap();
    assert_eq!(entries.len(), 2);
    let mut ids = IdCounter { next: 40 };
    let models = number_models(3, entries, &mut ids);
    assert_eq!((models[0].id, models[0].import_id, models[0].original_model_id), (40, 3, 7));
    assert_eq!((models[0].name.as_str(), models[0].css.as_str()), ("Basic", ".card {}"));
    assert_eq!((models[1].name.as_str(), models[1].css.as_str()), ("Unknown model", ""));
    assert_eq!(models[1].model_json, "{\"css\":5}");
    assert_eq!(ids.next, 42);
    let error = read_models("{\"x\":{}}").unwrap_err();
    assert_eq!(error.message(), "invalid digit found in string");
    assert!(matches!(read_models("nonsense").unwrap_err(), ImportError::Json(_)));
}

#[test]
fn notes_are_prepared() {
    let prepared = prepare_note(&note(5, "<p>one</p>\u{1f} two  words ")).unwrap();
    assert_eq!((prepared.id, prepared.guid.as_str(), prepared.tags.as_str()), (5, "g5", "a b"));
    assert_eq!(prepared.fields_json, "[\"one\",\"two words\"]");
    assert_eq!(prepared.fields_joined, "one | two words");
    assert_eq!(ImportError::Unrenderable.message(), "note cannot be laid out as text");
    assert_eq!(ImportError::Fields.message(), "note fields cannot be written");
}

#[test]
fn cards_are_chunked_and_numbered() {
    let words = (0..500).map(|i| format!("w{i}")).collect::<Vec<_>>().join(" ");
    let notes = prepare_notes(&vec![note(5, &words), note(6, "short")]).unwrap();
    let mut ids = IdCounter { next: 10 };
    let rows = vec![card_row(50, 5, 1), card_row(51, 99, 1), card_row(52, 6, 2)];
    let cards = import_cards(3, &notes, &vec![(1, "Default".to_string())], &rows, &mut ids);
    assert_eq!(cards.card_count, 2);
    let points = cards.points.iter().map(|(c, _)| (c.card_id, c.point_id, c.chunk_index)).collect::<Vec<_>>();
    assert_eq!(points, vec![(10, 11, 0), (10, 12, 1), (13, 14, 0)]);
    assert_eq!(ids.next, 15);
    let (first, passage) = &cards.points[0];
    assert_eq!(first.deck_name, "Default");
    assert!(passage.starts_with("passage: w0 w1 "));
    assert_eq!(cards.points[2].0.deck_name, "Imported deck");
    assert_eq!(first.note_hash, shiori::text::hash_text("g5:1"));
    assert_eq!(cards.points[2].1, "passage: short");
}

#[test]
fn imported_ids_are_unique() {
    let mut ids = IdCounter { next: 100 };
    let rows = (0..20).map(|i| card_row(i, i % 3, 1)).collect::<Vec<_>>();
    let notes = vec![note(0, "zero"), note(1, "one"), note(2, "")];
    let deck = ingest_deck(3, MODELS, DECKS, &notes, &rows, &mut ids).unwrap();
    let mut seen = deck.models.iter().map(|m| m.id).collect::<Vec<_>>();
    for (record, _) in &deck.cards.points {
        seen.push(record.point_id);
    }
    seen.sort();
    let count = seen.len();
    seen.dedup();
    assert_eq!(seen.len(), count);
    assert_eq!(deck.notes.len(), 3);
    assert_eq!(deck.cards.card_count, 20);
}

#[test]
fn the_first_fault_stops_an_import() {
    let mut ids = IdCounter { next: 1 };
    let none: Vec<NoteRow> = Vec::new();
    let no_cards: Vec<CardRow> = Vec::new();
    let error = |models: &str, decks: &str| {
        let mut ids = IdCounter { next: 1 };
        ingest_deck(3, models, decks, &Vec::new(), &Vec::new(), &mut ids).err().unwrap().message()
    };
    assert_eq!(error("{", DECKS), serde_json_error("{"));
    assert_eq!(error("{\"x\":{}}", "["), serde_json_error("["));
    assert_eq!(error("{\"x\":{}}", DECKS), "invalid digit found in string");
    assert!(ingest_deck(3, MODELS, DECKS, &none, &no_cards, &mut ids).is_ok());
    assert_eq!(ids.next, 3);
}

fn serde_json_error(text: &str) -> String {
    serde_json::from_str::<serde_json::Value>(text).unwrap_err().to_string()
}

#[test]
fn media_maps_are_read() {
    assert_eq!(
        read_media_map("{\"1\":\"b.png\",\"0\":\"a.mp3\"}").unwrap(),
        vec![("0".to_string(), "a.mp3".to_string()), ("1".to_string(), "b.png".to_string())]
    );
    assert!(matches!(read_media_map("{\"1\":2}").unwrap_err(), ImportError::Json(_)));
}

#[test]
fn media_files_are_recorded() {
    let entries = read_media_map("{\"0\":\"a.mp3\",\"1\":\"sub\\\\b.png\",\"2\":\"c.png\"}").unwrap();
    let mut ids = IdCounter { next: 40 };
    let media =
        index_media(7, "decks/7/media", &entries, &vec![true, true, false], &mut ids).unwrap();
    let told = media
        .iter()
        .map(|m| (m.id, m.import_id, m.media_name.as_str(), m.extracted_path.as_str()))
        .collect::<Vec<_>>();
    assert_eq!(
        told,
        vec![
            (40, 7, "a.mp3", "decks/7/media/a.mp3"),
            (41, 7, "sub\\b.png", "decks/7/media/sub/b.png"),
        ]
    );
    assert_eq!(ids.next, 42);
    let refuse = |archive: &str, name: &str, present: bool| {
        let mut ids = IdCounter { next: 40 };
        let entries = vec![
            ("0".to_string(), "a.mp3".to_string()),
            (archive.to_string(), name.to_string()),
        ];
        let res = index_media(7, "m", &entries, &vec![true, present], &mut ids);
        (res.map(|media| media.len()).map_err(|error| error.message()), ids.next)
    };
    let unsafe_path = || Err("unsafe relative path: ../x".to_string());
    assert_eq!(refuse("../x", "b", true), (unsafe_path(), 40));
    assert_eq!(refuse("../x", "b", false), (unsafe_path(), 40));
    assert_eq!(refuse("1", "../x", true), (unsafe_path(), 40));
    assert_eq!(refuse("1", "../x", false), (Ok(1), 41));
    assert_eq!(refuse("1", ".", true), (Err("empty relative path".to_string()), 40));
}

#[test]
fn points_get_vectors_or_stand_ins() {
    let notes = prepare_notes(&vec![note(5, "short")]).unwrap();
    let points = || {
        let mut ids = IdCounter { next: 10 };
        import_cards(3, &notes, &Vec::new(), &vec![card_row(50, 5, 1)], &mut ids).points
    };
    assert_eq!(embed_inputs(&points()), vec!["passage: short".to_string()]);
    let (dense, warning) = embed_card_points(Ok(vec!["v"]), vec!["zero"], points());
    assert_eq!((dense[0].vector, dense[0].point_id, warning), ("v", 11, None));
    let (plain, warning) = embed_card_points(Err("down".to_string()), vec!["zero"], points());
    assert_eq!(plain[0].vector, "zero");
    assert_eq!(
        warning,
        Some("Dense indexing unavailable, stored lexical-only records: down".to_string())
    );
    let (none, warning) = embed_card_points(Err("down".to_string()), vec!["zero"], Vec::new());
    assert!(none.is_empty());
    assert_eq!(warning, None);
}

fn export_card(id: i64, fields_json: &str) -> ExportCard {
    ExportCard {
        card: ImportedCard {
            id,
            import_id: 1,
            note_id: 2,
            original_card_id: 77,
            original_deck_id: 3,
            deck_name: "Deck".to_string(),
            ord: 0,
            card_text_clean: "clean".to_string(),
            note_hash: "h".to_string(),
        },
        fields_json: fields_json.to_string(),
        fields_joined: "joined".to_string(),
        deck_name: "Deck".to_string(),
    }
}

#[test]
fn exported_notes_show_their_fields() {
    let card = export_card(1, "[]");
    let fields = vec![" ".to_string(), "one".to_string(), "two".to_string()];
    assert_eq!(
        note_texts(&card, &fields),
        vec!["one".to_string(), " <br><br>one<br><br>two".to_string(), "Deck / card 77".to_string()]
    );
    assert_eq!(
        note_texts(&card, &Vec::new()),
        vec!["clean".to_string(), "joined".to_string(), "Deck / card 77".to_string()]
    );
    assert_eq!(
        note_texts(&card, &vec!["only".to_string()])[..2],
        ["only".to_string(), "joined".to_string()]
    );
}

#[test]
fn cards_are_exported_once() {
    let cards = vec![
        export_card(1, "[\"a\"]"),
        export_card(2, "[\"b\"]"),
        export_card(1, "[\"c\"]"),
    ];
    let (_, rows, cards) = package_rows(export_search(5, &cards));
    let fronts = rows
        .iter()
        .map(|(fields, _)| fields.split('\u{1f}').next().unwrap().to_string())
        .collect::<Vec<_>>();
    assert_eq!(fronts, vec!["a".to_string(), "b".to_string()]);
    assert_eq!(cards, 2);
}

fn package_rows(deck: genanki_rs::Deck) -> (String, Vec<(String, i64)>, i64) {
    let mut bytes: Vec<u8> = Vec::new();
    let mut package = genanki_rs::Package::new(vec![deck], vec![]).unwrap();
    package.write(Cursor::new(&mut bytes)).unwrap();
    let mut archive = zip::ZipArchive::new(Cursor::new(bytes)).unwrap();
    let dir = tempfile::tempdir().unwrap();
    let path = dir.path().join("collection.anki2");
    let mut out = std::io::BufWriter::new(tempfile::NamedTempFile::new_in(dir.path()).unwrap());
    std::io::copy(&mut archive.by_name("collection.anki2").unwrap(), &mut out).unwrap();
    let file = out.into_inner().unwrap();
    file.persist(&path).unwrap();
    let conn = rusqlite::Connection::open(&path).unwrap();
    let decks: String = conn.query_row("SELECT decks FROM col", [], |row| row.get(0)).unwrap();
    let mut statement = conn.prepare("SELECT flds, mid FROM notes ORDER BY id").unwrap();
    let rows = statement
        .query_map([], |row| Ok((row.get(0)?, row.get(1)?)))
        .unwrap()
        .map(|row| row.unwrap())
        .collect::<Vec<(String, i64)>>();
    let cards: i64 = conn.query_row("SELECT count(*) FROM cards", [], |row| row.get(0)).unwrap();
    (decks, rows, cards)
}

#[test]
fn searches_are_exported_as_decks() {
    let deck = export_search(5, &vec![export_card(1, "[\"a\",\"b\"]"), export_card(2, "oops")]);
    let (decks, rows, cards) = package_rows(deck);
    assert!(decks.contains("\"name\":\"Shiori Search 5\""));
    assert!(decks.contains("\"desc\":\"Generated from selected search matches\""));
    assert!(decks.contains("2147000005"));
    assert_eq!(
        rows,
        vec![
            ("a\u{1f}a<br><br>b\u{1f}Deck / card 77".to_string(), 1_600_000_005),
            ("clean\u{1f}joined\u{1f}Deck / card 77".to_string(), 1_600_000_005),
        ]
    );
    assert_eq!(cards, 2);
    assert_eq!(export_file_name(5), "search-5.apkg");
    assert_eq!(content_disposition("x.apkg"), "attachment; filename=\"x.apkg\"");
}

#[test]
fn the_example_deck_has_four_notes() {
    let (decks, rows, cards) = package_rows(build_deck());
    assert!(decks.contains("Shiori IMCI Fixture"));
    assert_eq!(rows.len(), 4);
    assert_eq!(cards, 4);
    assert_eq!(
        rows[0],
        ("What does IMCI stand for?\u{1f}Integrated Management of Child Health.".to_string(), 1_700_000_101)
    );
}
