use shiori::models::{MaterialRecord, MaterialSegment};
use shiori::query::{
    build_material_query_chunks, build_rerank_query, build_sampled_document_chunks,
    build_text_query_chunks, count_informative, count_letters, is_informative,
    is_informative_text, query_chunk, query_embed_inputs, sample_evenly, split_document,
    split_text_query, take_piece, tokenize_query, truncate_for_rerank,
};

fn words(prefix: &str, n: usize) -> String {
    (0..n).map(|i| format!("{prefix}{i}")).collect::<Vec<_>>().join(" ")
}

fn segment(label: &str, text: &str) -> MaterialSegment {
    MaterialSegment {
        id: 0,
        material_id: 0,
        ordinal: 0,
        label: label.to_string(),
        text: text.to_string(),
    }
}

fn material(source_text: &str, segments: Vec<MaterialSegment>) -> MaterialRecord {
    MaterialRecord {
        id: 1,
        filename: "m".to_string(),
        kind: "pdf".to_string(),
        status: "ready".to_string(),
        warning: None,
        error: None,
        source_text: source_text.to_string(),
        segments,
        created_at: String::new(),
    }
}

#[test]
fn query_terms_have_three_bytes() {
    assert_eq!(
        tokenize_query("The OS of a Büro, ü1"),
        vec!["the".to_string(), "büro".to_string(), "ü1".to_string()]
    );
}

#[test]
fn informative_words_hold_letters() {
    assert_eq!(count_informative("word 1234 a1b2 abc ärz", 4), 3);
    assert_eq!(count_letters("a1 ß-Z"), 3);
    assert!(is_informative("aaaa bbbb cccc dddd eeee ffff gggg hhhh"));
    assert!(!is_informative("aaaa bbbb cccc dddd eeee ffff gggg hhh"));
    assert_eq!(is_informative_text("<p>aaaa bbbb cccc dddd</p><p>eeee ffff gggg hhhh</p>"), Some(true));
    assert_eq!(is_informative_text(""), Some(false));
}

#[test]
fn samples_are_spread_evenly() {
    let items = (0..10).map(|i| i.to_string()).collect::<Vec<_>>();
    assert_eq!(
        sample_evenly(items.clone(), 3),
        vec!["0".to_string(), "4".to_string(), "9".to_string()]
    );
    assert_eq!(sample_evenly(items.clone(), 1), items);
    assert_eq!(sample_evenly(items.clone(), 0), items);
    assert_eq!(sample_evenly(items.clone(), 10), items);
    let same = vec!["x".to_string(); 10];
    assert_eq!(sample_evenly(same, 3), vec!["x".to_string()]);
}

#[test]
fn samples_are_no_more_than_asked_for() {
    for n in 2..40 {
        let items = (0..n).map(|i| i.to_string()).collect::<Vec<_>>();
        for max in 2..10 {
            let sampled = sample_evenly(items.clone(), max);
            assert!(sampled.len() <= max);
            assert_eq!(sampled[0], "0");
            assert_eq!(sampled[sampled.len() - 1], (n - 1).to_string());
        }
    }
}

#[test]
fn text_queries_are_cut_into_chunks() {
    let chunks = split_text_query(words("word", 200));
    assert_eq!(chunks.len(), 2);
    assert_eq!(chunks[0].label, "Query chunk 1");
    assert_eq!(chunks[1].label, "Query chunk 2");
    assert!(chunks[1].text.starts_with("word100 "));
    assert_eq!(chunks[0].terms[0], "word0");
}

#[test]
fn short_queries_are_one_chunk() {
    let chunks = split_text_query("red reflex".to_string());
    assert_eq!(chunks.len(), 1);
    assert_eq!(chunks[0].label, "Query chunk 1");
    assert_eq!(chunks[0].text, "red reflex");
    assert_eq!(chunks[0].terms, vec!["red".to_string(), "reflex".to_string()]);
    assert!(split_text_query(String::new()).is_empty());
}

#[test]
fn repeated_chunks_are_looked_for_once() {
    let text = vec!["repeated"; 1000].join(" ");
    let chunks = split_text_query(text);
    assert_eq!(chunks.len(), 2);
    assert_eq!(chunks[1].label, "Query chunk 10");
}

#[test]
fn queries_have_at_most_twenty_four_chunks() {
    let chunks = split_text_query(words("word", 5000));
    assert_eq!(chunks.len(), 24);
    for i in 0..chunks.len() {
        for j in 0..i {
            assert!(chunks[i].text != chunks[j].text);
        }
    }
}

#[test]
fn text_queries_lose_their_markup() {
    let chunks = build_text_query_chunks("<p>red</p><p>reflex</p>").unwrap();
    assert_eq!(chunks.len(), 1);
    assert_eq!(chunks[0].text, "red reflex");
}

#[test]
fn documents_are_sampled() {
    let plain = words("word", 2000);
    assert_eq!(split_document(&plain, 12).len(), 12);
    let chunks = build_sampled_document_chunks(&plain, 12).unwrap();
    assert_eq!(chunks.len(), 12);
    assert_eq!(chunks[0].label, "Document section 1");
    assert_eq!(chunks[11].label, "Document section 12");
}

#[test]
fn poor_documents_are_text_queries() {
    let chunks = build_sampled_document_chunks("a b c", 12).unwrap();
    assert_eq!(chunks.len(), 1);
    assert_eq!(chunks[0].label, "Query chunk 1");
    assert_eq!(chunks[0].text, "a b c");
    assert!(build_sampled_document_chunks("", 12).unwrap().is_empty());
}

#[test]
fn pieces_that_say_too_little_are_left_out() {
    let none = take_piece(Vec::new(), "l".to_string(), "p".to_string(), "too short");
    assert!(none.is_empty());
    let some = take_piece(
        none,
        "l".to_string(),
        "p".to_string(),
        "aaaa bbbb cccc dddd eeee ffff gggg hhhh",
    );
    assert_eq!(some.len(), 1);
    assert_eq!(some[0].label, "l");
    assert_eq!(some[0].text, "p");
}

#[test]
fn segments_are_labelled_by_part() {
    let chunks = build_material_query_chunks(&material(
        "whole",
        vec![segment("Page 1", &words("alpha", 150)), segment("Page 2", "  "), segment("Page 3", &words("beta", 20))],
    ))
    .unwrap();
    let labels = chunks.iter().map(|c| c.label.as_str()).collect::<Vec<_>>();
    assert_eq!(labels, vec!["Page 1", "Page 1 part 2", "Page 3"]);
}

#[test]
fn materials_have_at_most_twenty_four_chunks() {
    let segments = (0..40).map(|i| segment(&format!("Page {}", i + 1), &words(&format!("topic{i}x"), 300))).collect();
    let chunks = build_material_query_chunks(&material("whole", segments)).unwrap();
    assert_eq!(chunks.len(), 24);
}

#[test]
fn materials_without_telling_segments_are_text_queries() {
    let chunks = build_material_query_chunks(&material(
        "red reflex",
        vec![segment("Page 1", "red"), segment("Page 2", "reflex")],
    ))
    .unwrap();
    assert_eq!(chunks.len(), 1);
    assert_eq!(chunks[0].text, "red reflex");
    let single = build_material_query_chunks(&material(&words("gamma", 30), vec![segment("Page 1", "x")])).unwrap();
    assert_eq!(single[0].label, "Document section 1");
}

#[test]
fn rerank_queries_summarise_the_chunks() {
    assert_eq!(build_rerank_query("whole text", &Vec::new()), "whole text");
    let chunks = vec![
        query_chunk("A".to_string(), "one".to_string()),
        query_chunk("B".to_string(), "x".repeat(700)),
    ];
    assert_eq!(
        build_rerank_query("whole", &chunks),
        format!("A: one\n\nB: {}", "x".repeat(600))
    );
    let many = (0..10).map(|i| query_chunk(format!("L{i}"), "t".repeat(600))).collect::<Vec<_>>();
    let summary = build_rerank_query("whole", &many);
    assert_eq!(summary.chars().count(), 4000);
    assert!(!summary.contains("L8"));
    assert_eq!(build_rerank_query(&"q".repeat(5000), &Vec::new()).len(), 4000);
}

#[test]
fn chunks_are_embedded_as_queries() {
    let chunks = vec![query_chunk("A".to_string(), "one".to_string())];
    assert_eq!(query_embed_inputs(&chunks), vec!["query: one".to_string()]);
    assert_eq!(truncate_for_rerank("äbc", 2), "äb");
}
