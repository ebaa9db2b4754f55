use shiori::candidates::{
    candidate_ranks, collapse, collapse_redundant_candidates, dense_hit, gather_candidates,
    is_better, is_telling, is_useful_candidate, keep_useful, lexical_hit, push_match_label,
    score_plain, score_query_overlap, score_snippet, select_better_snippet, shortlist, take_hit,
    take_hits, with_fused, Candidate, ChunkHits,
};
use shiori::external::{dense_search, qdrant_id_to_i64, DenseHit, IdValue, QdrantPoint};
use shiori::models::{CardRecord, MaterialRecord, SearchRecord};
use shiori::query::query_chunk;
use shiori::search::{
    apply_scores, finish_search, rerank_request, run_search, start_search, Answer, Ask,
    RerankRequest, SearchError, SearchRun,
};

fn card(card_id: i64, note_id: i64, text: &str) -> CardRecord {
    CardRecord {
        point_id: card_id * 10,
        import_id: 1,
        card_id,
        original_note_id: note_id,
        original_card_id: card_id,
        original_deck_id: 1,
        original_model_id: 1,
        deck_name: "Deck".to_string(),
        guid: "g".to_string(),
        ord: 0,
        chunk_index: 0,
        note_hash: "h".to_string(),
        card_text_clean: text.to_string(),
        fields_json: "[]".to_string(),
        fields_joined: text.to_string(),
        tags: String::new(),
        chunk_text: text.to_string(),
    }
}

fn candidate(card_id: i64, note_id: i64, text: &str) -> Candidate {
    Candidate {
        key: card_id,
        card: card(card_id, note_id, text),
        ranks: vec![0],
        fused_score: 0,
        rerank_score: 0,
        lexical_bonus: 1,
        best_snippet: text.to_string(),
        matched_labels: Vec::new(),
        best_query_text: "q".to_string(),
        best_query_overlap: 0,
    }
}

fn ids(candidates: &[Candidate]) -> Vec<i64> {
    candidates.iter().map(|c| c.card.card_id).collect()
}

fn search_record(material_id: Option<i64>, query_text: &str) -> SearchRecord {
    SearchRecord {
        id: 9,
        material_id,
        query_text: query_text.to_string(),
        selected_deck_import_id: Some(4),
        status: "pending".to_string(),
        low_coverage: false,
        error: None,
        results: Vec::new(),
        cart: Vec::new(),
        created_at: String::new(),
    }
}

#[test]
fn labels_are_sorted_and_few() {
    let mut labels: Vec<String> = Vec::new();
    for label in ["d", "b", "b", "f", "a", "c", "e"] {
        push_match_label(&mut labels, label);
    }
    assert_eq!(labels, ["a", "b", "c", "d", "e", "f"].map(String::from).to_vec());
    push_match_label(&mut labels, "0");
    push_match_label(&mut labels, "c");
    assert_eq!(labels, ["a", "b", "c", "d", "e", "f"].map(String::from).to_vec());
}

#[test]
fn snippets_are_scored() {
    let terms = vec!["red".to_string(), "reflex".to_string(), "Red".to_string()];
    assert_eq!(score_plain("the red reflex", "the red reflex", &terms), (2, 1, 14));
    assert_eq!(score_query_overlap("<p>red</p>", &terms), Some(1));
    assert_eq!(score_snippet("<p>the red reflex</p>", &terms), Some((2, 1, 14)));
    assert!(is_better((2, 0, 0), (1, 9, 9)));
    assert!(is_better((1, 2, 0), (1, 1, 9)));
    assert!(is_better((1, 1, 2), (1, 1, 1)));
    assert!(!is_better((1, 1, 1), (1, 1, 1)));
}

#[test]
fn the_better_snippet_is_kept() {
    let terms = vec!["red".to_string()];
    assert_eq!(select_better_snippet("blue", "red", &terms), Some("red".to_string()));
    assert_eq!(select_better_snippet("red a", "red b", &terms), Some("red a".to_string()));
    assert_eq!(select_better_snippet("red", "red reflex", &terms), Some("red reflex".to_string()));
}

#[test]
fn hits_for_one_card_are_gathered() {
    let chunk = query_chunk("A".to_string(), "red reflex".to_string());
    let first = take_hit(Vec::new(), &chunk, 2, lexical_hit(7, 5, card(7, 1, "the red reflex"))).unwrap();
    assert_eq!(first.len(), 1);
    assert_eq!(first[0].ranks, vec![2]);
    assert_eq!(first[0].lexical_bonus, 1);
    assert_eq!(first[0].rerank_score, 5);
    assert_eq!(first[0].best_query_overlap, 2);
    assert_eq!(first[0].matched_labels, vec!["A".to_string()]);
    let chunk_b = query_chunk("B".to_string(), "reflex".to_string());
    let hit = dense_hit(9, "reflex".to_string(), card(7, 1, "the red reflex"));
    let second = take_hit(first, &chunk_b, 0, hit).unwrap();
    assert_eq!(second.len(), 1);
    assert_eq!(second[0].ranks, vec![2, 0]);
    assert_eq!(second[0].lexical_bonus, 1);
    assert_eq!(second[0].rerank_score, 9);
    assert_eq!(second[0].best_query_text, "red reflex");
    assert_eq!(second[0].best_snippet, "the red reflex");
    assert_eq!(second[0].matched_labels, vec!["A".to_string(), "B".to_string()]);
    assert_eq!(candidate_ranks(&second), vec![vec![2, 0]]);
}

#[test]
fn places_without_a_card_count_for_nothing() {
    let chunk = query_chunk("A".to_string(), "red".to_string());
    let hits = vec![None, Some(lexical_hit(7, 5, card(7, 1, "red")))];
    let found = take_hits(Vec::new(), &chunk, hits).unwrap();
    assert_eq!(found.len(), 1);
    assert_eq!(found[0].ranks, vec![1]);
}

#[test]
fn no_card_is_a_candidate_twice() {
    let found = gather_candidates(vec![
        ChunkHits {
            chunk: query_chunk("A".to_string(), "red".to_string()),
            lexical: vec![Some(lexical_hit(1, 1, card(1, 1, "red"))), Some(lexical_hit(2, 1, card(2, 2, "red two")))],
            dense: vec![Some(dense_hit(3, "red".to_string(), card(2, 2, "red two")))],
        },
        ChunkHits {
            chunk: query_chunk("B".to_string(), "two".to_string()),
            lexical: vec![Some(lexical_hit(2, 8, card(2, 2, "red two")))],
            dense: vec![],
        },
    ])
    .unwrap();
    assert_eq!(ids(&found), vec![1, 2]);
    assert_eq!(found[1].ranks, vec![1, 0, 0]);
    assert_eq!(found[1].lexical_bonus, 2);
    assert_eq!(found[1].rerank_score, 8);
}

#[test]
fn telling_cards_are_useful() {
    assert!(is_telling("aaa bbb ccc ddd eee fff"));
    assert!(!is_telling("aaa bbb ccc ddd eee ff"));
    assert!(is_telling(&"a".repeat(40)));
    assert!(!is_telling(&"a".repeat(39)));
    let mut poor = candidate(1, 1, "x");
    assert_eq!(is_useful_candidate(&poor), Some(true));
    poor.lexical_bonus = 0;
    assert_eq!(is_useful_candidate(&poor), Some(false));
    let kept = keep_useful(vec![poor, candidate(2, 2, "y")]).unwrap();
    assert_eq!(ids(&kept), vec![2]);
}

#[test]
fn repeated_notes_and_texts_collapse() {
    let all = vec![
        candidate(1, 1, "one"),
        candidate(2, 1, "other"),
        candidate(3, 2, "<p>one</p>"),
        candidate(4, 2, "four"),
        candidate(5, 3, "five"),
    ];
    let said = ["one", "other", "one", "four", "five"].map(String::from).to_vec();
    assert_eq!(ids(&collapse(all.clone(), said)), vec![1, 5]);
    let kept = collapse_redundant_candidates(all).unwrap();
    assert_eq!(ids(&kept), vec![1, 5]);
}

#[test]
fn the_short_list_is_ordered_and_cut() {
    let mut all = Vec::new();
    for i in 0..120 {
        all.push(candidate(i, i, &format!("card number {i}")));
    }
    let scores = (0..120).collect::<Vec<i32>>();
    let short = shortlist(with_fused(all, &scores)).unwrap();
    assert_eq!(short.len(), 100);
    assert_eq!(short[0].card.card_id, 119);
    assert_eq!(short[99].card.card_id, 20);
}

#[test]
fn strategies_ask_for_different_rankings() {
    let mut one = candidate(1, 1, "snippet");
    one.best_query_text = "q".repeat(1500);
    let all = vec![one];
    match rerank_request("SUMMARY", "rq".to_string(), &all) {
        RerankRequest::Summary(query, texts) => {
            assert_eq!(query, "rq");
            assert_eq!(texts, vec!["snippet".to_string()]);
        }
        _ => panic!("the summary is asked for"),
    }
    match rerank_request("best_chunk", "rq".to_string(), &all) {
        RerankRequest::Pairs(queries, texts) => {
            assert_eq!(queries, vec!["q".repeat(1000)]);
            assert_eq!(texts, vec!["snippet".to_string()]);
        }
        _ => panic!("pairs are asked for"),
    }
}

#[test]
fn rankings_decide_the_order() {
    let all = vec![candidate(1, 1, "a"), candidate(2, 2, "b"), candidate(3, 3, "c")];
    let scored = apply_scores(all.clone(), &vec![(1, 5), (9, 7), (1, 6), (2, 6)]);
    assert_eq!(scored[1].rerank_score, 6);
    let (results, low) = finish_search(9, all.clone(), Some(vec![(2, 6), (1, 7)]));
    assert_eq!(results.iter().map(|r| r.card_id).collect::<Vec<_>>(), vec![2, 3, 1]);
    assert!(results.iter().all(|r| r.search_id == 9));
    assert!(!low);
    let (unranked, _) = finish_search(9, all, None);
    assert_eq!(unranked.iter().map(|r| r.card_id).collect::<Vec<_>>(), vec![1, 2, 3]);
    assert!(finish_search(9, vec![candidate(1, 1, "a")], None).1);
}

#[test]
fn ties_are_broken_by_hits() {
    let mut many = candidate(2, 2, "b");
    many.ranks = vec![0, 1];
    many.lexical_bonus = 0;
    let mut few = candidate(3, 3, "c");
    few.lexical_bonus = 0;
    let (results, _) = finish_search(1, vec![few, candidate(1, 1, "a"), many], None);
    assert_eq!(results.iter().map(|r| r.card_id).collect::<Vec<_>>(), vec![2, 1, 3]);
    assert_eq!(results[0].chunk_hits, 2);
    assert_eq!(results[1].lexical_bonus, 1);
}

#[test]
fn ids_of_the_index_are_read() {
    assert_eq!(qdrant_id_to_i64(&IdValue::Int(5)), Some(5));
    assert_eq!(qdrant_id_to_i64(&IdValue::Text("-5".to_string())), Some(-5));
    assert_eq!(qdrant_id_to_i64(&IdValue::Text("x".to_string())), None);
    assert_eq!(qdrant_id_to_i64(&IdValue::Other), None);
}

#[test]
fn points_become_hits() {
    let point = |id, card_id, chunk_text| QdrantPoint { id, score: 3, card_id, chunk_text };
    let hits = dense_search(vec![
        point(Some(1), Some(IdValue::Int(7)), Some("t".to_string())),
        point(None, Some(IdValue::Int(8)), None),
        point(Some(2), None, None),
        point(Some(3), Some(IdValue::Text("9".to_string())), None),
    ]);
    assert_eq!(hits.len(), 2);
    assert_eq!((hits[0].point_id, hits[0].card_id, hits[0].score), (1, 7, 3));
    assert_eq!(hits[0].snippet, "t");
    assert_eq!(hits[1].card_id, 9);
    assert_eq!(hits[1].snippet, "");
}

fn step(run: SearchRun, answer: Answer) -> (SearchRun, Ask) {
    run_search(run, "best_chunk", answer)
}

#[test]
fn a_text_search_runs_to_its_end() {
    let (run, ask) = start_search(9);
    assert!(matches!(ask, Ask::Search(9)));
    let (run, ask) = step(run, Answer::Search(Ok(Some(search_record(None, "red reflex")))));
    match ask {
        Ask::Embed(inputs) => assert_eq!(inputs, vec!["query: red reflex".to_string()]),
        _ => panic!("vectors are asked for"),
    }
    let (run, ask) = step(run, Answer::Embedded(Ok(1)));
    match ask {
        Ask::Lexical(text, deck, limit) => {
            assert_eq!(text, "red reflex");
            assert_eq!(deck, Some(4));
            assert_eq!(limit, 20);
        }
        _ => panic!("hits by terms are asked for"),
    }
    let (run, ask) = step(run, Answer::Lexical(Ok(vec![(7, 5), (8, 4)])));
    assert!(matches!(ask, Ask::Card(7)));
    let (run, ask) = step(run, Answer::Card(Ok(Some(card(7, 1, "the red reflex")))));
    assert!(matches!(ask, Ask::Card(8)));
    let (run, ask) = step(run, Answer::Card(Ok(None)));
    assert!(matches!(ask, Ask::Dense(0, Some(4), 40)));
    let hit = DenseHit { point_id: 1, card_id: 7, score: 6, snippet: "red".to_string() };
    let (run, ask) = step(run, Answer::Dense(Ok(vec![hit])));
    assert!(matches!(ask, Ask::Card(7)));
    let (run, ask) = step(run, Answer::Card(Ok(Some(card(7, 1, "the red reflex")))));
    match ask {
        Ask::Fuse(ranks) => assert_eq!(ranks, vec![vec![0, 0]]),
        _ => panic!("scores from places are asked for"),
    }
    let (run, ask) = step(run, Answer::Fused(vec![11]));
    match ask {
        Ask::Rerank(RerankRequest::Pairs(queries, texts)) => {
            assert_eq!(queries, vec!["red reflex".to_string()]);
            assert_eq!(texts, vec!["the red reflex".to_string()]);
        }
        _ => panic!("a ranking is asked for"),
    }
    let (run, ask) = step(run, Answer::Reranked(Ok(vec![(0, 8)])));
    match ask {
        Ask::Save(id, results, low) => {
            assert_eq!(id, 9);
            assert!(low);
            assert_eq!(results.len(), 1);
            assert_eq!(results[0].card_id, 7);
            assert_eq!(results[0].rerank_score, 8);
            assert_eq!(results[0].fused_score, 11);
            assert_eq!(results[0].chunk_hits, 2);
            assert_eq!(results[0].lexical_bonus, 1);
            assert_eq!(results[0].matched_labels, vec!["Query chunk 1".to_string()]);
        }
        _ => panic!("results are handed over"),
    }
    let (_, ask) = step(run, Answer::Saved(Ok(())));
    assert!(matches!(ask, Ask::Finished));
}

#[test]
fn a_search_without_services_goes_by_terms() {
    let (run, _) = start_search(9);
    let (run, _) = step(run, Answer::Search(Ok(Some(search_record(None, "red reflex")))));
    let (run, ask) = step(run, Answer::Embedded(Err("down".to_string())));
    assert!(matches!(ask, Ask::Lexical(_, _, _)));
    let (run, ask) = step(run, Answer::Lexical(Err("down".to_string())));
    match ask {
        Ask::Fuse(ranks) => assert!(ranks.is_empty()),
        _ => panic!("nothing is asked of the index"),
    }
    let (run, _) = step(run, Answer::Fused(Vec::new()));
    let (_, ask) = step(run, Answer::Reranked(Err("down".to_string())));
    match ask {
        Ask::Save(9, results, true) => assert!(results.is_empty()),
        _ => panic!("empty results are handed over"),
    }
}

#[test]
fn results_by_terms_have_their_best_score() {
    let (run, _) = start_search(9);
    let (run, _) = step(run, Answer::Search(Ok(Some(search_record(None, "red reflex")))));
    let (run, _) = step(run, Answer::Embedded(Ok(0)));
    let (run, _) = step(run, Answer::Lexical(Ok(vec![(7, 5), (8, 4), (7, 6)])));
    let (run, _) = step(run, Answer::Card(Ok(Some(card(7, 1, "the red reflex")))));
    let (run, _) = step(run, Answer::Card(Ok(Some(card(8, 2, "a red coat")))));
    let (run, ask) = step(run, Answer::Card(Ok(Some(card(7, 1, "the red reflex")))));
    match ask {
        Ask::Fuse(ranks) => assert_eq!(ranks, vec![vec![0, 2], vec![1]]),
        _ => panic!("nothing is asked of the index"),
    }
    let (run, _) = step(run, Answer::Fused(vec![3, 2]));
    let (_, ask) = step(run, Answer::Reranked(Err("down".to_string())));
    match ask {
        Ask::Save(9, results, true) => {
            let told = results
                .iter()
                .map(|r| (r.card_id, r.rerank_score, r.chunk_hits, r.lexical_bonus))
                .collect::<Vec<_>>();
            assert_eq!(told, vec![(7, 6, 2, 2), (8, 4, 1, 1)]);
        }
        _ => panic!("results are handed over"),
    }
}

#[test]
fn a_material_is_searched_with() {
    let (run, _) = start_search(9);
    let (run, ask) = step(run, Answer::Search(Ok(Some(search_record(Some(3), "")))));
    assert!(matches!(ask, Ask::Material(3)));
    let material = MaterialRecord {
        id: 3,
        filename: "m".to_string(),
        kind: "text".to_string(),
        status: "ready".to_string(),
        warning: None,
        error: None,
        source_text: "red reflex".to_string(),
        segments: Vec::new(),
        created_at: String::new(),
    };
    let (_, ask) = step(run, Answer::Material(Ok(Some(material))));
    match ask {
        Ask::Embed(inputs) => assert_eq!(inputs, vec!["query: red reflex".to_string()]),
        _ => panic!("vectors are asked for"),
    }
}

fn failure(ask: Ask) -> String {
    match ask {
        Ask::Failed(error) => error.message(),
        _ => panic!("the search fails"),
    }
}

#[test]
fn searches_fail_where_records_are_missing() {
    let (run, _) = start_search(9);
    assert_eq!(failure(step(run, Answer::Search(Ok(None))).1), "search 9 not found");
    let (run, _) = start_search(9);
    assert_eq!(failure(step(run, Answer::Search(Err("no store".to_string()))).1), "no store");
    let (run, _) = start_search(9);
    let (run, _) = step(run, Answer::Search(Ok(Some(search_record(Some(3), "")))));
    assert_eq!(failure(step(run, Answer::Material(Ok(None))).1), "material 3 not found");
    let (run, _) = start_search(9);
    let (run, _) = step(run, Answer::Search(Ok(Some(search_record(Some(3), "")))));
    assert_eq!(failure(step(run, Answer::Material(Err("no store".to_string()))).1), "no store");
}

#[test]
fn searches_fail_where_the_store_fails() {
    let start = || {
        let (run, _) = start_search(9);
        let (run, _) = step(run, Answer::Search(Ok(Some(search_record(None, "red reflex")))));
        step(run, Answer::Embedded(Ok(1))).0
    };
    let (run, _) = step(start(), Answer::Lexical(Ok(vec![(7, 5)])));
    assert_eq!(failure(step(run, Answer::Card(Err("gone".to_string()))).1), "gone");
    let (run, ask) = step(start(), Answer::Lexical(Ok(Vec::new())));
    assert!(matches!(ask, Ask::Dense(0, _, _)));
    let (run, ask) = step(run, Answer::Dense(Err("down".to_string())));
    assert!(matches!(ask, Ask::Fuse(_)));
    let (run, _) = step(run, Answer::Fused(Vec::new()));
    let (run, _) = step(run, Answer::Reranked(Ok(Vec::new())));
    assert_eq!(failure(step(run, Answer::Saved(Err("full".to_string()))).1), "full");
}

#[test]
fn answers_out_of_turn_end_a_search() {
    let (run, _) = start_search(9);
    let (run, ask) = step(run, Answer::Fused(Vec::new()));
    assert_eq!(failure(ask), "answer out of turn");
    assert!(matches!(run, SearchRun::Over));
    assert_eq!(SearchError::Unrenderable.message(), "text cannot be laid out");
}
