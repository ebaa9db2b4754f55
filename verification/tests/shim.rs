use std::collections::HashMap;

use shiori::rerank::{
    rerank, start_rerank, start_rerank_pairs, RerankAnswer, RerankAsk, RerankRun, RerankSettings,
};
use shiori::shim::{
    adapt_all, adapt_prompt_prefix, batches, build_llm_rerank_prompt, optional_env, rank_items,
    rerank_pairs, take_scores, top_indices, truncate_chars, PairInputs, RerankItem,
    LENGTH_MISMATCH, RERANK_INSTRUCTIONS, SCORE_ONE,
};

#[test]
fn maps_query_prefix_to_nomic_format() {
    assert_eq!(
        adapt_prompt_prefix("query: nephron physiology", false, false),
        "search_query: nephron physiology"
    );
    assert_eq!(
        adapt_prompt_prefix("passage: renal tubule transport", false, false),
        "search_document: renal tubule transport"
    );
}

#[test]
fn builds_llm_rerank_prompt_with_indices() {
    let prompt = build_llm_rerank_prompt(
        "ophthalmology basics",
        &vec!["red reflex".into(), "neonatal sepsis".into()],
        &vec![0, 1],
    );
    assert!(prompt.contains("[0] red reflex"));
    assert!(prompt.contains("[1] neonatal sepsis"));
}

#[test]
fn prompts_are_written_out() {
    let prompt = build_llm_rerank_prompt(" q ", &vec!["a".into(), " b ".into()], &vec![1]);
    assert_eq!(
        prompt,
        format!("{RERANK_INSTRUCTIONS}Query material:\nq\n\nCandidates:\n[1] b\n")
    );
    assert!(RERANK_INSTRUCTIONS.starts_with(
        "You are reranking flashcards against study material.\nScore each candidate from 0.0 to 1.0.\n"
    ));
    assert!(RERANK_INSTRUCTIONS.ends_with(
        "Return JSON only in this exact shape: {\"scores\":[{\"index\":0,\"score\":0.0}]}\n\n"
    ));
}

#[test]
fn marks_give_way_to_prefixes() {
    assert_eq!(adapt_prompt_prefix("  query:x ", false, false), "search_query: x");
    assert_eq!(adapt_prompt_prefix("plain", true, false), "search_query: plain");
    assert_eq!(adapt_prompt_prefix(" plain ", false, true), "search_document: plain");
    assert_eq!(
        adapt_all(&vec!["a".to_string(), "query: b".to_string()], false, false),
        vec!["search_document: a".to_string(), "search_query: b".to_string()]
    );
}

#[test]
fn texts_are_cut_before_they_are_trimmed() {
    assert_eq!(truncate_chars("ab  cd", 4), "ab");
    assert_eq!(truncate_chars("  abcd", 4), "ab");
    let long = "x".repeat(9000);
    assert_eq!(
        adapt_prompt_prefix(&long, false, true),
        format!("search_document: {}", "x".repeat(8000))
    );
    assert_eq!(
        adapt_prompt_prefix(&long, false, false),
        format!("search_document: {}", "x".repeat(9000))
    );
}

#[test]
fn batches_hold_everything_in_order() {
    let selected = vec![5, 3, 9, 1, 7];
    let parts = batches(&selected, 2);
    assert_eq!(parts, vec![vec![5, 3], vec![9, 1], vec![7]]);
    assert_eq!(parts.concat(), selected);
    assert_eq!(batches(&selected, 0).len(), 5);
    assert_eq!(batches(&selected, 9), vec![selected.clone()]);
    assert!(batches(&vec![], 3).is_empty());
}

#[test]
fn model_scores_are_bounded_and_of_the_batch() {
    let mut scores: HashMap<usize, i32> = HashMap::new();
    take_scores(
        &mut scores,
        &vec![1, 2],
        &vec![(1, 5), (7, 5), (2, i32::MAX), (1, -3), (1, 40)],
    );
    assert_eq!(scores.len(), 2);
    assert_eq!(scores[&1], 40);
    assert_eq!(scores[&2], SCORE_ONE);
    take_scores(&mut scores, &vec![2], &vec![(2, -1)]);
    assert_eq!(scores[&2], 0);
    assert_eq!(SCORE_ONE as u32, 1.0f32.to_bits());
}

#[test]
fn greater_scores_come_first_and_ties_stay() {
    let items = vec![
        RerankItem { index: 0, score: 1 },
        RerankItem { index: 1, score: 3 },
        RerankItem { index: 2, score: 1 },
        RerankItem { index: 3, score: 3 },
    ];
    let ranked = rank_items(items);
    let order = ranked.iter().map(|item| item.index).collect::<Vec<_>>();
    assert_eq!(order, vec![1, 3, 0, 2]);
    assert_eq!(top_indices(&ranked, 3), vec![1, 3, 0]);
    assert_eq!(top_indices(&ranked, 30), vec![1, 3, 0, 2]);
}

#[test]
fn pairs_need_as_many_queries_as_texts() {
    let one = vec!["a".to_string()];
    let two = vec!["a".to_string(), "b".to_string()];
    assert!(matches!(rerank_pairs(&vec![], &two, false), PairInputs::Nothing));
    assert!(matches!(rerank_pairs(&two, &vec![], false), PairInputs::Nothing));
    assert!(matches!(rerank_pairs(&one, &two, false), PairInputs::Mismatch));
    assert_eq!(LENGTH_MISMATCH, "queries/texts length mismatch");
    match rerank_pairs(&one, &vec!["t".to_string()], false) {
        PairInputs::Pairs(queries, texts) => {
            assert_eq!(queries, vec!["search_query: a".to_string()]);
            assert_eq!(texts, vec!["search_document: t".to_string()]);
        }
        _ => panic!("equal lengths make pairs"),
    }
}

#[test]
fn the_first_setting_that_says_something_counts() {
    let values = vec![None, Some(" ".to_string()), Some(" x ".to_string()), Some("y".to_string())];
    assert_eq!(optional_env(&values), Some("x".to_string()));
    assert_eq!(optional_env(&vec![None]), None);
}

fn settings(llm: bool) -> RerankSettings {
    RerankSettings { llm, top_n: 2, batch_size: 1 }
}

fn texts(n: usize) -> Vec<String> {
    (0..n).map(|i| format!("text {i}")).collect()
}

fn done(ask: RerankAsk) -> Vec<(usize, i32)> {
    match ask {
        RerankAsk::Done(items) => items.iter().map(|item| (item.index, item.score)).collect(),
        _ => panic!("the ranking is done"),
    }
}

fn rerank_failure(ask: RerankAsk) -> String {
    match ask {
        RerankAsk::Failed(error) => error.message(),
        _ => panic!("the ranking fails"),
    }
}

#[test]
fn texts_are_ranked_by_nearness() {
    let (run, ask) = start_rerank("q".to_string(), texts(3), false);
    match ask {
        RerankAsk::Embed(prompts) => assert_eq!(prompts, vec!["search_query: q".to_string()]),
        _ => panic!("the query is embedded"),
    }
    let (run, ask) = rerank(run, settings(false), RerankAnswer::Embedded(Ok(1)));
    match ask {
        RerankAsk::Embed(prompts) => assert_eq!(prompts[2], "search_document: text 2"),
        _ => panic!("the texts are embedded"),
    }
    let (run, ask) = rerank(run, settings(false), RerankAnswer::Embedded(Ok(3)));
    assert!(matches!(ask, RerankAsk::Compare));
    let (run, ask) = rerank(run, settings(false), RerankAnswer::Compared(vec![1, 5, 3]));
    assert_eq!(done(ask), vec![(1, 5), (2, 3), (0, 1)]);
    assert!(matches!(run, RerankRun::Over));
}

#[test]
fn a_language_model_scores_the_best() {
    let (run, _) = start_rerank("q".to_string(), texts(3), false);
    let (run, _) = rerank(run, settings(true), RerankAnswer::Embedded(Ok(1)));
    let (run, _) = rerank(run, settings(true), RerankAnswer::Embedded(Ok(3)));
    let (run, ask) = rerank(run, settings(true), RerankAnswer::Compared(vec![1, 5, 3]));
    match ask {
        RerankAsk::Score(prompt) => assert!(prompt.ends_with("Candidates:\n[1] text 1\n")),
        _ => panic!("the first batch is scored"),
    }
    let (run, ask) = rerank(run, settings(true), RerankAnswer::Scored(Ok(vec![(1, 7), (2, 9)])));
    match ask {
        RerankAsk::Score(prompt) => assert!(prompt.ends_with("Candidates:\n[2] text 2\n")),
        _ => panic!("the second batch is scored"),
    }
    let (run, ask) = rerank(run, settings(true), RerankAnswer::Scored(Ok(vec![(2, 8)])));
    match ask {
        RerankAsk::Blend(pairs) => {
            assert_eq!(pairs, vec![(5, Some(7)), (3, Some(8)), (1, None)]);
        }
        _ => panic!("scores are blended"),
    }
    let (_, ask) = rerank(run, settings(true), RerankAnswer::Blended(vec![6, 20, 99]));
    assert_eq!(done(ask), vec![(2, 20), (1, 6), (0, 1)]);
}

#[test]
fn pairs_are_ranked_one_by_one() {
    let queries = vec!["a".to_string(), "b".to_string()];
    let (run, ask) = start_rerank_pairs(&queries, &texts(2), false);
    match ask {
        RerankAsk::Embed(prompts) => assert_eq!(
            prompts,
            vec!["search_query: a".to_string(), "search_document: text 0".to_string()]
        ),
        _ => panic!("the first pair is embedded"),
    }
    let (run, _) = rerank(run, settings(true), RerankAnswer::Embedded(Ok(2)));
    let (run, ask) = rerank(run, settings(true), RerankAnswer::Compared(vec![4]));
    match ask {
        RerankAsk::Score(prompt) => {
            assert!(prompt.contains("Query material:\nsearch_query: a\n"));
            assert!(prompt.ends_with("[0] search_document: text 0\n"));
        }
        _ => panic!("the first text is scored"),
    }
    let (run, ask) = rerank(run, settings(true), RerankAnswer::Scored(Ok(vec![(0, 6)])));
    match ask {
        RerankAsk::Blend(pairs) => assert_eq!(pairs, vec![(4, Some(6))]),
        _ => panic!("the score is blended"),
    }
    let (run, ask) = rerank(run, settings(true), RerankAnswer::Blended(vec![5]));
    match ask {
        RerankAsk::Embed(prompts) => assert_eq!(prompts[0], "search_query: b"),
        _ => panic!("the second pair is embedded"),
    }
    let (run, _) = rerank(run, settings(true), RerankAnswer::Embedded(Ok(2)));
    let (run, _) = rerank(run, settings(true), RerankAnswer::Compared(vec![9]));
    let (_, ask) = rerank(run, settings(true), RerankAnswer::Scored(Ok(vec![(1, 6)])));
    assert_eq!(done(ask), vec![(1, 9), (0, 5)]);
}

#[test]
fn rankings_fail_where_models_fail() {
    assert!(done(start_rerank("q".to_string(), Vec::new(), false).1).is_empty());
    let one = vec!["a".to_string()];
    assert!(done(start_rerank_pairs(&one, &Vec::new(), false).1).is_empty());
    assert_eq!(
        rerank_failure(start_rerank_pairs(&one, &texts(2), false).1),
        "queries/texts length mismatch"
    );
    let fail = |answer: RerankAnswer| {
        let (run, _) = start_rerank("q".to_string(), texts(1), false);
        rerank_failure(rerank(run, settings(false), answer).1)
    };
    assert_eq!(fail(RerankAnswer::Embedded(Ok(0))), "missing query embedding");
    assert_eq!(fail(RerankAnswer::Embedded(Err("down".to_string()))), "down");
    assert_eq!(fail(RerankAnswer::Compared(Vec::new())), "answer out of turn");
    let (run, _) = start_rerank_pairs(&one, &texts(1), false);
    assert_eq!(
        rerank_failure(rerank(run, settings(false), RerankAnswer::Embedded(Ok(1))).1),
        "pair rerank embedding response malformed"
    );
    let (run, _) = start_rerank("q".to_string(), texts(1), false);
    let (run, _) = rerank(run, settings(true), RerankAnswer::Embedded(Ok(1)));
    let (run, _) = rerank(run, settings(true), RerankAnswer::Embedded(Ok(2)));
    assert_eq!(
        rerank_failure(rerank(run, settings(true), RerankAnswer::Compared(vec![1, 2])).1),
        "candidate out of range"
    );
}
