use octocode::blocks::{CodeBlock, DocumentBlock, TextBlock};
use octocode::hybrid::{
    reciprocal_rank_fusion, reciprocal_rank_fusion_docs, reciprocal_rank_fusion_text, BM25Result,
    QueryStrategy,
};
use octocode::merge::{
    apply_multi_query_bonus_code, apply_multi_query_bonus_doc, apply_multi_query_bonus_text,
    deduplicate_and_merge_results, deduplicate_and_merge_results_mcp, merge_lines_fit,
    QuerySearchResult,
};

fn code(hash: &str, start: usize, end: usize, distance: Option<u64>) -> CodeBlock {
    CodeBlock {
        path: format!("src/{}.rs", hash),
        language: "rust".to_string(),
        content: "fn f() {}".to_string(),
        symbols: vec![],
        start_line: start,
        end_line: end,
        hash: hash.to_string(),
        distance,
    }
}

fn doc(hash: &str, distance: Option<u64>) -> DocumentBlock {
    DocumentBlock {
        path: "README.md".to_string(),
        title: "Intro".to_string(),
        content: "text".to_string(),
        context: vec![],
        level: 1,
        start_line: 1,
        end_line: 2,
        hash: hash.to_string(),
        distance,
    }
}

fn text(hash: &str, distance: Option<u64>) -> TextBlock {
    TextBlock {
        path: "notes.txt".to_string(),
        language: "text".to_string(),
        content: "text".to_string(),
        start_line: 1,
        end_line: 2,
        hash: hash.to_string(),
        distance,
    }
}

fn bm25(hash: &str) -> BM25Result {
    BM25Result { hash: hash.to_string(), path: "p".to_string(), score: 1 }
}

fn queries(n: usize) -> Vec<String> {
    (0..n).map(|i| format!("query {}", i)).collect()
}

#[test]
fn bonus_two_of_three_queries() {
    let mut b = code("h", 1, 2, Some(500_000));
    apply_multi_query_bonus_code(&mut b, &[0, 2], 3);
    assert_eq!(b.distance, Some(466_667));
}

#[test]
fn bonus_all_of_four_queries() {
    let mut d = doc("h", Some(400_000));
    apply_multi_query_bonus_doc(&mut d, &[0, 1, 2, 3], 4);
    assert_eq!(d.distance, Some(360_000));
}

#[test]
fn bonus_needs_two_queries() {
    let mut t = text("h", Some(400_000));
    apply_multi_query_bonus_text(&mut t, &[1], 4);
    assert_eq!(t.distance, Some(400_000));
    let mut t = text("h", Some(400_000));
    apply_multi_query_bonus_text(&mut t, &[0, 0], 1);
    assert_eq!(t.distance, Some(400_000));
    let mut t = text("h", None);
    apply_multi_query_bonus_text(&mut t, &[0, 1], 2);
    assert_eq!(t.distance, None);
}

#[test]
fn bonus_is_capped_at_a_fifth() {
    let mut b = code("h", 1, 2, Some(1_000_000));
    apply_multi_query_bonus_code(&mut b, &[0, 1, 0, 1, 0, 1], 2);
    assert_eq!(b.distance, Some(800_000));
}

#[test]
fn merge_keeps_closest_copy_and_moves_it_down() {
    let results = vec![
        QuerySearchResult {
            query_index: 0,
            code_blocks: vec![code("h1", 10, 12, Some(500_000)), code("h2", 1, 3, Some(300_000))],
            doc_blocks: vec![],
            text_blocks: vec![],
        },
        QuerySearchResult {
            query_index: 1,
            code_blocks: vec![code("h1", 10, 12, Some(200_000))],
            doc_blocks: vec![],
            text_blocks: vec![],
        },
    ];
    let (c, d, t) = deduplicate_and_merge_results(results, &queries(2), 1_000_000);
    assert!(d.is_empty() && t.is_empty());
    assert_eq!(c.len(), 2);
    assert_eq!(c[0].hash, "h1");
    assert_eq!((c[0].start_line, c[0].end_line), (11, 13));
    assert_eq!(c[0].distance, Some(180_000));
    assert_eq!(c[1].hash, "h2");
    assert_eq!(c[1].distance, Some(300_000));
}

#[test]
fn merge_for_mcp_keeps_lines() {
    let results = vec![
        QuerySearchResult {
            query_index: 0,
            code_blocks: vec![code("h1", 10, 12, Some(500_000))],
            doc_blocks: vec![],
            text_blocks: vec![],
        },
        QuerySearchResult {
            query_index: 1,
            code_blocks: vec![code("h1", 30, 32, Some(200_000))],
            doc_blocks: vec![],
            text_blocks: vec![],
        },
    ];
    let (c, _, _) = deduplicate_and_merge_results_mcp(results, &queries(2), 1_000_000);
    assert_eq!((c[0].start_line, c[0].end_line), (30, 32));
    assert_eq!(c[0].distance, Some(180_000));
}

#[test]
fn merge_drops_results_beyond_threshold_and_sorts() {
    let results = vec![QuerySearchResult {
        query_index: 0,
        code_blocks: vec![],
        doc_blocks: vec![doc("far", Some(900_000)), doc("none", None), doc("near", Some(100_000))],
        text_blocks: vec![text("t1", Some(600_000)), text("t2", Some(300_000))],
    }];
    let (_, d, t) = deduplicate_and_merge_results(results, &queries(1), 700_000);
    let dh: Vec<&str> = d.iter().map(|b| b.hash.as_str()).collect();
    assert_eq!(dh, vec!["near", "none"]);
    let th: Vec<&str> = t.iter().map(|b| b.hash.as_str()).collect();
    assert_eq!(th, vec!["t2", "t1"]);
}

#[test]
fn missing_distance_replaces_a_distance() {
    let results = vec![
        QuerySearchResult {
            query_index: 0,
            code_blocks: vec![code("h1", 1, 1, Some(100_000))],
            doc_blocks: vec![],
            text_blocks: vec![],
        },
        QuerySearchResult {
            query_index: 1,
            code_blocks: vec![code("h1", 5, 6, None)],
            doc_blocks: vec![],
            text_blocks: vec![],
        },
    ];
    let (c, _, _) = deduplicate_and_merge_results(results, &queries(2), 1_000_000);
    assert_eq!(c.len(), 1);
    assert_eq!(c[0].distance, None);
    assert_eq!((c[0].start_line, c[0].end_line), (6, 7));
}

#[test]
fn strategies_from_queries() {
    let s = QueryStrategy::from_query("getUserName");
    assert_eq!((s.bm25_weight, s.vector_weight), (80, 20));
    let s = QueryStrategy::from_query("how does the authentication flow work in this project");
    assert_eq!((s.bm25_weight, s.vector_weight), (30, 70));
    let s = QueryStrategy::from_query("find user login handler");
    assert_eq!((s.bm25_weight, s.vector_weight), (50, 50));
    let s = QueryStrategy::from_query("Find user login handler");
    assert_eq!((s.bm25_weight, s.vector_weight), (80, 20));
    let s = QueryStrategy::from_query("Élan vital login handler");
    assert_eq!((s.bm25_weight, s.vector_weight), (80, 20));
    let s = QueryStrategy::from_query("ÄÖÜ_ß");
    assert_eq!((s.bm25_weight, s.vector_weight), (80, 20));
    let s = QueryStrategy::from_query("crème brûlée recette française ici");
    assert_eq!((s.bm25_weight, s.vector_weight), (50, 50));
}

#[test]
fn fusion_scores_and_order() {
    let strategy = QueryStrategy::from_query("parse config");
    let r = reciprocal_rank_fusion(
        &[bm25("A"), bm25("B")],
        &[code("B", 1, 1, None), code("C", 1, 1, None)],
        &strategy,
        60,
    );
    let got: Vec<(&str, u128, Option<usize>, Option<usize>)> = r
        .iter()
        .map(|h| (h.hash.as_str(), h.rrf_score, h.bm25_rank, h.vector_rank))
        .collect();
    assert_eq!(
        got,
        vec![
            ("B", 1_618_191_432, Some(1), Some(0)),
            ("A", 1_311_475_409, Some(0), None),
            ("C", 322_580_645, None, Some(1)),
        ]
    );
}

#[test]
fn fusion_of_docs_and_text() {
    let strategy = QueryStrategy { bm25_weight: 50, vector_weight: 50 };
    let r = reciprocal_rank_fusion_docs(&[bm25("X")], &[doc("X", None)], &strategy, 0);
    assert_eq!(r.len(), 1);
    assert_eq!(r[0].rrf_score, 50_000_000_000 + 50_000_000_000);
    let r = reciprocal_rank_fusion_text(&[], &[text("Y", None), text("Z", None)], &strategy, 1);
    let hashes: Vec<&str> = r.iter().map(|h| h.hash.as_str()).collect();
    assert_eq!(hashes, vec!["Y", "Z"]);
    assert_eq!(r[1].rrf_score, 50_000_000_000 / 3);
}

#[test]
fn lines_that_would_overflow_are_detected() {
    let make = |second_line: usize, second_distance: u64| {
        vec![
            QuerySearchResult {
                query_index: 0,
                code_blocks: vec![code("h", 1, 2, Some(500_000))],
                doc_blocks: vec![],
                text_blocks: vec![],
            },
            QuerySearchResult {
                query_index: 1,
                code_blocks: vec![code("h", second_line, second_line, Some(second_distance))],
                doc_blocks: vec![],
                text_blocks: vec![],
            },
        ]
    };
    // A closer copy at the last line would be moved past it.
    assert!(!merge_lines_fit(&make(usize::MAX, 250_000)));
    // A farther copy at the last line does not replace anything.
    let results = make(usize::MAX, 750_000);
    assert!(merge_lines_fit(&results));
    let (c, _, _) = deduplicate_and_merge_results(results, &queries(2), 1_000_000);
    assert_eq!((c[0].start_line, c[0].end_line), (1, 2));
    assert_eq!(c[0].distance, Some(450_000));
    // A block found once may sit at the last line.
    let single = vec![QuerySearchResult {
        query_index: 0,
        code_blocks: vec![code("x", usize::MAX, usize::MAX, Some(1))],
        doc_blocks: vec![],
        text_blocks: vec![],
    }];
    assert!(merge_lines_fit(&single));
    assert!(merge_lines_fit(&make(7, 250_000)));
}
