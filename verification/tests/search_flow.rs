use octocode::blocks::{CodeBlock, DocumentBlock, TextBlock};
use octocode::bm25::{bm25_symbols_text, collect_bm25_results, BM25Hit};
use octocode::expand::{combine_expansion, expansion_symbols};
use octocode::merge::QuerySearchResult;
use octocode::output_format::OutputFormat;
use octocode::plan::{
    embedding_plan, per_query_limit, plan_mcp_query_search, plan_single_search,
    query_search_plan, EmbeddingPlan, SingleSearch, StorePlan,
};
use octocode::search_output::{
    finish_multi_query_markdown, finish_multi_query_text, merge_and_limit,
    render_search_command_output, results_per_type, retain_within_threshold,
};
use octocode::validate::SearchMode;

fn code(path: &str, hash: &str, start: usize, symbols: &[&str], distance: Option<u64>) -> CodeBlock {
    CodeBlock {
        path: path.to_string(),
        language: "rust".to_string(),
        content: "fn f() {}".to_string(),
        symbols: symbols.iter().map(|s| s.to_string()).collect(),
        start_line: start,
        end_line: start,
        hash: hash.to_string(),
        distance,
    }
}

fn text(hash: &str, distance: Option<u64>) -> TextBlock {
    TextBlock {
        path: "notes.txt".to_string(),
        language: "text".to_string(),
        content: "hello".to_string(),
        start_line: 1,
        end_line: 1,
        hash: hash.to_string(),
        distance,
    }
}

#[test]
fn per_type_limits() {
    assert_eq!(results_per_type(SearchMode::All, 10), 4);
    assert_eq!(results_per_type(SearchMode::All, 9), 3);
    assert_eq!(results_per_type(SearchMode::All, 0), 0);
    assert_eq!(results_per_type(SearchMode::Code, 10), 10);
}

#[test]
fn threshold_retention_keeps_order_and_undistanced() {
    let blocks = vec![text("a", Some(300_000)), text("b", Some(800_000)), text("c", None), text("d", Some(700_000))];
    let kept = retain_within_threshold(blocks, 700_000);
    let hashes: Vec<&str> = kept.iter().map(|b| b.hash.as_str()).collect();
    assert_eq!(hashes, vec!["a", "c", "d"]);
}

#[test]
fn merged_results_are_limited() {
    let results = vec![QuerySearchResult {
        query_index: 0,
        code_blocks: vec![
            code("a.rs", "h1", 1, &[], Some(300_000)),
            code("b.rs", "h2", 1, &[], Some(100_000)),
            code("c.rs", "h3", 1, &[], Some(200_000)),
        ],
        doc_blocks: vec![],
        text_blocks: vec![],
    }];
    let (c, d, t) = merge_and_limit(results, &["query".to_string()], 1_000_000, 2);
    let hashes: Vec<&str> = c.iter().map(|b| b.hash.as_str()).collect();
    assert_eq!(hashes, vec!["h2", "h3"]);
    assert!(d.is_empty() && t.is_empty());
}

#[test]
fn multi_query_text_refuses_unknown_mode() {
    let r = finish_multi_query_text(vec![], &["q".to_string()], 1_000_000, 5, "files", "partial");
    assert_eq!(r, Err("Invalid search mode 'files'. Use 'all', 'code', 'docs', or 'text'.".to_string()));
}

#[test]
fn multi_query_text_formats_by_mode() {
    let r = finish_multi_query_text(vec![], &["q".to_string()], 1_000_000, 5, "code", "partial");
    assert_eq!(r, Ok("No code results found.".to_string()));
    let r = finish_multi_query_text(vec![], &["q".to_string()], 1_000_000, 5, "all", "partial");
    assert_eq!(r, Ok("No results found.".to_string()));
}

#[test]
fn multi_query_markdown_formats_by_mode() {
    let r = finish_multi_query_markdown(vec![], &["q".to_string()], 1_000_000, 5, "docs", "full");
    assert_eq!(r, Ok("No documentation results found.".to_string()));
    let r = finish_multi_query_markdown(vec![], &["q".to_string()], 1_000_000, 5, "x", "full");
    assert!(r.is_err());
}

#[test]
fn command_output_by_format() {
    let none: Vec<CodeBlock> = vec![];
    let docs: Vec<DocumentBlock> = vec![];
    let texts: Vec<TextBlock> = vec![];
    assert_eq!(render_search_command_output(SearchMode::All, OutputFormat::Json, "partial", &none, &docs, &texts), None);
    assert_eq!(render_search_command_output(SearchMode::Code, OutputFormat::Md, "partial", &none, &docs, &texts), None);
    assert_eq!(
        render_search_command_output(SearchMode::All, OutputFormat::Cli, "partial", &none, &docs, &texts),
        Some("No results found for the query.\n".to_string())
    );
    assert_eq!(
        render_search_command_output(SearchMode::All, OutputFormat::Compact, "partial", &none, &docs, &texts),
        Some("No results found.\n".to_string())
    );
    assert_eq!(
        render_search_command_output(SearchMode::All, OutputFormat::Text, "partial", &none, &docs, &texts),
        Some("No results found.\n".to_string())
    );
    assert_eq!(
        render_search_command_output(SearchMode::Docs, OutputFormat::Compact, "partial", &none, &docs, &texts),
        Some("No document blocks found.\n".to_string())
    );
    assert_eq!(
        render_search_command_output(SearchMode::Text, OutputFormat::Text, "partial", &none, &docs, &texts),
        Some("No text results found.\n".to_string())
    );
}

#[test]
fn command_output_all_cli_has_banners() {
    let c = vec![code("src/a.rs", "h1", 3, &["a"], Some(250_000))];
    let t = vec![text("t1", None)];
    let out = render_search_command_output(SearchMode::All, OutputFormat::Cli, "signatures", &c, &[], &t).unwrap();
    assert!(out.starts_with("=== CODE RESULTS ===\n\nFound 1 code blocks:\n\n"));
    assert!(out.contains("\n\n=== TEXT RESULTS ===\n\nFound 1 text blocks:\n\n"));
    assert!(!out.contains("DOCUMENTATION"));
}

#[test]
fn query_limits() {
    assert_eq!(per_query_limit(10, 3), 6);
    assert_eq!(per_query_limit(10, 0), 20);
    assert_eq!(per_query_limit(5, 1), 10);
}

#[test]
fn query_plans() {
    assert_eq!(
        query_search_plan("all", 10, 300_000, true, true, None),
        Ok(StorePlan { code_limit: Some(4), doc_limit: Some(4), text_limit: Some(4), code_language: None, threshold: 700_000 })
    );
    assert_eq!(
        query_search_plan("all", 10, 300_000, false, true, None),
        Ok(StorePlan { code_limit: None, doc_limit: Some(4), text_limit: Some(4), code_language: None, threshold: 700_000 })
    );
    assert_eq!(
        query_search_plan("code", 10, 300_000, false, true, None),
        Ok(StorePlan { code_limit: None, doc_limit: None, text_limit: None, code_language: None, threshold: 700_000 })
    );
    assert_eq!(query_search_plan("nope", 10, 300_000, true, true, None), Err("Invalid search mode: nope".to_string()));
}

#[test]
fn embedding_plans() {
    assert_eq!(embedding_plan("code", true), Ok(EmbeddingPlan { code: true, text: false, shared: false }));
    assert_eq!(embedding_plan("docs", true), Ok(EmbeddingPlan { code: false, text: true, shared: false }));
    assert_eq!(embedding_plan("all", true), Ok(EmbeddingPlan { code: true, text: true, shared: true }));
    assert_eq!(embedding_plan("all", false), Ok(EmbeddingPlan { code: true, text: true, shared: false }));
    assert_eq!(embedding_plan("any", false), Err("Invalid search mode: any".to_string()));
}

#[test]
fn single_search_plans() {
    assert_eq!(
        plan_single_search(SingleSearch::MarkdownWithDetail, "all", 10, 250_000, true, true, None),
        Ok(StorePlan { code_limit: Some(4), doc_limit: Some(4), text_limit: Some(4), code_language: None, threshold: 250_000 })
    );
    assert_eq!(
        plan_single_search(SingleSearch::Markdown, "all", 10, 250_000, true, true, None),
        Ok(StorePlan { code_limit: Some(10), doc_limit: Some(10), text_limit: Some(10), code_language: None, threshold: 250_000 })
    );
    assert_eq!(
        plan_single_search(SingleSearch::MarkdownWithDetail, "docs", 7, 250_000, false, true, None),
        Ok(StorePlan { code_limit: None, doc_limit: Some(7), text_limit: None, code_language: None, threshold: 250_000 })
    );
    assert_eq!(
        plan_single_search(SingleSearch::MarkdownWithDetail, "all", 10, 250_000, true, false, None),
        Err("No text embeddings generated for all search mode".to_string())
    );
    assert_eq!(
        plan_single_search(SingleSearch::MarkdownWithDetail, "code", 10, 250_000, false, true, None),
        Err("No code embeddings generated for code search mode".to_string())
    );
    assert_eq!(
        plan_single_search(SingleSearch::MarkdownWithDetail, "graph", 10, 250_000, true, true, None),
        Err("Invalid search mode 'graph'. Use 'all', 'code', 'docs', or 'text'.".to_string())
    );
}

#[test]
fn mcp_query_plans() {
    assert_eq!(
        plan_mcp_query_search(SearchMode::All, 6, true, true),
        Ok(StorePlan { code_limit: Some(6), doc_limit: Some(6), text_limit: Some(6), code_language: None, threshold: 1_010_000 })
    );
    assert_eq!(plan_mcp_query_search(SearchMode::Text, 6, true, false), Err("No text embeddings for text search".to_string()));
    assert_eq!(plan_mcp_query_search(SearchMode::All, 6, false, true), Err("No code embeddings for all search".to_string()));
}

#[test]
fn symbols_to_expand() {
    let blocks = vec![
        code("a.rs", "h1", 1, &["parse", "function_item", "Config"], None),
        code("b.rs", "h2", 1, &["parse", "_hidden", "9lives", "zeta", "Émile"], None),
    ];
    assert_eq!(expansion_symbols(&blocks), vec!["Config", "parse", "zeta", "Émile"]);
}

#[test]
fn expansion_ranks_new_blocks() {
    let orig = vec![code("a.rs", "h1", 1, &["parse"], None)];
    let refs: Vec<String> = vec!["Config".to_string(), "parse".to_string(), "zeta".to_string()];
    let found = vec![
        Some(code("z.rs", "h5", 9, &["zeta"], None)),
        Some(code("a.rs", "h1", 1, &["parse"], None)),
        None,
        Some(code("c.rs", "h3", 4, &["Config", "parse"], None)),
        Some(code("b.rs", "h4", 2, &["zeta"], None)),
        Some(code("z.rs", "h5", 9, &["zeta"], None)),
        Some(code("b.rs", "h6", 1, &["zeta", "other"], None)),
    ];
    let out = combine_expansion(orig, found, &refs);
    let hashes: Vec<&str> = out.iter().map(|b| b.hash.as_str()).collect();
    assert_eq!(hashes, vec!["h1", "h3", "h6", "h4", "h5"]);
}

#[test]
fn bm25_symbols_joined_with_spaces() {
    assert_eq!(bm25_symbols_text(&vec!["a".to_string(), "b".to_string(), "c".to_string()]), "a b c");
    assert_eq!(bm25_symbols_text(&vec![]), "");
}

#[test]
fn bm25_hits_filtered_by_type() {
    let hit = |t: Option<&str>, h: Option<&str>, s: u64| BM25Hit {
        score: s,
        block_type: t.map(|x| x.to_string()),
        hash: h.map(|x| x.to_string()),
        path: Some("p".to_string()),
    };
    let hits = vec![hit(Some("code"), Some("h1"), 3), hit(Some("doc"), Some("h2"), 2), hit(None, None, 1)];
    let all = collect_bm25_results(hits.clone(), None);
    assert_eq!(all.len(), 3);
    let code_only = collect_bm25_results(hits, Some("code"));
    let hashes: Vec<&str> = code_only.iter().map(|r| r.hash.as_str()).collect();
    assert_eq!(hashes, vec!["h1", ""]);
    assert_eq!(code_only[0].score, 3);
}

#[test]
fn language_filter_goes_to_the_code_query() {
    assert_eq!(
        plan_single_search(SingleSearch::TextWithDetail, "code", 10, 250_000, true, true, Some("rust")),
        Ok(StorePlan { code_limit: Some(10), doc_limit: None, text_limit: None, code_language: Some("rust".to_string()), threshold: 750_000 })
    );
    assert_eq!(
        plan_single_search(SingleSearch::TextWithDetail, "all", 10, 250_000, true, true, Some("go")),
        Ok(StorePlan { code_limit: Some(4), doc_limit: Some(4), text_limit: Some(4), code_language: Some("go".to_string()), threshold: 750_000 })
    );
    assert_eq!(
        plan_single_search(SingleSearch::TextWithDetail, "docs", 10, 250_000, true, true, Some("go")),
        Ok(StorePlan { code_limit: None, doc_limit: Some(10), text_limit: None, code_language: None, threshold: 750_000 })
    );
    assert_eq!(
        plan_single_search(SingleSearch::MarkdownWithDetail, "code", 10, 250_000, true, true, Some("go")),
        Ok(StorePlan { code_limit: Some(10), doc_limit: None, text_limit: None, code_language: None, threshold: 250_000 })
    );
    assert_eq!(
        query_search_plan("all", 6, 300_000, true, true, Some("python")),
        Ok(StorePlan { code_limit: Some(2), doc_limit: Some(2), text_limit: Some(2), code_language: Some("python".to_string()), threshold: 700_000 })
    );
}
