use octocode::blocks::{CodeBlock, DocumentBlock, TextBlock};
use octocode::format_markdown::{
    format_code_search_results_as_markdown, format_code_search_results_with_detail,
    format_combined_search_results_as_markdown,
};
use octocode::preview::{
    get_code_preview, get_code_preview_with_lines, get_doc_preview_with_lines,
    get_text_preview_with_lines,
};
use octocode::render::{
    render_code_blocks, render_code_blocks_compact, render_code_blocks_with_config,
    render_document_blocks_with_config, render_text_blocks_with_config,
};

fn block(path: &str, symbols: &[&str], content: &str, distance: Option<u64>) -> CodeBlock {
    CodeBlock {
        path: path.to_string(),
        language: "rust".to_string(),
        content: content.to_string(),
        symbols: symbols.iter().map(|s| s.to_string()).collect(),
        start_line: 3,
        end_line: 5,
        hash: format!("{}-{}", path, content.len()),
        distance,
    }
}

fn numbered(n: usize) -> String {
    (1..=n).map(|i| format!("line{}", i)).collect::<Vec<_>>().join("\n")
}

#[test]
fn compact_listing() {
    let b = block("src/lib.rs", &["b", "a", "b"], "  fn x() {}  \nline2", Some(123_456));
    assert_eq!(
        render_code_blocks_compact(&[b]),
        "1 results\n\n[1] src/lib.rs:3-5 | rust | 87.7%\n    a, b\n    fn x() {}\n\n"
    );
}

#[test]
fn compact_listing_limits_symbols_and_preview() {
    let long = "x".repeat(85);
    let b = block("a.rs", &["f", "e", "d", "c", "b", "a"], &long, None);
    let out = render_code_blocks_compact(&[b]);
    let expected = format!("1 results\n\n[1] a.rs:3-5 | rust | N/A\n    a, b, c, d, e\n    {}…\n\n", "x".repeat(80));
    assert_eq!(out, expected);
    assert_eq!(render_code_blocks_compact(&[]), "No results found.\n");
}

#[test]
fn cli_code_listing_signatures() {
    let b = block("src/lib.rs", &["parse", "function_item"], "  pub fn parse() {\n}", Some(250_000));
    let out = render_code_blocks_with_config(&[b], "signatures");
    assert_eq!(
        out,
        "Found 1 code blocks:\n\n\
╔══════════════════ File: src/lib.rs ══════════════════\n\
║\n\
║ Result 1 of 1\n\
║ Language: rust\n\
║ Lines: 3-5\n\
║ Similarity: 0.7500\n\
║ Symbols:\n\
║   • parse\n\
║ Content:\n\
║ ┌────────────────────────────────────\n\
║ │    3 │ pub fn parse() {\n\
║ └────────────────────────────────────\n\
╚════════════════════════════════════════\n\n"
    );
}

#[test]
fn cli_code_listing_partial_shortens_long_content() {
    let b = block("a.rs", &[], &numbered(12), None);
    let out = render_code_blocks(&[b]);
    assert!(out.contains("║ │    3 │ line1\n║ │    4 │ line2\n║ │    5 │ line3\n║ │    6 │ line4\n║ │      │ ... (5 more lines)\n║ │   12 │ line10\n"));
    assert!(out.contains("║ │   14 │ line12\n"));
    assert!(!out.contains("line5\n"));
    assert_eq!(render_code_blocks_with_config(&[], "full"), "No code blocks found for the query.\n");
}

#[test]
fn cli_text_listing_groups_by_file() {
    let t = |path: &str, hash: &str| TextBlock {
        path: path.to_string(),
        language: "text".to_string(),
        content: "alpha\nbeta".to_string(),
        start_line: 1,
        end_line: 2,
        hash: hash.to_string(),
        distance: None,
    };
    let out = render_text_blocks_with_config(&[t("a.txt", "1"), t("b.txt", "2"), t("a.txt", "3")], "full");
    let first_b = out.find("File: b.txt").unwrap();
    let second_a_block = out.find("Block 2 of 2: Text Block").unwrap();
    assert!(second_a_block < first_b);
    assert!(out.starts_with("Found 3 text blocks:\n\n╔══════════════════ File: a.txt ══════════════════\n"));
    assert!(out.contains("║    1 │ alpha\n║    2 │ beta\n"));
    assert_eq!(render_text_blocks_with_config(&[], "full"), "No text blocks found.\n");
}

#[test]
fn cli_document_listing_shows_title() {
    let d = DocumentBlock {
        path: "README.md".to_string(),
        title: "Install".to_string(),
        content: "Run it.".to_string(),
        context: vec![],
        level: 2,
        start_line: 7,
        end_line: 8,
        hash: "d".to_string(),
        distance: Some(100_000),
    };
    let out = render_document_blocks_with_config(&[d.clone()], "signatures");
    assert!(out.contains("║ Block 1 of 1: Document Block\n║ Lines: 7-8\n║ Similarity: 0.9000\n║\n║ Title: Install\n"));
    assert!(!out.contains("Run it."));
    let out = render_document_blocks_with_config(&[d], "partial");
    assert!(out.contains("║ Title: Install\n║    7 │ Run it.\n"));
}

#[test]
fn markdown_code_listing() {
    let b = block("src/lib.rs", &["b", "a_b"], "fn b() {}", Some(500_000));
    assert_eq!(
        format_code_search_results_as_markdown(&[b]),
        "# Code Search Results\n\nFound 1 code blocks:\n\n## File: src/lib.rs\n\n### Block 1 of 1 in file\n\n- **Language**: rust\n- **Lines**: 3-5\n- **Similarity**: 0.5000\n- **Symbols**: b\n\n**Content:**\n\n```rust\nfn b() {}\n```\n\n"
    );
}

#[test]
fn markdown_signatures_use_the_preview() {
    let content = format!("// header\n{}", numbered(11));
    let b = block("a.rs", &[], &content, None);
    let out = format_code_search_results_with_detail(&[b.clone()], "signatures");
    assert!(out.contains("```rust\nline1\nline2\nline3\nline4\n// ... [content omitted] ...\nline9\nline10\nline11\n```"));
    let full = format_code_search_results_with_detail(&[b], "full");
    assert!(full.contains(&content));
}

#[test]
fn markdown_combined_is_empty_note() {
    assert_eq!(format_combined_search_results_as_markdown(&[], &[], &[]), "No results found.");
}

#[test]
fn code_preview_skips_leading_comments() {
    let content = format!("// a\n# b\n\n{}", numbered(9));
    assert_eq!(
        get_code_preview(&content, "rust"),
        "line1\nline2\nline3\nline4\n// ... [content omitted] ...\nline7\nline8\nline9"
    );
    let short = numbered(10);
    assert_eq!(get_code_preview(&short, "rust"), short);
}

#[test]
fn code_preview_keeps_a_short_tail() {
    let content = format!("// a\n// b\n// c\n// d\n{}", numbered(7));
    assert_eq!(get_code_preview(&content, "rust"), "line1\nline2\nline3\nline4\nline5\nline6\nline7");
}

#[test]
fn numbered_previews() {
    assert_eq!(get_text_preview_with_lines("a\nb", 5), "5: a\n6: b");
    let content = format!("\n\n{}", numbered(10));
    assert_eq!(
        get_doc_preview_with_lines(&content, 1),
        "3: line1\n4: line2\n5: line3\n6: line4\n... (6 more lines)\n10: line8\n11: line9\n12: line10"
    );
    let code = format!("// c\n{}", numbered(10));
    assert_eq!(
        get_code_preview_with_lines(&code, 100, "rust"),
        "101: line1\n102: line2\n103: line3\n104: line4\n... (6 more lines)\n108: line8\n109: line9\n110: line10"
    );
}
