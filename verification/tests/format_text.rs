use octocode::blocks::{CodeBlock, DocumentBlock, TextBlock};
use octocode::format_text::{
    format_code_search_results_as_text, format_combined_search_results_as_text,
    format_doc_search_results_as_text, format_text_search_results_as_text,
};

fn code_block() -> CodeBlock {
    CodeBlock {
        path: "src/a.rs".to_string(),
        language: "rust".to_string(),
        content: "fn a() {}\nfn b() {}".to_string(),
        symbols: vec![
            "b".to_string(),
            "a".to_string(),
            "a".to_string(),
            "function_item".to_string(),
        ],
        start_line: 10,
        end_line: 11,
        hash: "h1".to_string(),
        distance: Some(125_000),
    }
}

#[test]
fn code_results_full_detail() {
    let out = format_code_search_results_as_text(&[code_block()], "full");
    assert_eq!(
        out,
        "CODE RESULTS (1)\n1. src/a.rs\nLines: 10-11 | Similarity 0.875\nSymbols: a, b\n10: fn a() {}\n11: fn b() {}\n\n"
    );
}

#[test]
fn code_results_empty() {
    assert_eq!(format_code_search_results_as_text(&[], "full"), "No code results found.");
}

#[test]
fn code_results_signatures_detail() {
    let out = format_code_search_results_as_text(&[code_block()], "signatures");
    assert_eq!(
        out,
        "CODE RESULTS (1)\n1. src/a.rs\nLines: 10-11 | Similarity 0.875\nSymbols: a, b\n10: fn a() {}\n\n"
    );
}

#[test]
fn text_results_partial_detail() {
    let block = TextBlock {
        path: "notes.txt".to_string(),
        language: "text".to_string(),
        content: "one\ntwo\n".to_string(),
        start_line: 1,
        end_line: 2,
        hash: "t".to_string(),
        distance: None,
    };
    let out = format_text_search_results_as_text(&[block], "partial");
    assert_eq!(out, "TEXT RESULTS (1)\n1. notes.txt\nLines: 1-2\n1: one\n2: two\n\n");
}

#[test]
fn doc_results_and_combined() {
    let doc = DocumentBlock {
        path: "README.md".to_string(),
        title: "Intro".to_string(),
        content: "Hello".to_string(),
        context: vec![],
        level: 2,
        start_line: 3,
        end_line: 4,
        hash: "d".to_string(),
        distance: Some(1_500_000),
    };
    let out = format_doc_search_results_as_text(&[doc.clone()], "partial");
    assert_eq!(
        out,
        "DOCUMENTATION RESULTS (1)\n1. README.md\nIntro (Level 2) | 3-4 | Similarity -0.500\n3: Hello\n"
    );
    let all = format_combined_search_results_as_text(&[], &[], &[doc], "other");
    assert_eq!(
        all,
        "SEARCH RESULTS (1 total)\n\nDOCUMENTATION RESULTS (1)\n1. README.md\nIntro (Level 2) | 3-4 | Similarity -0.500\n\n"
    );
}
