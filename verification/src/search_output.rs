use vstd::prelude::*;
use crate::blocks::{CodeBlock, DocumentBlock, ResultBlock, TextBlock};
use crate::format_markdown::{
    code_results_md, combined_results_md, doc_results_md, format_code_search_results_as_markdown,
    format_code_search_results_with_detail, format_combined_search_results_as_markdown,
    format_combined_search_results_with_detail, format_doc_search_results_as_markdown,
    format_text_search_results_as_markdown, text_results_md,
};
use crate::format_text::{
    code_results_text, combined_results_text, doc_results_text, format_code_search_results_as_text,
    format_combined_search_results_as_text, format_doc_search_results_as_text,
    format_text_search_results_as_text, text_results_text,
};
use crate::merge::{
    deduplicate_and_merge_results, deduplicate_and_merge_results_mcp, final_results, merged_code,
    merged_docs, merged_texts, replacements_fit, within_threshold, QuerySearchResult,
};
use crate::output_format::OutputFormat;
use crate::render::{
    cli_code_blocks, cli_doc_blocks, cli_text_blocks, compact_blocks, render_code_blocks_compact,
    render_code_blocks_with_config, render_document_blocks_with_config,
    render_text_blocks_with_config,
};
use crate::text::push_str;
use crate::validate::{parse_search_mode, search_mode_error, search_mode_of, SearchMode};

verus! {

broadcast use vstd::seq_lib::group_seq_properties;

// ---------------------------------------------------------------------------
// What a search asks the store for
// ---------------------------------------------------------------------------

impl SearchMode {
    /// Whether the mode searches code blocks.
    pub fn searches_code(&self) -> (r: bool)
        ensures
            r == (*self is All || *self is Code),
    {
        matches!(self, SearchMode::All | SearchMode::Code)
    }

    /// Whether the mode searches document blocks.
    pub fn searches_docs(&self) -> (r: bool)
        ensures
            r == (*self is All || *self is Docs),
    {
        matches!(self, SearchMode::All | SearchMode::Docs)
    }

    /// Whether the mode searches text blocks.
    pub fn searches_text(&self) -> (r: bool)
        ensures
            r == (*self is All || *self is Text),
    {
        matches!(self, SearchMode::All | SearchMode::Text)
    }
}

/// `n` divided by 3, rounded up.
pub open spec fn div_ceil3(n: nat) -> nat {
    (n + 2) / 3
}

/// How many results of each kind a single-query search with a result limit
/// asks for: the limit itself, or, when all kinds are searched, a third of
/// it rounded up.
pub fn results_per_type(mode: SearchMode, max_results: usize) -> (r: usize)
    ensures
        mode is All ==> r == div_ceil3(max_results as nat),
        !(mode is All) ==> r == max_results,
{
    match mode {
        SearchMode::All => {
            let q = max_results / 3;
            if max_results % 3 == 0 {
                q
            } else {
                q + 1
            }
        },
        _ => max_results,
    }
}

// ---------------------------------------------------------------------------
// Limits and thresholds on merged results
// ---------------------------------------------------------------------------

/// The first `n` elements of `s`, or all of them.
pub open spec fn truncated<T>(s: Seq<T>, n: nat) -> Seq<T> {
    if s.len() <= n {
        s
    } else {
        s.take(n as int)
    }
}

/// Whether a block passes the distance threshold (in millionths).
pub open spec fn passes<B: ResultBlock>(threshold: int) -> spec_fn(B) -> bool {
    |b: B| within_threshold(b.dist(), threshold)
}

proof fn lemma_filter_push<T>(s: Seq<T>, x: T, f: spec_fn(T) -> bool)
    ensures
        s.push(x).filter(f) == (if f(x) {
            s.filter(f).push(x)
        } else {
            s.filter(f)
        }),
{
    reveal(Seq::filter);
    assert(s.push(x).drop_last() =~= s);
}

/// Keeps the blocks whose distance is within `distance_threshold` (in
/// millionths), and those without a distance, in their order.
pub fn retain_within_threshold<B: ResultBlock>(blocks: Vec<B>, distance_threshold: i64) -> (r: Vec<B>)
    ensures
        r@ == blocks@.filter(passes::<B>(distance_threshold as int)),
{
    let ghost f = passes::<B>(distance_threshold as int);
    let ghost bs = blocks@;
    let mut out: Vec<B> = Vec::new();
    assert(bs.take(0).filter(f) =~= Seq::<B>::empty()) by {
        reveal(Seq::filter);
    }
    for b in it: blocks
        invariant
            it.seq() == bs,
            f == passes::<B>(distance_threshold as int),
            out@ == bs.take(it.index() as int).filter(f),
    {
        let ghost k = it.index();
        proof {
            assert(bs.take(k + 1) =~= bs.take(k as int).push(b));
            lemma_filter_push(bs.take(k as int), b, f);
        }
        let keep = match b.distance_of() {
            Some(d) => (d as i128) <= (distance_threshold as i128),
            None => true,
        };
        if keep {
            out.push(b);
        }
    }
    assert(bs.take(bs.len() as int) =~= bs);
    out
}

/// Retention by the threshold keeps every block that passes it, in order,
/// and only those: each kept block passes, and each block that passes is
/// kept.
pub proof fn law_retention<B: ResultBlock>(blocks: Seq<B>, threshold: int)
    ensures
        forall|i: int|
            0 <= i < blocks.filter(passes::<B>(threshold)).len() ==> within_threshold(
                (#[trigger] blocks.filter(passes::<B>(threshold))[i]).dist(),
                threshold,
            ),
        forall|i: int|
            0 <= i < blocks.len() && within_threshold(blocks[i].dist(), threshold) ==> #[trigger] blocks.filter(
                passes::<B>(threshold),
            ).contains(blocks[i]),
        blocks.filter(passes::<B>(threshold)).len() <= blocks.len(),
{
    broadcast use vstd::seq_lib::group_filter_ensures;

    let f = passes::<B>(threshold);
    assert forall|i: int| 0 <= i < blocks.filter(f).len() implies within_threshold(
        (#[trigger] blocks.filter(f)[i]).dist(),
        threshold,
    ) by {
        assert(f(blocks.filter(f)[i]));
    }
    assert forall|i: int| 0 <= i < blocks.len() && within_threshold(blocks[i].dist(), threshold) implies #[trigger] blocks.filter(
        f,
    ).contains(blocks[i]) by {
        assert(f(blocks[i]));
    }
}

/// The merged results of several queries, each list cut to `max_results`.
pub open spec fn limited_results(
    results: Seq<QuerySearchResult>,
    total: nat,
    threshold: int,
    shift: bool,
    max_results: nat,
) -> (Seq<CodeBlock>, Seq<DocumentBlock>, Seq<TextBlock>) {
    (
        truncated(final_results(merged_code(results, shift), total, threshold), max_results),
        truncated(final_results(merged_docs(results, shift), total, threshold), max_results),
        truncated(final_results(merged_texts(results, shift), total, threshold), max_results),
    )
}

/// Merges the results of several queries (`deduplicate_and_merge_results`)
/// and keeps at most `max_results` blocks of each kind.
pub fn merge_and_limit(
    search_results: Vec<QuerySearchResult>,
    queries: &[String],
    distance_threshold: i64,
    max_results: usize,
) -> (r: (Vec<CodeBlock>, Vec<DocumentBlock>, Vec<TextBlock>))
    requires
        replacements_fit(search_results@),
    ensures
        (r.0@, r.1@, r.2@) == limited_results(
            search_results@,
            queries@.len(),
            distance_threshold as int,
            true,
            max_results as nat,
        ),
{
    let (mut code, mut docs, mut texts) = deduplicate_and_merge_results(
        search_results,
        queries,
        distance_threshold,
    );
    code.truncate(max_results);
    docs.truncate(max_results);
    texts.truncate(max_results);
    (code, docs, texts)
}

/// Merges the results of several queries for the MCP server
/// (`deduplicate_and_merge_results_mcp`) and keeps at most `max_results`
/// blocks of each kind.
pub fn merge_and_limit_mcp(
    search_results: Vec<QuerySearchResult>,
    queries: &[String],
    distance_threshold: i64,
    max_results: usize,
) -> (r: (Vec<CodeBlock>, Vec<DocumentBlock>, Vec<TextBlock>))
    ensures
        (r.0@, r.1@, r.2@) == limited_results(
            search_results@,
            queries@.len(),
            distance_threshold as int,
            false,
            max_results as nat,
        ),
{
    let (mut code, mut docs, mut texts) = deduplicate_and_merge_results_mcp(
        search_results,
        queries,
        distance_threshold,
    );
    code.truncate(max_results);
    docs.truncate(max_results);
    texts.truncate(max_results);
    (code, docs, texts)
}

// ---------------------------------------------------------------------------
// Results as text, by mode
// ---------------------------------------------------------------------------

/// The plain-text report of a search in `mode`.
pub open spec fn mode_text_output(
    mode: SearchMode,
    detail: Seq<char>,
    code: Seq<CodeBlock>,
    text: Seq<TextBlock>,
    docs: Seq<DocumentBlock>,
) -> Seq<char> {
    match mode {
        SearchMode::Code => code_results_text(code, detail),
        SearchMode::Text => text_results_text(text, detail),
        SearchMode::Docs => doc_results_text(docs, detail),
        SearchMode::All => combined_results_text(code, text, docs, detail),
    }
}

/// Formats the results of a search in `mode` as plain text.
pub fn format_results_as_text(
    mode: SearchMode,
    detail_level: &str,
    code_blocks: &[CodeBlock],
    text_blocks: &[TextBlock],
    doc_blocks: &[DocumentBlock],
) -> (r: String)
    ensures
        r@ == mode_text_output(mode, detail_level@, code_blocks@, text_blocks@, doc_blocks@),
{
    match mode {
        SearchMode::Code => format_code_search_results_as_text(code_blocks, detail_level),
        SearchMode::Text => format_text_search_results_as_text(text_blocks, detail_level),
        SearchMode::Docs => format_doc_search_results_as_text(doc_blocks, detail_level),
        SearchMode::All => format_combined_search_results_as_text(
            code_blocks,
            text_blocks,
            doc_blocks,
            detail_level,
        ),
    }
}

/// The Markdown report of a search in `mode`; `detail` decides, for code,
/// whether only previews are shown.
pub open spec fn mode_markdown_output(
    mode: SearchMode,
    signatures: bool,
    code: Seq<CodeBlock>,
    text: Seq<TextBlock>,
    docs: Seq<DocumentBlock>,
) -> Seq<char> {
    match mode {
        SearchMode::Code => code_results_md(code, signatures),
        SearchMode::Text => text_results_md(text),
        SearchMode::Docs => doc_results_md(docs),
        SearchMode::All => combined_results_md(code, text, docs, signatures),
    }
}

/// Formats the results of a search in `mode` as Markdown, code with the
/// given detail level.
pub fn format_results_as_markdown_with_detail(
    mode: SearchMode,
    detail_level: &str,
    code_blocks: &[CodeBlock],
    text_blocks: &[TextBlock],
    doc_blocks: &[DocumentBlock],
) -> (r: String)
    ensures
        r@ == mode_markdown_output(
            mode,
            detail_level@ == "signatures"@,
            code_blocks@,
            text_blocks@,
            doc_blocks@,
        ),
{
    match mode {
        SearchMode::Code => format_code_search_results_with_detail(code_blocks, detail_level),
        SearchMode::Text => format_text_search_results_as_markdown(text_blocks),
        SearchMode::Docs => format_doc_search_results_as_markdown(doc_blocks),
        SearchMode::All => format_combined_search_results_with_detail(
            code_blocks,
            text_blocks,
            doc_blocks,
            detail_level,
        ),
    }
}

/// Formats the results of a search in `mode` as Markdown, code in full.
pub fn format_results_as_markdown(
    mode: SearchMode,
    code_blocks: &[CodeBlock],
    text_blocks: &[TextBlock],
    doc_blocks: &[DocumentBlock],
) -> (r: String)
    ensures
        r@ == mode_markdown_output(mode, false, code_blocks@, text_blocks@, doc_blocks@),
{
    match mode {
        SearchMode::Code => format_code_search_results_as_markdown(code_blocks),
        SearchMode::Text => format_text_search_results_as_markdown(text_blocks),
        SearchMode::Docs => format_doc_search_results_as_markdown(doc_blocks),
        SearchMode::All => format_combined_search_results_as_markdown(
            code_blocks,
            text_blocks,
            doc_blocks,
        ),
    }
}

// ---------------------------------------------------------------------------
// Multi-query searches of the MCP server, after the store has answered
// ---------------------------------------------------------------------------

/// What a multi-query search returns as plain text.
pub open spec fn multi_query_text(
    results: Seq<QuerySearchResult>,
    total: nat,
    threshold: int,
    max_results: nat,
    mode: Seq<char>,
    detail: Seq<char>,
) -> Result<Seq<char>, Seq<char>> {
    let (code, docs, text) = limited_results(results, total, threshold, true, max_results);
    match search_mode_of(mode) {
        Some(m) => Ok(mode_text_output(m, detail, code, text, docs)),
        None => Err(search_mode_error(mode)),
    }
}

/// Finishes a multi-query search that reports plain text: merges the
/// results of the queries, keeps at most `max_results` of each kind and
/// formats them for `mode`; an unknown mode is refused.
pub fn finish_multi_query_text(
    search_results: Vec<QuerySearchResult>,
    queries: &[String],
    distance_threshold: i64,
    max_results: usize,
    mode: &str,
    detail_level: &str,
) -> (r: Result<String, String>)
    requires
        replacements_fit(search_results@),
    ensures
        match r {
            Ok(s) => multi_query_text(
                search_results@,
                queries@.len(),
                distance_threshold as int,
                max_results as nat,
                mode@,
                detail_level@,
            ) == Ok::<Seq<char>, Seq<char>>(s@),
            Err(e) => multi_query_text(
                search_results@,
                queries@.len(),
                distance_threshold as int,
                max_results as nat,
                mode@,
                detail_level@,
            ) == Err::<Seq<char>, Seq<char>>(e@),
        },
{
    let (code, docs, texts) = merge_and_limit(
        search_results,
        queries,
        distance_threshold,
        max_results,
    );
    match parse_search_mode(mode) {
        Ok(m) => {
            Ok(format_results_as_text(m, detail_level, code.as_slice(), texts.as_slice(), docs.as_slice()))
        },
        Err(e) => Err(e),
    }
}

/// What a multi-query search of the MCP server returns as Markdown.
pub open spec fn multi_query_markdown(
    results: Seq<QuerySearchResult>,
    total: nat,
    threshold: int,
    max_results: nat,
    mode: Seq<char>,
    detail: Seq<char>,
) -> Result<Seq<char>, Seq<char>> {
    let (code, docs, text) = limited_results(results, total, threshold, false, max_results);
    match search_mode_of(mode) {
        Some(m) => Ok(mode_markdown_output(m, detail == "signatures"@, code, text, docs)),
        None => Err(search_mode_error(mode)),
    }
}

/// Finishes a multi-query search of the MCP server that reports Markdown:
/// merges the results of the queries, keeps at most `max_results` of each
/// kind and formats them for `mode`; an unknown mode is refused.
pub fn finish_multi_query_markdown(
    search_results: Vec<QuerySearchResult>,
    queries: &[String],
    distance_threshold: i64,
    max_results: usize,
    mode: &str,
    detail_level: &str,
) -> (r: Result<String, String>)
    ensures
        match r {
            Ok(s) => multi_query_markdown(
                search_results@,
                queries@.len(),
                distance_threshold as int,
                max_results as nat,
                mode@,
                detail_level@,
            ) == Ok::<Seq<char>, Seq<char>>(s@),
            Err(e) => multi_query_markdown(
                search_results@,
                queries@.len(),
                distance_threshold as int,
                max_results as nat,
                mode@,
                detail_level@,
            ) == Err::<Seq<char>, Seq<char>>(e@),
        },
{
    let (code, docs, texts) = merge_and_limit_mcp(
        search_results,
        queries,
        distance_threshold,
        max_results,
    );
    match parse_search_mode(mode) {
        Ok(m) => Ok(
            format_results_as_markdown_with_detail(
                m,
                detail_level,
                code.as_slice(),
                texts.as_slice(),
                docs.as_slice(),
            ),
        ),
        Err(e) => Err(e),
    }
}

// ---------------------------------------------------------------------------
// The search command's report on the terminal
// ---------------------------------------------------------------------------

/// The terminal listing of results of all kinds: documentation, then code,
/// then text, each under a banner; a note when there are none.
pub open spec fn all_cli_output(
    code: Seq<CodeBlock>,
    docs: Seq<DocumentBlock>,
    text: Seq<TextBlock>,
    detail: Seq<char>,
) -> Seq<char> {
    (if docs.len() > 0 {
        "=== DOCUMENTATION RESULTS ===\n\n"@ + cli_doc_blocks(docs, detail) + "\n\n"@
    } else {
        seq![]
    }) + (if code.len() > 0 {
        "=== CODE RESULTS ===\n\n"@ + cli_code_blocks(code, detail) + "\n\n"@
    } else {
        seq![]
    }) + (if text.len() > 0 {
        "=== TEXT RESULTS ===\n\n"@ + cli_text_blocks(text, detail)
    } else {
        seq![]
    }) + (if docs.len() == 0 && code.len() == 0 && text.len() == 0 {
        "No results found for the query.\n"@
    } else {
        seq![]
    })
}

/// What the search command prints for `mode` and `format`; nothing for JSON
/// and Markdown, which are written elsewhere.
pub open spec fn command_output(
    mode: SearchMode,
    format: OutputFormat,
    detail: Seq<char>,
    code: Seq<CodeBlock>,
    docs: Seq<DocumentBlock>,
    text: Seq<TextBlock>,
) -> Option<Seq<char>> {
    if format is Json || format is Md {
        None
    } else {
        Some(
            match mode {
                SearchMode::Code => if format is Compact {
                    compact_blocks(code)
                } else if format is Text {
                    code_results_text(code, detail) + "\n"@
                } else {
                    cli_code_blocks(code, detail)
                },
                SearchMode::Docs => if format is Text {
                    doc_results_text(docs, detail) + "\n"@
                } else {
                    cli_doc_blocks(docs, detail)
                },
                SearchMode::Text => if format is Text {
                    text_results_text(text, detail) + "\n"@
                } else {
                    cli_text_blocks(text, detail)
                },
                SearchMode::All => if format is Text {
                    combined_results_text(code, text, docs, detail) + "\n"@
                } else if format is Compact {
                    if code.len() > 0 {
                        compact_blocks(code)
                    } else {
                        "No results found.\n"@
                    }
                } else {
                    all_cli_output(code, docs, text, detail)
                },
            },
        )
    }
}

/// What the search command prints for its final results, by mode and
/// output format; `None` for JSON and Markdown.
pub fn render_search_command_output(
    mode: SearchMode,
    format: OutputFormat,
    detail_level: &str,
    code_blocks: &[CodeBlock],
    doc_blocks: &[DocumentBlock],
    text_blocks: &[TextBlock],
) -> (r: Option<String>)
    ensures
        r matches Some(s) ==> command_output(
            mode,
            format,
            detail_level@,
            code_blocks@,
            doc_blocks@,
            text_blocks@,
        ) == Some(s@),
        r is None ==> command_output(
            mode,
            format,
            detail_level@,
            code_blocks@,
            doc_blocks@,
            text_blocks@,
        ) is None,
{
    if format.is_json() || format.is_md() {
        return None;
    }
    let mut out = String::new();
    match mode {
        SearchMode::Code => {
            if format.is_compact() {
                out = render_code_blocks_compact(code_blocks);
            } else if format.is_text() {
                out = format_code_search_results_as_text(code_blocks, detail_level);
                push_str(&mut out, "\n");
            } else {
                out = render_code_blocks_with_config(code_blocks, detail_level);
            }
        },
        SearchMode::Docs => {
            if format.is_text() {
                out = format_doc_search_results_as_text(doc_blocks, detail_level);
                push_str(&mut out, "\n");
            } else {
                out = render_document_blocks_with_config(doc_blocks, detail_level);
            }
        },
        SearchMode::Text => {
            if format.is_text() {
                out = format_text_search_results_as_text(text_blocks, detail_level);
                push_str(&mut out, "\n");
            } else {
                out = render_text_blocks_with_config(text_blocks, detail_level);
            }
        },
        SearchMode::All => {
            if format.is_text() {
                out = format_combined_search_results_as_text(
                    code_blocks,
                    text_blocks,
                    doc_blocks,
                    detail_level,
                );
                push_str(&mut out, "\n");
            } else if format.is_compact() {
                if code_blocks.len() > 0 {
                    out = render_code_blocks_compact(code_blocks);
                } else {
                    push_str(&mut out, "No results found.\n");
                }
            } else {
                let ghost s0 = out@;
                if doc_blocks.len() > 0 {
                    push_str(&mut out, "=== DOCUMENTATION RESULTS ===\n\n");
                    let part = render_document_blocks_with_config(doc_blocks, detail_level);
                    push_str(&mut out, part.as_str());
                    push_str(&mut out, "\n\n");
                }
                let ghost s1 = out@;
                if code_blocks.len() > 0 {
                    push_str(&mut out, "=== CODE RESULTS ===\n\n");
                    let part = render_code_blocks_with_config(code_blocks, detail_level);
                    push_str(&mut out, part.as_str());
                    push_str(&mut out, "\n\n");
                }
                let ghost s2 = out@;
                if text_blocks.len() > 0 {
                    push_str(&mut out, "=== TEXT RESULTS ===\n\n");
                    let part = render_text_blocks_with_config(text_blocks, detail_level);
                    push_str(&mut out, part.as_str());
                }
                let ghost s3 = out@;
                if doc_blocks.len() == 0 && code_blocks.len() == 0 && text_blocks.len() == 0 {
                    push_str(&mut out, "No results found for the query.\n");
                }
                assert(out@ =~= all_cli_output(code_blocks@, doc_blocks@, text_blocks@, detail_level@));
            }
        },
    }
    Some(out)
}

} // verus!
