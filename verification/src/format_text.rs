use vstd::prelude::*;
use crate::blocks::{CodeBlock, DocumentBlock, TextBlock};
use crate::preview::{
    code_preview_with_lines, get_code_preview_with_lines, get_text_preview_with_lines,
    numbered_range, text_preview,
};
use crate::symbols::{display_symbol_list, display_symbols};
use crate::text::{
    char_views, chars_eq, decimal, ends_with_char, fixed_decimal, join, lines_of, push_char,
    push_decimal, push_fixed, push_joined, push_str, split_lines, to_chars,
};

verus! {

broadcast use vstd::seq_lib::group_seq_properties;

// ---------------------------------------------------------------------------
// Shared pieces
// ---------------------------------------------------------------------------

/// The similarity `1 - distance` (in millionths) of a distance.
pub open spec fn similarity(d: u64) -> int {
    1_000_000 - d
}

/// Appends the similarity of distance `d` with `decimals` digits after the
/// point.
pub fn push_similarity(out: &mut String, d: u64, decimals: u32)
    requires
        decimals <= 6,
    ensures
        final(out)@ == old(out)@ + fixed_decimal(similarity(d), decimals as nat),
{
    if d > 1_000_000 {
        push_fixed(out, true, (d - 1_000_000) as u128, decimals);
    } else {
        push_fixed(out, false, (1_000_000 - d) as u128, decimals);
    }
}

/// Whether the detail level is the given one.
pub fn detail_is(detail_level: &str, name: &str) -> (r: bool)
    ensures
        r == (detail_level@ == name@),
{
    let a = to_chars(detail_level);
    let b = to_chars(name);
    chars_eq(a.as_slice(), b.as_slice())
}

/// `s` followed by a newline unless it already ends with one.
pub open spec fn with_final_newline(s: Seq<char>) -> Seq<char> {
    if ends_with_char(s, '\n') {
        s
    } else {
        s + "\n"@
    }
}

fn push_with_final_newline(out: &mut String, s: &String)
    ensures
        final(out)@ == old(out)@ + with_final_newline(s@),
{
    push_str(out, s.as_str());
    let chars = to_chars(s.as_str());
    let n = chars.len();
    if !(n > 0 && chars[n - 1] == '\n') {
        push_str(out, "\n");
    }
}

/// The first line of `s` and a newline, when `s` is not empty.
pub open spec fn first_line_of(s: Seq<char>) -> Seq<char> {
    if s.len() > 0 && lines_of(s).len() > 0 {
        lines_of(s)[0] + "\n"@
    } else {
        seq![]
    }
}

fn push_first_line(out: &mut String, s: &String)
    ensures
        final(out)@ == old(out)@ + first_line_of(s@),
{
    let chars = to_chars(s.as_str());
    if chars.len() > 0 {
        let lines = split_lines(chars.as_slice());
        if lines.len() > 0 {
            assert(lines@[0]@ == char_views(lines@)[0]);
            crate::text::push_chars(out, lines[0].as_slice());
            push_str(out, "\n");
        }
    }
}

/// All lines of `content`, numbered from `start_line`, joined by newlines.
pub open spec fn numbered_content(content: Seq<char>, start_line: nat) -> Seq<char> {
    join(numbered_range(lines_of(content), 0, lines_of(content).len() as int, start_line), "\n"@)
}

/// All lines of `content`, numbered from `start_line`.
pub fn numbered_content_string(content: &str, start_line: usize) -> (r: String)
    ensures
        r@ == numbered_content(content@, start_line as nat),
{
    let chars = to_chars(content);
    let lines = split_lines(chars.as_slice());
    let mut parts: Vec<String> = Vec::new();
    crate::preview::push_numbered_lines(&mut parts, &lines, 0, lines.len(), start_line);
    assert(crate::preview::string_views(parts@) =~= numbered_range(
        char_views(lines@),
        0,
        lines@.len() as int,
        start_line as nat,
    ));
    crate::preview::join_parts(&parts)
}

/// The similarity part of an entry's header line: `" | Similarity 0.875"`.
pub open spec fn similarity_suffix(d: Option<u64>) -> Seq<char> {
    match d {
        Some(x) => " | Similarity "@ + fixed_decimal(similarity(x), 3),
        None => seq![],
    }
}

fn push_similarity_suffix(out: &mut String, d: Option<u64>)
    ensures
        final(out)@ == old(out)@ + similarity_suffix(d),
{
    if let Some(x) = d {
        push_str(out, " | Similarity ");
        push_similarity(out, x, 3);
    }
}

/// The content part of an entry for a detail level; `preview` is the
/// preview of the content and `full` the numbered content.
pub open spec fn detail_text(detail: Seq<char>, preview: Seq<char>, full: Seq<char>) -> Seq<char> {
    if detail == "signatures"@ {
        first_line_of(preview)
    } else if detail == "partial"@ {
        with_final_newline(preview)
    } else if detail == "full"@ {
        with_final_newline(full)
    } else {
        seq![]
    }
}

#[verifier::rlimit(40)]
fn push_detail(out: &mut String, detail_level: &str, preview: &String, content: &str, start_line: usize)
    ensures
        final(out)@ == old(out)@ + detail_text(
            detail_level@,
            preview@,
            numbered_content(content@, start_line as nat),
        ),
{
    if detail_is(detail_level, "signatures") {
        push_first_line(out, preview);
    } else if detail_is(detail_level, "partial") {
        push_with_final_newline(out, preview);
    } else if detail_is(detail_level, "full") {
        let full = numbered_content_string(content, start_line);
        push_with_final_newline(out, &full);
    }
}

/// The symbols line of a code entry.
pub open spec fn symbols_text(symbols: Seq<Seq<char>>) -> Seq<char> {
    if symbols.len() > 0 && display_symbols(symbols).len() > 0 {
        "Symbols: "@ + join(display_symbols(symbols), ", "@) + "\n"@
    } else {
        seq![]
    }
}

fn push_symbols_line(out: &mut String, symbols: &Vec<String>)
    ensures
        final(out)@ == old(out)@ + symbols_text(symbols@.map_values(|s: String| s@)),
{
    if symbols.len() > 0 {
        let shown = display_symbol_list(symbols);
        if shown.len() > 0 {
            push_str(out, "Symbols: ");
            push_joined(out, shown.as_slice(), ", ");
            push_str(out, "\n");
        }
    }
}

// ---------------------------------------------------------------------------
// Code results
// ---------------------------------------------------------------------------

/// One code result, numbered `i + 1`.
pub open spec fn code_text_entry(i: nat, b: CodeBlock, detail: Seq<char>) -> Seq<char> {
    decimal(i + 1) + ". "@ + b.path@ + "\n"@ + "Lines: "@ + decimal(b.start_line as nat) + "-"@
        + decimal(b.end_line as nat) + similarity_suffix(b.distance) + "\n"@ + symbols_text(
        b.symbols@.map_values(|s: String| s@),
    ) + detail_text(
        detail,
        code_preview_with_lines(b.content@, b.start_line as nat),
        numbered_content(b.content@, b.start_line as nat),
    ) + "\n"@
}

/// The first `n` code results.
pub open spec fn code_text_entries(blocks: Seq<CodeBlock>, detail: Seq<char>, n: nat) -> Seq<char>
    decreases n,
{
    if n == 0 || n > blocks.len() {
        seq![]
    } else {
        code_text_entries(blocks, detail, (n - 1) as nat) + code_text_entry(
            (n - 1) as nat,
            blocks[n - 1],
            detail,
        )
    }
}

/// The plain text listing of code results.
pub open spec fn code_results_text(blocks: Seq<CodeBlock>, detail: Seq<char>) -> Seq<char> {
    if blocks.len() == 0 {
        "No code results found."@
    } else {
        "CODE RESULTS ("@ + decimal(blocks.len()) + ")\n"@ + code_text_entries(
            blocks,
            detail,
            blocks.len(),
        )
    }
}

#[verifier::rlimit(80)]
fn push_code_text_entry(out: &mut String, i: usize, b: &CodeBlock, detail_level: &str)
    requires
        i < usize::MAX,
    ensures
        final(out)@ == old(out)@ + code_text_entry(i as nat, *b, detail_level@),
{
    let ghost s0 = out@;
    push_decimal(out, i as u128 + 1);
    push_str(out, ". ");
    push_str(out, b.path.as_str());
    push_str(out, "\n");
    push_str(out, "Lines: ");
    push_decimal(out, b.start_line as u128);
    push_str(out, "-");
    push_decimal(out, b.end_line as u128);
    push_similarity_suffix(out, b.distance);
    push_str(out, "\n");
    push_symbols_line(out, &b.symbols);
    let preview = get_code_preview_with_lines(b.content.as_str(), b.start_line, b.language.as_str());
    push_detail(out, detail_level, &preview, b.content.as_str(), b.start_line);
    push_str(out, "\n");
    assert(out@ =~= s0 + code_text_entry(i as nat, *b, detail_level@));
}

/// Formats code results as plain text, with the content shown as the
/// detail level asks (`signatures`, `partial` or `full`).
#[verifier::rlimit(40)]
pub fn format_code_search_results_as_text(blocks: &[CodeBlock], detail_level: &str) -> (r: String)
    ensures
        r@ == code_results_text(blocks@, detail_level@),
{
    if blocks.len() == 0 {
        return "No code results found.".to_owned();
    }
    let mut out = String::new();
    push_str(&mut out, "CODE RESULTS (");
    push_decimal(&mut out, blocks.len() as u128);
    push_str(&mut out, ")\n");
    let ghost head = out@;
    for i in 0..blocks.len()
        invariant
            out@ == head + code_text_entries(blocks@, detail_level@, i as nat),
    {
        push_code_text_entry(&mut out, i, &blocks[i], detail_level);
    }
    out
}

/// Each of the first `n` code results sits in the listing of the first
/// `m >= n` ones where the first `n` end.
proof fn lemma_code_text_entries_prefix(blocks: Seq<CodeBlock>, detail: Seq<char>, n: nat, m: nat)
    requires
        n <= m <= blocks.len(),
    ensures
        code_text_entries(blocks, detail, n).len() <= code_text_entries(blocks, detail, m).len(),
        code_text_entries(blocks, detail, m).subrange(0, code_text_entries(blocks, detail, n).len() as int)
            == code_text_entries(blocks, detail, n),
    decreases m,
{
    if n < m {
        lemma_code_text_entries_prefix(blocks, detail, n, (m - 1) as nat);
        let p = code_text_entries(blocks, detail, (m - 1) as nat);
        let q = code_text_entries(blocks, detail, n);
        assert((p + code_text_entry((m - 1) as nat, blocks[m - 1], detail)).subrange(0, q.len() as int)
            =~= p.subrange(0, q.len() as int));
    }
}

/// The plain text listing of code results lists every result, in order and
/// numbered from 1, after a header that counts them, and nothing else: the
/// entry of result `i` starts where those of the results before it end, and
/// the last one ends the listing. Without results it is a short note.
pub proof fn law_code_listing_text(blocks: Seq<CodeBlock>, detail: Seq<char>)
    ensures
        blocks.len() == 0 ==> code_results_text(blocks, detail) == "No code results found."@,
        blocks.len() > 0 ==> {
            let out = code_results_text(blocks, detail);
            let h = "CODE RESULTS ("@ + decimal(blocks.len()) + ")\n"@;
            &&& out.subrange(0, h.len() as int) == h
            &&& code_text_entries(blocks, detail, 0).len() == 0
            &&& forall|i: int|
                0 <= i < blocks.len() ==> code_text_entries(blocks, detail, (i + 1) as nat).len()
                    == code_text_entries(blocks, detail, i as nat).len() + code_text_entry(
                    i as nat,
                    #[trigger] blocks[i],
                    detail,
                ).len()
            &&& forall|i: int|
                0 <= i < blocks.len() ==> out.subrange(
                    (h.len() + code_text_entries(blocks, detail, i as nat).len()) as int,
                    (h.len() + code_text_entries(blocks, detail, (i + 1) as nat).len()) as int,
                ) == code_text_entry(i as nat, #[trigger] blocks[i], detail)
            &&& out.len() == h.len() + code_text_entries(blocks, detail, blocks.len()).len()
        },
{
    let n = blocks.len();
    if n > 0 {
        let h = "CODE RESULTS ("@ + decimal(n) + ")\n"@;
        let all = code_text_entries(blocks, detail, n);
        let out = code_results_text(blocks, detail);
        assert(out == h + all);
        assert(out.subrange(0, h.len() as int) =~= h);
        assert forall|i: int| 0 <= i < n implies out.subrange(
            (h.len() + code_text_entries(blocks, detail, i as nat).len()) as int,
            (h.len() + code_text_entries(blocks, detail, (i + 1) as nat).len()) as int,
        ) == code_text_entry(i as nat, #[trigger] blocks[i], detail) by {
            lemma_code_text_entries_prefix(blocks, detail, (i + 1) as nat, n);
            let a = code_text_entries(blocks, detail, i as nat);
            let e = code_text_entry(i as nat, blocks[i], detail);
            let b = code_text_entries(blocks, detail, (i + 1) as nat);
            assert(b == a + e);
            assert(all.subrange(0, b.len() as int) == b);
            assert(out.subrange((h.len() + a.len()) as int, (h.len() + b.len()) as int) =~= all.subrange(a.len() as int, b.len() as int));
            assert(all.subrange(a.len() as int, b.len() as int) =~= b.subrange(a.len() as int, b.len() as int));
            assert(b.subrange(a.len() as int, b.len() as int) =~= e);
        }
    }
}

// ---------------------------------------------------------------------------
// Text results
// ---------------------------------------------------------------------------

/// One text result, numbered `i + 1`.
pub open spec fn text_text_entry(i: nat, b: TextBlock, detail: Seq<char>) -> Seq<char> {
    decimal(i + 1) + ". "@ + b.path@ + "\n"@ + "Lines: "@ + decimal(b.start_line as nat) + "-"@
        + decimal(b.end_line as nat) + similarity_suffix(b.distance) + "\n"@ + detail_text(
        detail,
        text_preview(b.content@, b.start_line as nat),
        numbered_content(b.content@, b.start_line as nat),
    ) + "\n"@
}

/// The first `n` text results.
pub open spec fn text_text_entries(blocks: Seq<TextBlock>, detail: Seq<char>, n: nat) -> Seq<char>
    decreases n,
{
    if n == 0 || n > blocks.len() {
        seq![]
    } else {
        text_text_entries(blocks, detail, (n - 1) as nat) + text_text_entry(
            (n - 1) as nat,
            blocks[n - 1],
            detail,
        )
    }
}

/// The plain text listing of text results.
pub open spec fn text_results_text(blocks: Seq<TextBlock>, detail: Seq<char>) -> Seq<char> {
    if blocks.len() == 0 {
        "No text results found."@
    } else {
        "TEXT RESULTS ("@ + decimal(blocks.len()) + ")\n"@ + text_text_entries(
            blocks,
            detail,
            blocks.len(),
        )
    }
}

#[verifier::rlimit(80)]
fn push_text_text_entry(out: &mut String, i: usize, b: &TextBlock, detail_level: &str)
    requires
        i < usize::MAX,
    ensures
        final(out)@ == old(out)@ + text_text_entry(i as nat, *b, detail_level@),
{
    let ghost s0 = out@;
    push_decimal(out, i as u128 + 1);
    push_str(out, ". ");
    push_str(out, b.path.as_str());
    push_str(out, "\n");
    push_str(out, "Lines: ");
    push_decimal(out, b.start_line as u128);
    push_str(out, "-");
    push_decimal(out, b.end_line as u128);
    push_similarity_suffix(out, b.distance);
    push_str(out, "\n");
    let preview = get_text_preview_with_lines(b.content.as_str(), b.start_line);
    push_detail(out, detail_level, &preview, b.content.as_str(), b.start_line);
    push_str(out, "\n");
    assert(out@ =~= s0 + text_text_entry(i as nat, *b, detail_level@));
}

/// Formats text results as plain text, with the content shown as the
/// detail level asks.
#[verifier::rlimit(40)]
pub fn format_text_search_results_as_text(blocks: &[TextBlock], detail_level: &str) -> (r: String)
    ensures
        r@ == text_results_text(blocks@, detail_level@),
{
    if blocks.len() == 0 {
        return "No text results found.".to_owned();
    }
    let mut out = String::new();
    push_str(&mut out, "TEXT RESULTS (");
    push_decimal(&mut out, blocks.len() as u128);
    push_str(&mut out, ")\n");
    let ghost head = out@;
    for i in 0..blocks.len()
        invariant
            out@ == head + text_text_entries(blocks@, detail_level@, i as nat),
    {
        push_text_text_entry(&mut out, i, &blocks[i], detail_level);
    }
    out
}

/// Each of the first `n` text results sits in the listing of the first
/// `m >= n` ones where the first `n` end.
proof fn lemma_text_text_entries_prefix(blocks: Seq<TextBlock>, detail: Seq<char>, n: nat, m: nat)
    requires
        n <= m <= blocks.len(),
    ensures
        text_text_entries(blocks, detail, n).len() <= text_text_entries(blocks, detail, m).len(),
        text_text_entries(blocks, detail, m).subrange(0, text_text_entries(blocks, detail, n).len() as int)
            == text_text_entries(blocks, detail, n),
    decreases m,
{
    if n < m {
        lemma_text_text_entries_prefix(blocks, detail, n, (m - 1) as nat);
        let p = text_text_entries(blocks, detail, (m - 1) as nat);
        let q = text_text_entries(blocks, detail, n);
        assert((p + text_text_entry((m - 1) as nat, blocks[m - 1], detail)).subrange(0, q.len() as int)
            =~= p.subrange(0, q.len() as int));
    }
}

/// The plain text listing of text results lists every result, in order and
/// numbered from 1, after a header that counts them, and nothing else: the
/// entry of result `i` starts where those of the results before it end, and
/// the last one ends the listing. Without results it is a short note.
pub proof fn law_text_listing_text(blocks: Seq<TextBlock>, detail: Seq<char>)
    ensures
        blocks.len() == 0 ==> text_results_text(blocks, detail) == "No text results found."@,
        blocks.len() > 0 ==> {
            let out = text_results_text(blocks, detail);
            let h = "TEXT RESULTS ("@ + decimal(blocks.len()) + ")\n"@;
            &&& out.subrange(0, h.len() as int) == h
            &&& text_text_entries(blocks, detail, 0).len() == 0
            &&& forall|i: int|
                0 <= i < blocks.len() ==> text_text_entries(blocks, detail, (i + 1) as nat).len()
                    == text_text_entries(blocks, detail, i as nat).len() + text_text_entry(
                    i as nat,
                    #[trigger] blocks[i],
                    detail,
                ).len()
            &&& forall|i: int|
                0 <= i < blocks.len() ==> out.subrange(
                    (h.len() + text_text_entries(blocks, detail, i as nat).len()) as int,
                    (h.len() + text_text_entries(blocks, detail, (i + 1) as nat).len()) as int,
                ) == text_text_entry(i as nat, #[trigger] blocks[i], detail)
            &&& out.len() == h.len() + text_text_entries(blocks, detail, blocks.len()).len()
        },
{
    let n = blocks.len();
    if n > 0 {
        let h = "TEXT RESULTS ("@ + decimal(n) + ")\n"@;
        let all = text_text_entries(blocks, detail, n);
        let out = text_results_text(blocks, detail);
        assert(out == h + all);
        assert(out.subrange(0, h.len() as int) =~= h);
        assert forall|i: int| 0 <= i < n implies out.subrange(
            (h.len() + text_text_entries(blocks, detail, i as nat).len()) as int,
            (h.len() + text_text_entries(blocks, detail, (i + 1) as nat).len()) as int,
        ) == text_text_entry(i as nat, #[trigger] blocks[i], detail) by {
            lemma_text_text_entries_prefix(blocks, detail, (i + 1) as nat, n);
            let a = text_text_entries(blocks, detail, i as nat);
            let e = text_text_entry(i as nat, blocks[i], detail);
            let b = text_text_entries(blocks, detail, (i + 1) as nat);
            assert(b == a + e);
            assert(all.subrange(0, b.len() as int) == b);
            assert(out.subrange((h.len() + a.len()) as int, (h.len() + b.len()) as int) =~= all.subrange(a.len() as int, b.len() as int));
            assert(all.subrange(a.len() as int, b.len() as int) =~= b.subrange(a.len() as int, b.len() as int));
            assert(b.subrange(a.len() as int, b.len() as int) =~= e);
        }
    }
}

// ---------------------------------------------------------------------------
// Documentation results
// ---------------------------------------------------------------------------

/// One documentation result, numbered `i + 1`.
pub open spec fn doc_text_entry(i: nat, b: DocumentBlock, detail: Seq<char>) -> Seq<char> {
    decimal(i + 1) + ". "@ + b.path@ + "\n"@ + b.title@ + " (Level "@ + decimal(b.level as nat)
        + ")"@ + " | "@ + decimal(b.start_line as nat) + "-"@ + decimal(b.end_line as nat)
        + similarity_suffix(b.distance) + "\n"@ + detail_text(
        detail,
        text_preview(b.content@, b.start_line as nat),
        numbered_content(b.content@, b.start_line as nat),
    )
}

/// The first `n` documentation results.
pub open spec fn doc_text_entries(blocks: Seq<DocumentBlock>, detail: Seq<char>, n: nat) -> Seq<char>
    decreases n,
{
    if n == 0 || n > blocks.len() {
        seq![]
    } else {
        doc_text_entries(blocks, detail, (n - 1) as nat) + doc_text_entry(
            (n - 1) as nat,
            blocks[n - 1],
            detail,
        )
    }
}

/// The plain text listing of documentation results.
pub open spec fn doc_results_text(blocks: Seq<DocumentBlock>, detail: Seq<char>) -> Seq<char> {
    if blocks.len() == 0 {
        "No documentation results found."@
    } else {
        "DOCUMENTATION RESULTS ("@ + decimal(blocks.len()) + ")\n"@ + doc_text_entries(
            blocks,
            detail,
            blocks.len(),
        )
    }
}

#[verifier::rlimit(80)]
fn push_doc_text_entry(out: &mut String, i: usize, b: &DocumentBlock, detail_level: &str)
    requires
        i < usize::MAX,
    ensures
        final(out)@ == old(out)@ + doc_text_entry(i as nat, *b, detail_level@),
{
    let ghost s0 = out@;
    push_decimal(out, i as u128 + 1);
    push_str(out, ". ");
    push_str(out, b.path.as_str());
    push_str(out, "\n");
    push_str(out, b.title.as_str());
    push_str(out, " (Level ");
    push_decimal(out, b.level as u128);
    push_str(out, ")");
    push_str(out, " | ");
    push_decimal(out, b.start_line as u128);
    push_str(out, "-");
    push_decimal(out, b.end_line as u128);
    push_similarity_suffix(out, b.distance);
    push_str(out, "\n");
    let preview = get_text_preview_with_lines(b.content.as_str(), b.start_line);
    push_detail(out, detail_level, &preview, b.content.as_str(), b.start_line);
    assert(out@ =~= s0 + doc_text_entry(i as nat, *b, detail_level@));
}

/// Formats documentation results as plain text, with the content shown as
/// the detail level asks.
#[verifier::rlimit(40)]
pub fn format_doc_search_results_as_text(blocks: &[DocumentBlock], detail_level: &str) -> (r: String)
    ensures
        r@ == doc_results_text(blocks@, detail_level@),
{
    if blocks.len() == 0 {
        return "No documentation results found.".to_owned();
    }
    let mut out = String::new();
    push_str(&mut out, "DOCUMENTATION RESULTS (");
    push_decimal(&mut out, blocks.len() as u128);
    push_str(&mut out, ")\n");
    let ghost head = out@;
    for i in 0..blocks.len()
        invariant
            out@ == head + doc_text_entries(blocks@, detail_level@, i as nat),
    {
        push_doc_text_entry(&mut out, i, &blocks[i], detail_level);
    }
    out
}

/// Each of the first `n` documentation results sits in the listing of the first
/// `m >= n` ones where the first `n` end.
proof fn lemma_doc_text_entries_prefix(blocks: Seq<DocumentBlock>, detail: Seq<char>, n: nat, m: nat)
    requires
        n <= m <= blocks.len(),
    ensures
        doc_text_entries(blocks, detail, n).len() <= doc_text_entries(blocks, detail, m).len(),
        doc_text_entries(blocks, detail, m).subrange(0, doc_text_entries(blocks, detail, n).len() as int)
            == doc_text_entries(blocks, detail, n),
    decreases m,
{
    if n < m {
        lemma_doc_text_entries_prefix(blocks, detail, n, (m - 1) as nat);
        let p = doc_text_entries(blocks, detail, (m - 1) as nat);
        let q = doc_text_entries(blocks, detail, n);
        assert((p + doc_text_entry((m - 1) as nat, blocks[m - 1], detail)).subrange(0, q.len() as int)
            =~= p.subrange(0, q.len() as int));
    }
}

/// The plain text listing of documentation results lists every result, in order and
/// numbered from 1, after a header that counts them, and nothing else: the
/// entry of result `i` starts where those of the results before it end, and
/// the last one ends the listing. Without results it is a short note.
pub proof fn law_doc_listing_text(blocks: Seq<DocumentBlock>, detail: Seq<char>)
    ensures
        blocks.len() == 0 ==> doc_results_text(blocks, detail) == "No documentation results found."@,
        blocks.len() > 0 ==> {
            let out = doc_results_text(blocks, detail);
            let h = "DOCUMENTATION RESULTS ("@ + decimal(blocks.len()) + ")\n"@;
            &&& out.subrange(0, h.len() as int) == h
            &&& doc_text_entries(blocks, detail, 0).len() == 0
            &&& forall|i: int|
                0 <= i < blocks.len() ==> doc_text_entries(blocks, detail, (i + 1) as nat).len()
                    == doc_text_entries(blocks, detail, i as nat).len() + doc_text_entry(
                    i as nat,
                    #[trigger] blocks[i],
                    detail,
                ).len()
            &&& forall|i: int|
                0 <= i < blocks.len() ==> out.subrange(
                    (h.len() + doc_text_entries(blocks, detail, i as nat).len()) as int,
                    (h.len() + doc_text_entries(blocks, detail, (i + 1) as nat).len()) as int,
                ) == doc_text_entry(i as nat, #[trigger] blocks[i], detail)
            &&& out.len() == h.len() + doc_text_entries(blocks, detail, blocks.len()).len()
        },
{
    let n = blocks.len();
    if n > 0 {
        let h = "DOCUMENTATION RESULTS ("@ + decimal(n) + ")\n"@;
        let all = doc_text_entries(blocks, detail, n);
        let out = doc_results_text(blocks, detail);
        assert(out == h + all);
        assert(out.subrange(0, h.len() as int) =~= h);
        assert forall|i: int| 0 <= i < n implies out.subrange(
            (h.len() + doc_text_entries(blocks, detail, i as nat).len()) as int,
            (h.len() + doc_text_entries(blocks, detail, (i + 1) as nat).len()) as int,
        ) == doc_text_entry(i as nat, #[trigger] blocks[i], detail) by {
            lemma_doc_text_entries_prefix(blocks, detail, (i + 1) as nat, n);
            let a = doc_text_entries(blocks, detail, i as nat);
            let e = doc_text_entry(i as nat, blocks[i], detail);
            let b = doc_text_entries(blocks, detail, (i + 1) as nat);
            assert(b == a + e);
            assert(all.subrange(0, b.len() as int) == b);
            assert(out.subrange((h.len() + a.len()) as int, (h.len() + b.len()) as int) =~= all.subrange(a.len() as int, b.len() as int));
            assert(all.subrange(a.len() as int, b.len() as int) =~= b.subrange(a.len() as int, b.len() as int));
            assert(b.subrange(a.len() as int, b.len() as int) =~= e);
        }
    }
}

// ---------------------------------------------------------------------------
// Combined results
// ---------------------------------------------------------------------------

/// The plain text listing of results of all kinds: documentation first,
/// then code, then text.
pub open spec fn combined_results_text(
    code: Seq<CodeBlock>,
    text: Seq<TextBlock>,
    docs: Seq<DocumentBlock>,
    detail: Seq<char>,
) -> Seq<char> {
    let total = code.len() + text.len() + docs.len();
    if total == 0 {
        "No results found."@
    } else {
        "SEARCH RESULTS ("@ + decimal(total) + " total)\n\n"@ + (if docs.len() > 0 {
            doc_results_text(docs, detail) + "\n"@
        } else {
            seq![]
        }) + (if code.len() > 0 {
            code_results_text(code, detail) + "\n"@
        } else {
            seq![]
        }) + (if text.len() > 0 {
            text_results_text(text, detail)
        } else {
            seq![]
        })
    }
}

/// Formats results of all kinds as plain text.
#[verifier::rlimit(60)]
pub fn format_combined_search_results_as_text(
    code_blocks: &[CodeBlock],
    text_blocks: &[TextBlock],
    doc_blocks: &[DocumentBlock],
    detail_level: &str,
) -> (r: String)
    ensures
        r@ == combined_results_text(code_blocks@, text_blocks@, doc_blocks@, detail_level@),
{
    let total: u128 = code_blocks.len() as u128 + text_blocks.len() as u128 + doc_blocks.len() as u128;
    if total == 0 {
        return "No results found.".to_owned();
    }
    let mut out = String::new();
    push_str(&mut out, "SEARCH RESULTS (");
    push_decimal(&mut out, total);
    push_str(&mut out, " total)\n\n");
    let ghost s1 = out@;
    let ghost dpart: Seq<char> = if doc_blocks@.len() > 0 {
        doc_results_text(doc_blocks@, detail_level@) + "\n"@
    } else {
        seq![]
    };
    let ghost cpart: Seq<char> = if code_blocks@.len() > 0 {
        code_results_text(code_blocks@, detail_level@) + "\n"@
    } else {
        seq![]
    };
    let ghost tpart: Seq<char> = if text_blocks@.len() > 0 {
        text_results_text(text_blocks@, detail_level@)
    } else {
        seq![]
    };
    if doc_blocks.len() > 0 {
        let part = format_doc_search_results_as_text(doc_blocks, detail_level);
        push_str(&mut out, part.as_str());
        push_str(&mut out, "\n");
    }
    assert(out@ =~= s1 + dpart);
    let ghost s2 = out@;
    if code_blocks.len() > 0 {
        let part = format_code_search_results_as_text(code_blocks, detail_level);
        push_str(&mut out, part.as_str());
        push_str(&mut out, "\n");
    }
    assert(out@ =~= s2 + cpart);
    let ghost s3 = out@;
    if text_blocks.len() > 0 {
        let part = format_text_search_results_as_text(text_blocks, detail_level);
        push_str(&mut out, part.as_str());
    }
    assert(out@ =~= s3 + tpart);
    assert(out@ =~= s1 + dpart + cpart + tpart);
    out
}

/// The combined plain-text listing holds one section for every kind that
/// has results, and nothing else: after a header that counts all results
/// come the documentation section, then the code section, then the text
/// section (each kind's own listing, the first two followed by a blank
/// line); with no results at all it is a short note.
pub proof fn law_combined_text(
    code: Seq<CodeBlock>,
    text: Seq<TextBlock>,
    docs: Seq<DocumentBlock>,
    detail: Seq<char>,
)
    ensures
        ({
            let out = combined_results_text(code, text, docs, detail);
            let total = code.len() + text.len() + docs.len();
            let h = "SEARCH RESULTS ("@ + decimal(total) + " total)\n\n"@;
            let d = doc_results_text(docs, detail) + "\n"@;
            let c = code_results_text(code, detail) + "\n"@;
            let t = text_results_text(text, detail);
            let dl = if docs.len() > 0 {
                d.len()
            } else {
                0
            };
            let cl = if code.len() > 0 {
                c.len()
            } else {
                0
            };
            let tl = if text.len() > 0 {
                t.len()
            } else {
                0
            };
            &&& total == 0 ==> out == "No results found."@
            &&& total > 0 ==> out.len() == h.len() + dl + cl + tl
            &&& total > 0 ==> out.subrange(0, h.len() as int) == h
            &&& total > 0 && docs.len() > 0 ==> out.subrange(h.len() as int, (h.len() + d.len()) as int) == d
            &&& total > 0 && code.len() > 0 ==> out.subrange((h.len() + dl) as int, (h.len() + dl + c.len()) as int) == c
            &&& total > 0 && text.len() > 0 ==> out.subrange((out.len() - t.len()) as int, out.len() as int) == t
        }),
{
    let total = code.len() + text.len() + docs.len();
    if total > 0 {
        let h = "SEARCH RESULTS ("@ + decimal(total) + " total)\n\n"@;
        let dp: Seq<char> = if docs.len() > 0 {
            doc_results_text(docs, detail) + "\n"@
        } else {
            seq![]
        };
        let cp: Seq<char> = if code.len() > 0 {
            code_results_text(code, detail) + "\n"@
        } else {
            seq![]
        };
        let tp: Seq<char> = if text.len() > 0 {
            text_results_text(text, detail)
        } else {
            seq![]
        };
        crate::text::lemma_four_parts(h, dp, cp, tp);
    }
}

} // verus!
