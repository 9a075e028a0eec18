use vstd::prelude::*;
use crate::blocks::{CodeBlock, DocumentBlock, TextBlock};
use crate::format_text::{detail_is, push_similarity, similarity};
use crate::group::{group_blocks, group_by_path, group_views};
use crate::preview::{code_preview, get_code_preview};
use crate::symbols::{display_symbol_list, display_symbols};
use crate::text::{decimal, fixed_decimal, join, push_decimal, push_joined, push_str};

verus! {

broadcast use vstd::seq_lib::group_seq_properties;

/// The similarity line of a Markdown entry.
pub open spec fn md_similarity(d: Option<u64>) -> Seq<char> {
    match d {
        Some(x) => "- **Similarity**: "@ + fixed_decimal(similarity(x), 4) + "\n"@,
        None => seq![],
    }
}

fn push_md_similarity(out: &mut String, d: Option<u64>)
    ensures
        final(out)@ == old(out)@ + md_similarity(d),
{
    if let Some(x) = d {
        push_str(out, "- **Similarity**: ");
        push_similarity(out, x, 4);
        push_str(out, "\n");
    }
}

/// The symbols line of a Markdown code entry.
pub open spec fn md_symbols(symbols: Seq<Seq<char>>) -> Seq<char> {
    if symbols.len() > 0 {
        "- **Symbols**: "@ + (if display_symbols(symbols).len() > 0 {
            join(display_symbols(symbols), ", "@)
        } else {
            seq![]
        }) + "\n"@
    } else {
        seq![]
    }
}

fn push_md_symbols(out: &mut String, symbols: &Vec<String>)
    ensures
        final(out)@ == old(out)@ + md_symbols(symbols@.map_values(|s: String| s@)),
{
    if symbols.len() > 0 {
        push_str(out, "- **Symbols**: ");
        let shown = display_symbol_list(symbols);
        if shown.len() > 0 {
            push_joined(out, shown.as_slice(), ", ");
        }
        push_str(out, "\n");
    }
}

/// The `### Block k of m in file` heading.
pub open spec fn md_item_heading(word: Seq<char>, k: nat, m: nat) -> Seq<char> {
    "### "@ + word + " "@ + decimal(k + 1) + " of "@ + decimal(m) + " in file\n\n"@
}

fn push_md_item_heading(out: &mut String, word: &str, k: usize, m: usize)
    requires
        k < usize::MAX,
    ensures
        final(out)@ == old(out)@ + md_item_heading(word@, k as nat, m as nat),
{
    let ghost s0 = out@;
    push_str(out, "### ");
    push_str(out, word);
    push_str(out, " ");
    push_decimal(out, k as u128 + 1);
    push_str(out, " of ");
    push_decimal(out, m as u128);
    push_str(out, " in file\n\n");
    assert(out@ =~= s0 + md_item_heading(word@, k as nat, m as nat));
}

/// The `- **Lines**: s-e` line.
pub open spec fn md_lines(s: usize, e: usize) -> Seq<char> {
    "- **Lines**: "@ + decimal(s as nat) + "-"@ + decimal(e as nat) + "\n"@
}

fn push_md_lines(out: &mut String, s: usize, e: usize)
    ensures
        final(out)@ == old(out)@ + md_lines(s, e),
{
    let ghost s0 = out@;
    push_str(out, "- **Lines**: ");
    push_decimal(out, s as u128);
    push_str(out, "-");
    push_decimal(out, e as u128);
    push_str(out, "\n");
    assert(out@ =~= s0 + md_lines(s, e));
}

/// The `## File: path` heading of a group.
pub open spec fn md_file_heading(path: Seq<char>) -> Seq<char> {
    "## File: "@ + path + "\n\n"@
}

// ---------------------------------------------------------------------------
// Code
// ---------------------------------------------------------------------------

/// The content part of a Markdown code entry.
pub open spec fn code_md_body(b: CodeBlock, signatures: bool) -> Seq<char> {
    "\n**Content:**\n\n"@ + "```"@ + b.language@ + "\n"@ + (if signatures {
        code_preview(b.content@)
    } else {
        b.content@
    }) + "\n```\n\n"@
}

/// One Markdown code entry; with `signatures` the content is the code
/// preview, otherwise the whole content.
#[verifier::opaque]
pub open spec fn code_md_item(k: nat, m: nat, b: CodeBlock, signatures: bool) -> Seq<char> {
    md_item_heading("Block"@, k, m) + "- **Language**: "@ + b.language@ + "\n"@ + md_lines(
        b.start_line,
        b.end_line,
    ) + md_similarity(b.distance) + md_symbols(b.symbols@.map_values(|s: String| s@))
        + code_md_body(b, signatures)
}

/// The first `n` entries of a group of code blocks.
pub open spec fn code_md_items(blocks: Seq<CodeBlock>, idx: Seq<int>, n: nat, signatures: bool) -> Seq<char>
    decreases n,
{
    if n == 0 || n > idx.len() {
        seq![]
    } else {
        code_md_items(blocks, idx, (n - 1) as nat, signatures) + code_md_item(
            (n - 1) as nat,
            idx.len(),
            blocks[idx[n - 1]],
            signatures,
        )
    }
}

/// The first `n` groups of code blocks.
pub open spec fn code_md_groups(
    blocks: Seq<CodeBlock>,
    groups: Seq<(Seq<char>, Seq<int>)>,
    n: nat,
    signatures: bool,
) -> Seq<char>
    decreases n,
{
    if n == 0 || n > groups.len() {
        seq![]
    } else {
        code_md_groups(blocks, groups, (n - 1) as nat, signatures) + md_file_heading(groups[n - 1].0)
            + code_md_items(blocks, groups[n - 1].1, groups[n - 1].1.len(), signatures)
    }
}

/// The Markdown listing of code results, grouped by file.
pub open spec fn code_results_md(blocks: Seq<CodeBlock>, signatures: bool) -> Seq<char> {
    if blocks.len() == 0 {
        "No code results found."@
    } else {
        let groups = group_by_path(blocks);
        "# Code Search Results\n\nFound "@ + decimal(blocks.len()) + " code blocks:\n\n"@
            + code_md_groups(blocks, groups, groups.len(), signatures)
    }
}

#[verifier::rlimit(40)]
fn push_code_md_item(out: &mut String, k: usize, m: usize, b: &CodeBlock, signatures: bool)
    requires
        k < usize::MAX,
    ensures
        final(out)@ == old(out)@ + code_md_item(k as nat, m as nat, *b, signatures),
{
    let ghost s0 = out@;
    push_md_item_heading(out, "Block", k, m);
    push_str(out, "- **Language**: ");
    push_str(out, b.language.as_str());
    push_str(out, "\n");
    push_md_lines(out, b.start_line, b.end_line);
    push_md_similarity(out, b.distance);
    push_md_symbols(out, &b.symbols);
    let ghost s1 = out@;
    push_code_md_body(out, b, signatures);
    proof {
        reveal(code_md_item);
    }
    assert(out@ =~= s0 + code_md_item(k as nat, m as nat, *b, signatures));
}

fn push_code_md_body(out: &mut String, b: &CodeBlock, signatures: bool)
    ensures
        final(out)@ == old(out)@ + code_md_body(*b, signatures),
{
    let ghost s0 = out@;
    push_str(out, "\n**Content:**\n\n");
    push_str(out, "```");
    push_str(out, b.language.as_str());
    push_str(out, "\n");
    if signatures {
        let preview = get_code_preview(b.content.as_str(), b.language.as_str());
        push_str(out, preview.as_str());
    } else {
        push_str(out, b.content.as_str());
    }
    push_str(out, "\n```\n\n");
    assert(out@ =~= s0 + code_md_body(*b, signatures));
}

fn code_md(blocks: &[CodeBlock], signatures: bool) -> (r: String)
    ensures
        r@ == code_results_md(blocks@, signatures),
{
    if blocks.len() == 0 {
        return "No code results found.".to_owned();
    }
    let groups = group_blocks(blocks);
    let ghost gs = group_views(groups@);
    let mut out = String::new();
    push_str(&mut out, "# Code Search Results\n\nFound ");
    push_decimal(&mut out, blocks.len() as u128);
    push_str(&mut out, " code blocks:\n\n");
    let ghost head = out@;
    for g in 0..groups.len()
        invariant
            gs == group_views(groups@),
            gs == group_by_path(blocks@),
            forall|a: int, k: int|
                0 <= a < groups@.len() && 0 <= k < groups@[a].1@.len() ==> #[trigger] groups@[a].1@[k]
                    < blocks@.len(),
            out@ == head + code_md_groups(blocks@, gs, g as nat, signatures),
    {
        let ghost before = out@;
        push_str(&mut out, "## File: ");
        push_str(&mut out, groups[g].0.as_str());
        push_str(&mut out, "\n\n");
        let ghost mid = out@;
        let idx = &groups[g].1;
        let m = idx.len();
        for k in 0..m
            invariant
                gs == group_views(groups@),
                idx == &groups@[g as int].1,
                m == idx@.len(),
                g < groups@.len(),
                forall|a: int, k: int|
                    0 <= a < groups@.len() && 0 <= k < groups@[a].1@.len() ==> #[trigger] groups@[a].1@[k]
                        < blocks@.len(),
                out@ == mid + code_md_items(blocks@, gs[g as int].1, k as nat, signatures),
        {
            let bi = idx[k];
            assert(gs[g as int].1[k as int] == bi as int);
            push_code_md_item(&mut out, k, m, &blocks[bi], signatures);
        }
        assert(out@ =~= before + md_file_heading(gs[g as int].0) + code_md_items(
            blocks@,
            gs[g as int].1,
            gs[g as int].1.len(),
            signatures,
        ));
    }
    out
}

/// Formats code results as Markdown, grouped by file (files in the order in
/// which they first occur), with the whole content of each block.
#[verifier::rlimit(40)]
pub fn format_code_search_results_as_markdown(blocks: &[CodeBlock]) -> (r: String)
    ensures
        r@ == code_results_md(blocks@, false),
{
    code_md(blocks, false)
}

/// Formats code results as Markdown with a detail level: `signatures` shows
/// a code preview, any other level the whole content. Paths are shown as
/// given; callers pass them relative to the project.
#[verifier::rlimit(40)]
pub fn format_code_search_results_with_detail(blocks: &[CodeBlock], detail_level: &str) -> (r: String)
    ensures
        r@ == code_results_md(blocks@, detail_level@ == "signatures"@),
{
    let signatures = detail_is(detail_level, "signatures");
    code_md(blocks, signatures)
}

proof fn lemma_code_md_items_prefix(blocks: Seq<CodeBlock>, idx: Seq<int>, n: nat, m: nat, signatures: bool)
    requires
        n <= m <= idx.len(),
    ensures
        code_md_items(blocks, idx, n, signatures).len() <= code_md_items(blocks, idx, m, signatures).len(),
        code_md_items(blocks, idx, m, signatures).subrange(0, code_md_items(blocks, idx, n, signatures).len() as int)
            == code_md_items(blocks, idx, n, signatures),
    decreases m,
{
    if n < m {
        lemma_code_md_items_prefix(blocks, idx, n, (m - 1) as nat, signatures);
        let p = code_md_items(blocks, idx, (m - 1) as nat, signatures);
        let q = code_md_items(blocks, idx, n, signatures);
        assert((p + code_md_item((m - 1) as nat, idx.len(), blocks[idx[m - 1]], signatures)).subrange(0, q.len() as int)
            =~= p.subrange(0, q.len() as int));
    }
}

proof fn lemma_code_md_groups_prefix(blocks: Seq<CodeBlock>, groups: Seq<(Seq<char>, Seq<int>)>, n: nat, m: nat, signatures: bool)
    requires
        n <= m <= groups.len(),
    ensures
        code_md_groups(blocks, groups, n, signatures).len() <= code_md_groups(blocks, groups, m, signatures).len(),
        code_md_groups(blocks, groups, m, signatures).subrange(0, code_md_groups(blocks, groups, n, signatures).len() as int)
            == code_md_groups(blocks, groups, n, signatures),
    decreases m,
{
    if n < m {
        lemma_code_md_groups_prefix(blocks, groups, n, (m - 1) as nat, signatures);
        let p = code_md_groups(blocks, groups, (m - 1) as nat, signatures);
        let q = code_md_groups(blocks, groups, n, signatures);
        let g = groups[m - 1];
        assert((p + md_file_heading(g.0) + code_md_items(blocks, g.1, g.1.len(), signatures)).subrange(0, q.len() as int)
            =~= p.subrange(0, q.len() as int));
    }
}

/// The Markdown listing of code results is a header that counts them, then
/// one section per file (see `law_grouping`), in order: the file heading and
/// an entry for each of the file's results, in order, numbered within the
/// file. Each section starts where the ones before it end, each entry where
/// the ones before it in its section end, and nothing else follows. Without
/// results it is a short note.
pub proof fn law_code_listing_md(blocks: Seq<CodeBlock>, signatures: bool)
    ensures
        blocks.len() == 0 ==> code_results_md(blocks, signatures) == "No code results found."@,
        blocks.len() > 0 ==> {
            let out = code_results_md(blocks, signatures);
            let gs = group_by_path(blocks);
            let h = "# Code Search Results\n\nFound "@ + decimal(blocks.len()) + " code blocks:\n\n"@;
            &&& out.subrange(0, h.len() as int) == h
            &&& out.len() == h.len() + code_md_groups(blocks, gs, gs.len(), signatures).len()
            &&& forall|g: int|
                0 <= g < gs.len() ==> out.subrange(
                    (h.len() + code_md_groups(blocks, gs, g as nat, signatures).len()) as int,
                    (h.len() + code_md_groups(blocks, gs, (g + 1) as nat, signatures).len()) as int,
                ) == md_file_heading((#[trigger] gs[g]).0) + code_md_items(blocks, gs[g].1, gs[g].1.len(), signatures)
            &&& forall|g: int, k: int|
                0 <= g < gs.len() && 0 <= k < gs[g].1.len() ==> code_md_items(
                    blocks,
                    gs[g].1,
                    gs[g].1.len(), signatures,
                ).subrange(
                    code_md_items(blocks, gs[g].1, k as nat, signatures).len() as int,
                    code_md_items(blocks, gs[g].1, (k + 1) as nat, signatures).len() as int,
                ) == code_md_item(k as nat, gs[g].1.len(), blocks[#[trigger] gs[g].1[k]], signatures)
        },
{
    let n = blocks.len();
    if n > 0 {
        let gs = group_by_path(blocks);
        let h = "# Code Search Results\n\nFound "@ + decimal(n) + " code blocks:\n\n"@;
        let all = code_md_groups(blocks, gs, gs.len(), signatures);
        let out = code_results_md(blocks, signatures);
        assert(out == h + all);
        assert(out.subrange(0, h.len() as int) =~= h);
        assert forall|g: int| 0 <= g < gs.len() implies out.subrange(
            (h.len() + code_md_groups(blocks, gs, g as nat, signatures).len()) as int,
            (h.len() + code_md_groups(blocks, gs, (g + 1) as nat, signatures).len()) as int,
        ) == md_file_heading((#[trigger] gs[g]).0) + code_md_items(blocks, gs[g].1, gs[g].1.len(), signatures) by {
            lemma_code_md_groups_prefix(blocks, gs, (g + 1) as nat, gs.len(), signatures);
            let a = code_md_groups(blocks, gs, g as nat, signatures);
            let e = md_file_heading(gs[g].0) + code_md_items(blocks, gs[g].1, gs[g].1.len(), signatures);
            let b = code_md_groups(blocks, gs, (g + 1) as nat, signatures);
            assert(b =~= a + e);
            assert(all.subrange(0, b.len() as int) == b);
            assert(out.subrange((h.len() + a.len()) as int, (h.len() + b.len()) as int) =~= all.subrange(
                a.len() as int,
                b.len() as int,
            ));
            assert(all.subrange(a.len() as int, b.len() as int) =~= b.subrange(a.len() as int, b.len() as int));
            assert(b.subrange(a.len() as int, b.len() as int) =~= e);
        }
        assert forall|g: int, k: int| 0 <= g < gs.len() && 0 <= k < gs[g].1.len() implies code_md_items(
            blocks,
            gs[g].1,
            gs[g].1.len(), signatures,
        ).subrange(
            code_md_items(blocks, gs[g].1, k as nat, signatures).len() as int,
            code_md_items(blocks, gs[g].1, (k + 1) as nat, signatures).len() as int,
        ) == code_md_item(k as nat, gs[g].1.len(), blocks[#[trigger] gs[g].1[k]], signatures) by {
            let idx = gs[g].1;
            lemma_code_md_items_prefix(blocks, idx, (k + 1) as nat, idx.len(), signatures);
            let whole = code_md_items(blocks, idx, idx.len(), signatures);
            let a = code_md_items(blocks, idx, k as nat, signatures);
            let e = code_md_item(k as nat, idx.len(), blocks[idx[k]], signatures);
            let b = code_md_items(blocks, idx, (k + 1) as nat, signatures);
            assert(b == a + e);
            assert(whole.subrange(0, b.len() as int) == b);
            assert(whole.subrange(a.len() as int, b.len() as int) =~= b.subrange(a.len() as int, b.len() as int));
            assert(b.subrange(a.len() as int, b.len() as int) =~= e);
        }
    }
}

// ---------------------------------------------------------------------------
// Text
// ---------------------------------------------------------------------------

/// One Markdown text entry.
#[verifier::opaque]
pub open spec fn text_md_item(k: nat, m: nat, b: TextBlock) -> Seq<char> {
    md_item_heading("Block"@, k, m) + "- **Language**: "@ + b.language@ + "\n"@ + md_lines(
        b.start_line,
        b.end_line,
    ) + md_similarity(b.distance) + "\n**Content:**\n\n"@ + "```"@ + b.language@ + "\n"@
        + b.content@ + "\n```\n\n"@
}

/// The first `n` entries of a group of text blocks.
pub open spec fn text_md_items(blocks: Seq<TextBlock>, idx: Seq<int>, n: nat) -> Seq<char>
    decreases n,
{
    if n == 0 || n > idx.len() {
        seq![]
    } else {
        text_md_items(blocks, idx, (n - 1) as nat) + text_md_item(
            (n - 1) as nat,
            idx.len(),
            blocks[idx[n - 1]],
        )
    }
}

/// The first `n` groups of text blocks.
pub open spec fn text_md_groups(blocks: Seq<TextBlock>, groups: Seq<(Seq<char>, Seq<int>)>, n: nat) -> Seq<
    char,
>
    decreases n,
{
    if n == 0 || n > groups.len() {
        seq![]
    } else {
        text_md_groups(blocks, groups, (n - 1) as nat) + md_file_heading(groups[n - 1].0)
            + text_md_items(blocks, groups[n - 1].1, groups[n - 1].1.len())
    }
}

/// The Markdown listing of text results, grouped by file.
pub open spec fn text_results_md(blocks: Seq<TextBlock>) -> Seq<char> {
    if blocks.len() == 0 {
        "No text results found."@
    } else {
        let groups = group_by_path(blocks);
        "# Text Search Results\n\nFound "@ + decimal(blocks.len()) + " text blocks:\n\n"@
            + text_md_groups(blocks, groups, groups.len())
    }
}

#[verifier::rlimit(40)]
fn push_text_md_item(out: &mut String, k: usize, m: usize, b: &TextBlock)
    requires
        k < usize::MAX,
    ensures
        final(out)@ == old(out)@ + text_md_item(k as nat, m as nat, *b),
{
    let ghost s0 = out@;
    push_md_item_heading(out, "Block", k, m);
    push_str(out, "- **Language**: ");
    push_str(out, b.language.as_str());
    push_str(out, "\n");
    push_md_lines(out, b.start_line, b.end_line);
    push_md_similarity(out, b.distance);
    push_str(out, "\n**Content:**\n\n");
    push_str(out, "```");
    push_str(out, b.language.as_str());
    push_str(out, "\n");
    push_str(out, b.content.as_str());
    push_str(out, "\n```\n\n");
    proof {
        reveal(text_md_item);
    }
    assert(out@ =~= s0 + text_md_item(k as nat, m as nat, *b));
}

/// Formats text results as Markdown, grouped by file.
#[verifier::rlimit(40)]
pub fn format_text_search_results_as_markdown(blocks: &[TextBlock]) -> (r: String)
    ensures
        r@ == text_results_md(blocks@),
{
    if blocks.len() == 0 {
        return "No text results found.".to_owned();
    }
    let groups = group_blocks(blocks);
    let ghost gs = group_views(groups@);
    let mut out = String::new();
    push_str(&mut out, "# Text Search Results\n\nFound ");
    push_decimal(&mut out, blocks.len() as u128);
    push_str(&mut out, " text blocks:\n\n");
    let ghost head = out@;
    for g in 0..groups.len()
        invariant
            gs == group_views(groups@),
            gs == group_by_path(blocks@),
            forall|a: int, k: int|
                0 <= a < groups@.len() && 0 <= k < groups@[a].1@.len() ==> #[trigger] groups@[a].1@[k]
                    < blocks@.len(),
            out@ == head + text_md_groups(blocks@, gs, g as nat),
    {
        let ghost before = out@;
        push_str(&mut out, "## File: ");
        push_str(&mut out, groups[g].0.as_str());
        push_str(&mut out, "\n\n");
        let ghost mid = out@;
        let idx = &groups[g].1;
        let m = idx.len();
        for k in 0..m
            invariant
                gs == group_views(groups@),
                idx == &groups@[g as int].1,
                m == idx@.len(),
                g < groups@.len(),
                forall|a: int, k: int|
                    0 <= a < groups@.len() && 0 <= k < groups@[a].1@.len() ==> #[trigger] groups@[a].1@[k]
                        < blocks@.len(),
                out@ == mid + text_md_items(blocks@, gs[g as int].1, k as nat),
        {
            let bi = idx[k];
            assert(gs[g as int].1[k as int] == bi as int);
            push_text_md_item(&mut out, k, m, &blocks[bi]);
        }
        assert(out@ =~= before + md_file_heading(gs[g as int].0) + text_md_items(
            blocks@,
            gs[g as int].1,
            gs[g as int].1.len(),
        ));
    }
    out
}

proof fn lemma_text_md_items_prefix(blocks: Seq<TextBlock>, idx: Seq<int>, n: nat, m: nat)
    requires
        n <= m <= idx.len(),
    ensures
        text_md_items(blocks, idx, n).len() <= text_md_items(blocks, idx, m).len(),
        text_md_items(blocks, idx, m).subrange(0, text_md_items(blocks, idx, n).len() as int)
            == text_md_items(blocks, idx, n),
    decreases m,
{
    if n < m {
        lemma_text_md_items_prefix(blocks, idx, n, (m - 1) as nat);
        let p = text_md_items(blocks, idx, (m - 1) as nat);
        let q = text_md_items(blocks, idx, n);
        assert((p + text_md_item((m - 1) as nat, idx.len(), blocks[idx[m - 1]])).subrange(0, q.len() as int)
            =~= p.subrange(0, q.len() as int));
    }
}

proof fn lemma_text_md_groups_prefix(blocks: Seq<TextBlock>, groups: Seq<(Seq<char>, Seq<int>)>, n: nat, m: nat)
    requires
        n <= m <= groups.len(),
    ensures
        text_md_groups(blocks, groups, n).len() <= text_md_groups(blocks, groups, m).len(),
        text_md_groups(blocks, groups, m).subrange(0, text_md_groups(blocks, groups, n).len() as int)
            == text_md_groups(blocks, groups, n),
    decreases m,
{
    if n < m {
        lemma_text_md_groups_prefix(blocks, groups, n, (m - 1) as nat);
        let p = text_md_groups(blocks, groups, (m - 1) as nat);
        let q = text_md_groups(blocks, groups, n);
        let g = groups[m - 1];
        assert((p + md_file_heading(g.0) + text_md_items(blocks, g.1, g.1.len())).subrange(0, q.len() as int)
            =~= p.subrange(0, q.len() as int));
    }
}

/// The Markdown listing of text results is a header that counts them, then
/// one section per file (see `law_grouping`), in order: the file heading and
/// an entry for each of the file's results, in order, numbered within the
/// file. Each section starts where the ones before it end, each entry where
/// the ones before it in its section end, and nothing else follows. Without
/// results it is a short note.
pub proof fn law_text_listing_md(blocks: Seq<TextBlock>)
    ensures
        blocks.len() == 0 ==> text_results_md(blocks) == "No text results found."@,
        blocks.len() > 0 ==> {
            let out = text_results_md(blocks);
            let gs = group_by_path(blocks);
            let h = "# Text Search Results\n\nFound "@ + decimal(blocks.len()) + " text blocks:\n\n"@;
            &&& out.subrange(0, h.len() as int) == h
            &&& out.len() == h.len() + text_md_groups(blocks, gs, gs.len()).len()
            &&& forall|g: int|
                0 <= g < gs.len() ==> out.subrange(
                    (h.len() + text_md_groups(blocks, gs, g as nat).len()) as int,
                    (h.len() + text_md_groups(blocks, gs, (g + 1) as nat).len()) as int,
                ) == md_file_heading((#[trigger] gs[g]).0) + text_md_items(blocks, gs[g].1, gs[g].1.len())
            &&& forall|g: int, k: int|
                0 <= g < gs.len() && 0 <= k < gs[g].1.len() ==> text_md_items(
                    blocks,
                    gs[g].1,
                    gs[g].1.len(),
                ).subrange(
                    text_md_items(blocks, gs[g].1, k as nat).len() as int,
                    text_md_items(blocks, gs[g].1, (k + 1) as nat).len() as int,
                ) == text_md_item(k as nat, gs[g].1.len(), blocks[#[trigger] gs[g].1[k]])
        },
{
    let n = blocks.len();
    if n > 0 {
        let gs = group_by_path(blocks);
        let h = "# Text Search Results\n\nFound "@ + decimal(n) + " text blocks:\n\n"@;
        let all = text_md_groups(blocks, gs, gs.len());
        let out = text_results_md(blocks);
        assert(out == h + all);
        assert(out.subrange(0, h.len() as int) =~= h);
        assert forall|g: int| 0 <= g < gs.len() implies out.subrange(
            (h.len() + text_md_groups(blocks, gs, g as nat).len()) as int,
            (h.len() + text_md_groups(blocks, gs, (g + 1) as nat).len()) as int,
        ) == md_file_heading((#[trigger] gs[g]).0) + text_md_items(blocks, gs[g].1, gs[g].1.len()) by {
            lemma_text_md_groups_prefix(blocks, gs, (g + 1) as nat, gs.len());
            let a = text_md_groups(blocks, gs, g as nat);
            let e = md_file_heading(gs[g].0) + text_md_items(blocks, gs[g].1, gs[g].1.len());
            let b = text_md_groups(blocks, gs, (g + 1) as nat);
            assert(b =~= a + e);
            assert(all.subrange(0, b.len() as int) == b);
            assert(out.subrange((h.len() + a.len()) as int, (h.len() + b.len()) as int) =~= all.subrange(
                a.len() as int,
                b.len() as int,
            ));
            assert(all.subrange(a.len() as int, b.len() as int) =~= b.subrange(a.len() as int, b.len() as int));
            assert(b.subrange(a.len() as int, b.len() as int) =~= e);
        }
        assert forall|g: int, k: int| 0 <= g < gs.len() && 0 <= k < gs[g].1.len() implies text_md_items(
            blocks,
            gs[g].1,
            gs[g].1.len(),
        ).subrange(
            text_md_items(blocks, gs[g].1, k as nat).len() as int,
            text_md_items(blocks, gs[g].1, (k + 1) as nat).len() as int,
        ) == text_md_item(k as nat, gs[g].1.len(), blocks[#[trigger] gs[g].1[k]]) by {
            let idx = gs[g].1;
            lemma_text_md_items_prefix(blocks, idx, (k + 1) as nat, idx.len());
            let whole = text_md_items(blocks, idx, idx.len());
            let a = text_md_items(blocks, idx, k as nat);
            let e = text_md_item(k as nat, idx.len(), blocks[idx[k]]);
            let b = text_md_items(blocks, idx, (k + 1) as nat);
            assert(b == a + e);
            assert(whole.subrange(0, b.len() as int) == b);
            assert(whole.subrange(a.len() as int, b.len() as int) =~= b.subrange(a.len() as int, b.len() as int));
            assert(b.subrange(a.len() as int, b.len() as int) =~= e);
        }
    }
}

// ---------------------------------------------------------------------------
// Documentation
// ---------------------------------------------------------------------------

/// One Markdown documentation entry.
#[verifier::opaque]
pub open spec fn doc_md_item(k: nat, m: nat, b: DocumentBlock) -> Seq<char> {
    md_item_heading("Section"@, k, m) + "- **Title**: "@ + b.title@ + "\n"@ + "- **Level**: "@
        + decimal(b.level as nat) + "\n"@ + md_lines(b.start_line, b.end_line) + md_similarity(
        b.distance,
    ) + "\n**Content:**\n\n"@ + b.content@ + "\n\n"@
}

/// The first `n` entries of a group of documentation blocks.
pub open spec fn doc_md_items(blocks: Seq<DocumentBlock>, idx: Seq<int>, n: nat) -> Seq<char>
    decreases n,
{
    if n == 0 || n > idx.len() {
        seq![]
    } else {
        doc_md_items(blocks, idx, (n - 1) as nat) + doc_md_item(
            (n - 1) as nat,
            idx.len(),
            blocks[idx[n - 1]],
        )
    }
}

/// The first `n` groups of documentation blocks.
pub open spec fn doc_md_groups(
    blocks: Seq<DocumentBlock>,
    groups: Seq<(Seq<char>, Seq<int>)>,
    n: nat,
) -> Seq<char>
    decreases n,
{
    if n == 0 || n > groups.len() {
        seq![]
    } else {
        doc_md_groups(blocks, groups, (n - 1) as nat) + md_file_heading(groups[n - 1].0)
            + doc_md_items(blocks, groups[n - 1].1, groups[n - 1].1.len())
    }
}

/// The Markdown listing of documentation results, grouped by file.
pub open spec fn doc_results_md(blocks: Seq<DocumentBlock>) -> Seq<char> {
    if blocks.len() == 0 {
        "No documentation results found."@
    } else {
        let groups = group_by_path(blocks);
        "# Documentation Search Results\n\nFound "@ + decimal(blocks.len())
            + " documentation sections:\n\n"@ + doc_md_groups(blocks, groups, groups.len())
    }
}

#[verifier::rlimit(40)]
fn push_doc_md_item(out: &mut String, k: usize, m: usize, b: &DocumentBlock)
    requires
        k < usize::MAX,
    ensures
        final(out)@ == old(out)@ + doc_md_item(k as nat, m as nat, *b),
{
    let ghost s0 = out@;
    push_md_item_heading(out, "Section", k, m);
    push_str(out, "- **Title**: ");
    push_str(out, b.title.as_str());
    push_str(out, "\n");
    push_str(out, "- **Level**: ");
    push_decimal(out, b.level as u128);
    push_str(out, "\n");
    push_md_lines(out, b.start_line, b.end_line);
    push_md_similarity(out, b.distance);
    push_str(out, "\n**Content:**\n\n");
    push_str(out, b.content.as_str());
    push_str(out, "\n\n");
    proof {
        reveal(doc_md_item);
    }
    assert(out@ =~= s0 + doc_md_item(k as nat, m as nat, *b));
}

/// Formats documentation results as Markdown, grouped by file.
#[verifier::rlimit(40)]
pub fn format_doc_search_results_as_markdown(blocks: &[DocumentBlock]) -> (r: String)
    ensures
        r@ == doc_results_md(blocks@),
{
    if blocks.len() == 0 {
        return "No documentation results found.".to_owned();
    }
    let groups = group_blocks(blocks);
    let ghost gs = group_views(groups@);
    let mut out = String::new();
    push_str(&mut out, "# Documentation Search Results\n\nFound ");
    push_decimal(&mut out, blocks.len() as u128);
    push_str(&mut out, " documentation sections:\n\n");
    let ghost head = out@;
    for g in 0..groups.len()
        invariant
            gs == group_views(groups@),
            gs == group_by_path(blocks@),
            forall|a: int, k: int|
                0 <= a < groups@.len() && 0 <= k < groups@[a].1@.len() ==> #[trigger] groups@[a].1@[k]
                    < blocks@.len(),
            out@ == head + doc_md_groups(blocks@, gs, g as nat),
    {
        let ghost before = out@;
        push_str(&mut out, "## File: ");
        push_str(&mut out, groups[g].0.as_str());
        push_str(&mut out, "\n\n");
        let ghost mid = out@;
        let idx = &groups[g].1;
        let m = idx.len();
        for k in 0..m
            invariant
                gs == group_views(groups@),
                idx == &groups@[g as int].1,
                m == idx@.len(),
                g < groups@.len(),
                forall|a: int, k: int|
                    0 <= a < groups@.len() && 0 <= k < groups@[a].1@.len() ==> #[trigger] groups@[a].1@[k]
                        < blocks@.len(),
                out@ == mid + doc_md_items(blocks@, gs[g as int].1, k as nat),
        {
            let bi = idx[k];
            assert(gs[g as int].1[k as int] == bi as int);
            push_doc_md_item(&mut out, k, m, &blocks[bi]);
        }
        assert(out@ =~= before + md_file_heading(gs[g as int].0) + doc_md_items(
            blocks@,
            gs[g as int].1,
            gs[g as int].1.len(),
        ));
    }
    out
}

proof fn lemma_doc_md_items_prefix(blocks: Seq<DocumentBlock>, idx: Seq<int>, n: nat, m: nat)
    requires
        n <= m <= idx.len(),
    ensures
        doc_md_items(blocks, idx, n).len() <= doc_md_items(blocks, idx, m).len(),
        doc_md_items(blocks, idx, m).subrange(0, doc_md_items(blocks, idx, n).len() as int)
            == doc_md_items(blocks, idx, n),
    decreases m,
{
    if n < m {
        lemma_doc_md_items_prefix(blocks, idx, n, (m - 1) as nat);
        let p = doc_md_items(blocks, idx, (m - 1) as nat);
        let q = doc_md_items(blocks, idx, n);
        assert((p + doc_md_item((m - 1) as nat, idx.len(), blocks[idx[m - 1]])).subrange(0, q.len() as int)
            =~= p.subrange(0, q.len() as int));
    }
}

proof fn lemma_doc_md_groups_prefix(blocks: Seq<DocumentBlock>, groups: Seq<(Seq<char>, Seq<int>)>, n: nat, m: nat)
    requires
        n <= m <= groups.len(),
    ensures
        doc_md_groups(blocks, groups, n).len() <= doc_md_groups(blocks, groups, m).len(),
        doc_md_groups(blocks, groups, m).subrange(0, doc_md_groups(blocks, groups, n).len() as int)
            == doc_md_groups(blocks, groups, n),
    decreases m,
{
    if n < m {
        lemma_doc_md_groups_prefix(blocks, groups, n, (m - 1) as nat);
        let p = doc_md_groups(blocks, groups, (m - 1) as nat);
        let q = doc_md_groups(blocks, groups, n);
        let g = groups[m - 1];
        assert((p + md_file_heading(g.0) + doc_md_items(blocks, g.1, g.1.len())).subrange(0, q.len() as int)
            =~= p.subrange(0, q.len() as int));
    }
}

/// The Markdown listing of documentation results is a header that counts them, then
/// one section per file (see `law_grouping`), in order: the file heading and
/// an entry for each of the file's results, in order, numbered within the
/// file. Each section starts where the ones before it end, each entry where
/// the ones before it in its section end, and nothing else follows. Without
/// results it is a short note.
pub proof fn law_doc_listing_md(blocks: Seq<DocumentBlock>)
    ensures
        blocks.len() == 0 ==> doc_results_md(blocks) == "No documentation results found."@,
        blocks.len() > 0 ==> {
            let out = doc_results_md(blocks);
            let gs = group_by_path(blocks);
            let h = "# Documentation Search Results\n\nFound "@ + decimal(blocks.len()) + " documentation sections:\n\n"@;
            &&& out.subrange(0, h.len() as int) == h
            &&& out.len() == h.len() + doc_md_groups(blocks, gs, gs.len()).len()
            &&& forall|g: int|
                0 <= g < gs.len() ==> out.subrange(
                    (h.len() + doc_md_groups(blocks, gs, g as nat).len()) as int,
                    (h.len() + doc_md_groups(blocks, gs, (g + 1) as nat).len()) as int,
                ) == md_file_heading((#[trigger] gs[g]).0) + doc_md_items(blocks, gs[g].1, gs[g].1.len())
            &&& forall|g: int, k: int|
                0 <= g < gs.len() && 0 <= k < gs[g].1.len() ==> doc_md_items(
                    blocks,
                    gs[g].1,
                    gs[g].1.len(),
                ).subrange(
                    doc_md_items(blocks, gs[g].1, k as nat).len() as int,
                    doc_md_items(blocks, gs[g].1, (k + 1) as nat).len() as int,
                ) == doc_md_item(k as nat, gs[g].1.len(), blocks[#[trigger] gs[g].1[k]])
        },
{
    let n = blocks.len();
    if n > 0 {
        let gs = group_by_path(blocks);
        let h = "# Documentation Search Results\n\nFound "@ + decimal(n) + " documentation sections:\n\n"@;
        let all = doc_md_groups(blocks, gs, gs.len());
        let out = doc_results_md(blocks);
        assert(out == h + all);
        assert(out.subrange(0, h.len() as int) =~= h);
        assert forall|g: int| 0 <= g < gs.len() implies out.subrange(
            (h.len() + doc_md_groups(blocks, gs, g as nat).len()) as int,
            (h.len() + doc_md_groups(blocks, gs, (g + 1) as nat).len()) as int,
        ) == md_file_heading((#[trigger] gs[g]).0) + doc_md_items(blocks, gs[g].1, gs[g].1.len()) by {
            lemma_doc_md_groups_prefix(blocks, gs, (g + 1) as nat, gs.len());
            let a = doc_md_groups(blocks, gs, g as nat);
            let e = md_file_heading(gs[g].0) + doc_md_items(blocks, gs[g].1, gs[g].1.len());
            let b = doc_md_groups(blocks, gs, (g + 1) as nat);
            assert(b =~= a + e);
            assert(all.subrange(0, b.len() as int) == b);
            assert(out.subrange((h.len() + a.len()) as int, (h.len() + b.len()) as int) =~= all.subrange(
                a.len() as int,
                b.len() as int,
            ));
            assert(all.subrange(a.len() as int, b.len() as int) =~= b.subrange(a.len() as int, b.len() as int));
            assert(b.subrange(a.len() as int, b.len() as int) =~= e);
        }
        assert forall|g: int, k: int| 0 <= g < gs.len() && 0 <= k < gs[g].1.len() implies doc_md_items(
            blocks,
            gs[g].1,
            gs[g].1.len(),
        ).subrange(
            doc_md_items(blocks, gs[g].1, k as nat).len() as int,
            doc_md_items(blocks, gs[g].1, (k + 1) as nat).len() as int,
        ) == doc_md_item(k as nat, gs[g].1.len(), blocks[#[trigger] gs[g].1[k]]) by {
            let idx = gs[g].1;
            lemma_doc_md_items_prefix(blocks, idx, (k + 1) as nat, idx.len());
            let whole = doc_md_items(blocks, idx, idx.len());
            let a = doc_md_items(blocks, idx, k as nat);
            let e = doc_md_item(k as nat, idx.len(), blocks[idx[k]]);
            let b = doc_md_items(blocks, idx, (k + 1) as nat);
            assert(b == a + e);
            assert(whole.subrange(0, b.len() as int) == b);
            assert(whole.subrange(a.len() as int, b.len() as int) =~= b.subrange(a.len() as int, b.len() as int));
            assert(b.subrange(a.len() as int, b.len() as int) =~= e);
        }
    }
}

// ---------------------------------------------------------------------------
// Combined
// ---------------------------------------------------------------------------

/// The Markdown listing of results of all kinds: documentation, then code
/// (with `signatures` as in `code_results_md`), then text.
pub open spec fn combined_results_md(
    code: Seq<CodeBlock>,
    text: Seq<TextBlock>,
    docs: Seq<DocumentBlock>,
    signatures: bool,
) -> Seq<char> {
    let total = code.len() + text.len() + docs.len();
    if total == 0 {
        "No results found."@
    } else {
        "# Combined Search Results\n\n"@ + "Found "@ + decimal(total) + " total results:\n\n"@ + (
        if docs.len() > 0 {
            doc_results_md(docs) + "\n"@
        } else {
            seq![]
        }) + (if code.len() > 0 {
            code_results_md(code, signatures) + "\n"@
        } else {
            seq![]
        }) + (if text.len() > 0 {
            text_results_md(text)
        } else {
            seq![]
        })
    }
}

fn combined_md(
    code_blocks: &[CodeBlock],
    text_blocks: &[TextBlock],
    doc_blocks: &[DocumentBlock],
    signatures: bool,
) -> (r: String)
    ensures
        r@ == combined_results_md(code_blocks@, text_blocks@, doc_blocks@, signatures),
{
    let total: u128 = code_blocks.len() as u128 + text_blocks.len() as u128 + doc_blocks.len() as u128;
    if total == 0 {
        return "No results found.".to_owned();
    }
    let mut out = String::new();
    push_str(&mut out, "# Combined Search Results\n\n");
    push_str(&mut out, "Found ");
    push_decimal(&mut out, total);
    push_str(&mut out, " total results:\n\n");
    let ghost s1 = out@;
    let ghost dpart: Seq<char> = if doc_blocks@.len() > 0 {
        doc_results_md(doc_blocks@) + "\n"@
    } else {
        seq![]
    };
    let ghost cpart: Seq<char> = if code_blocks@.len() > 0 {
        code_results_md(code_blocks@, signatures) + "\n"@
    } else {
        seq![]
    };
    let ghost tpart: Seq<char> = if text_blocks@.len() > 0 {
        text_results_md(text_blocks@)
    } else {
        seq![]
    };
    if doc_blocks.len() > 0 {
        let part = format_doc_search_results_as_markdown(doc_blocks);
        push_str(&mut out, part.as_str());
        push_str(&mut out, "\n");
    }
    assert(out@ =~= s1 + dpart);
    let ghost s2 = out@;
    if code_blocks.len() > 0 {
        let part = code_md(code_blocks, signatures);
        push_str(&mut out, part.as_str());
        push_str(&mut out, "\n");
    }
    assert(out@ =~= s2 + cpart);
    let ghost s3 = out@;
    if text_blocks.len() > 0 {
        let part = format_text_search_results_as_markdown(text_blocks);
        push_str(&mut out, part.as_str());
    }
    assert(out@ =~= s3 + tpart);
    assert(out@ =~= s1 + dpart + cpart + tpart);
    out
}

/// Formats results of all kinds as Markdown.
#[verifier::rlimit(40)]
pub fn format_combined_search_results_as_markdown(
    code_blocks: &[CodeBlock],
    text_blocks: &[TextBlock],
    doc_blocks: &[DocumentBlock],
) -> (r: String)
    ensures
        r@ == combined_results_md(code_blocks@, text_blocks@, doc_blocks@, false),
{
    combined_md(code_blocks, text_blocks, doc_blocks, false)
}

/// Formats results of all kinds as Markdown, the code results with a detail
/// level.
#[verifier::rlimit(40)]
pub fn format_combined_search_results_with_detail(
    code_blocks: &[CodeBlock],
    text_blocks: &[TextBlock],
    doc_blocks: &[DocumentBlock],
    detail_level: &str,
) -> (r: String)
    ensures
        r@ == combined_results_md(
            code_blocks@,
            text_blocks@,
            doc_blocks@,
            detail_level@ == "signatures"@,
        ),
{
    let signatures = detail_is(detail_level, "signatures");
    combined_md(code_blocks, text_blocks, doc_blocks, signatures)
}

/// The combined Markdown listing holds one section for every kind that has
/// results, and nothing else: after a heading and a count of all results
/// come the documentation section, then the code section, then the text
/// section (the first two followed by a blank line); with no results at all
/// it is a short note.
pub proof fn law_combined_markdown(
    code: Seq<CodeBlock>,
    text: Seq<TextBlock>,
    docs: Seq<DocumentBlock>,
    signatures: bool,
)
    ensures
        ({
            let out = combined_results_md(code, text, docs, signatures);
            let total = code.len() + text.len() + docs.len();
            let h = "# Combined Search Results\n\n"@ + "Found "@ + decimal(total) + " total results:\n\n"@;
            let d = doc_results_md(docs) + "\n"@;
            let c = code_results_md(code, signatures) + "\n"@;
            let t = text_results_md(text);
            let dl = if docs.len() > 0 {
                d.len()
            } else {
                0
            };
            let cl = if code.len() > 0 {
                c.len()
            } else {
                0
            };
            let tl = if text.len() > 0 {
                t.len()
            } else {
                0
            };
            &&& total == 0 ==> out == "No results found."@
            &&& total > 0 ==> out.len() == h.len() + dl + cl + tl
            &&& total > 0 ==> out.subrange(0, h.len() as int) == h
            &&& total > 0 && docs.len() > 0 ==> out.subrange(h.len() as int, (h.len() + d.len()) as int) == d
            &&& total > 0 && code.len() > 0 ==> out.subrange((h.len() + dl) as int, (h.len() + dl + c.len()) as int) == c
            &&& total > 0 && text.len() > 0 ==> out.subrange((out.len() - t.len()) as int, out.len() as int) == t
        }),
{
    let total = code.len() + text.len() + docs.len();
    if total > 0 {
        let h = "# Combined Search Results\n\n"@ + "Found "@ + decimal(total) + " total results:\n\n"@;
        let dp: Seq<char> = if docs.len() > 0 {
            doc_results_md(docs) + "\n"@
        } else {
            seq![]
        };
        let cp: Seq<char> = if code.len() > 0 {
            code_results_md(code, signatures) + "\n"@
        } else {
            seq![]
        };
        let tp: Seq<char> = if text.len() > 0 {
            text_results_md(text)
        } else {
            seq![]
        };
        crate::text::lemma_four_parts(h, dp, cp, tp);
    }
}

} // verus!
