use vstd::prelude::*;
use crate::blocks::{CodeBlock, DocumentBlock, TextBlock};
use crate::format_text::{detail_is, push_similarity, similarity};
use crate::group::{group_blocks, group_by_path, group_views};
use crate::symbols::{display_symbol_list, display_symbols, sorted_unique};
use crate::text::{
    char_views, decimal, fixed_decimal, lines_of, pad_left, push_char, push_chars, push_decimal,
    push_padded, push_str, split_lines, to_chars, trim, trim_bounds,
};

verus! {

broadcast use vstd::seq_lib::group_seq_properties;

// ---------------------------------------------------------------------------
// Numbered lines
// ---------------------------------------------------------------------------

/// One numbered line of the terminal output: the prefix, the number
/// right-aligned in four columns, a bar and the line.
pub open spec fn cli_line(prefix: Seq<char>, n: nat, line: Seq<char>) -> Seq<char> {
    prefix + pad_left(decimal(n), 4, ' ') + " │ "@ + line + "\n"@
}

/// Lines `lo..hi` of `ls`, numbered from `start_line` (the number of line 0).
pub open spec fn cli_lines(ls: Seq<Seq<char>>, lo: int, hi: int, start_line: nat, prefix: Seq<char>) -> Seq<
    char,
>
    decreases hi - lo,
{
    if hi <= lo {
        seq![]
    } else {
        cli_lines(ls, lo, hi - 1, start_line, prefix) + cli_line(
            prefix,
            (start_line + hi - 1) as nat,
            ls[hi - 1],
        )
    }
}

/// The shortened listing: every line when there are at most ten, otherwise
/// the first four, a count of the omitted lines and the last three.
pub open spec fn cli_partial(ls: Seq<Seq<char>>, start_line: nat, prefix: Seq<char>, gap: Seq<char>) -> Seq<
    char,
> {
    let len = ls.len() as int;
    if len <= 10 {
        cli_lines(ls, 0, len, start_line, prefix)
    } else {
        cli_lines(ls, 0, 4, start_line, prefix) + gap + "... ("@ + decimal((len - 7) as nat)
            + " more lines)\n"@ + cli_lines(ls, len - 3, len, start_line, prefix)
    }
}

fn push_cli_lines(
    out: &mut String,
    lines: &Vec<Vec<char>>,
    lo: usize,
    hi: usize,
    start_line: usize,
    prefix: &str,
)
    requires
        lo <= hi <= lines@.len(),
    ensures
        final(out)@ == old(out)@ + cli_lines(
            char_views(lines@),
            lo as int,
            hi as int,
            start_line as nat,
            prefix@,
        ),
{
    let ghost s0 = out@;
    let ghost ls = char_views(lines@);
    for i in lo..hi
        invariant
            lo <= hi <= lines@.len(),
            ls == char_views(lines@),
            out@ == s0 + cli_lines(ls, lo as int, i as int, start_line as nat, prefix@),
    {
        let ghost before = out@;
        push_str(out, prefix);
        push_padded(out, start_line as u128 + i as u128, 4, ' ');
        push_str(out, " │ ");
        push_chars(out, lines[i].as_slice());
        push_str(out, "\n");
        assert(lines[i as int]@ == ls[i as int]);
        assert(out@ =~= before + cli_line(prefix@, (start_line + i) as nat, ls[i as int]));
        assert(cli_lines(ls, lo as int, i + 1, start_line as nat, prefix@) == cli_lines(
            ls,
            lo as int,
            i as int,
            start_line as nat,
            prefix@,
        ) + cli_line(prefix@, (start_line + i) as nat, ls[i as int]));
    }
}

#[verifier::rlimit(40)]
fn push_cli_partial(out: &mut String, lines: &Vec<Vec<char>>, start_line: usize, prefix: &str, gap: &str)
    ensures
        final(out)@ == old(out)@ + cli_partial(char_views(lines@), start_line as nat, prefix@, gap@),
{
    let ghost s0 = out@;
    let len = lines.len();
    if len <= 10 {
        push_cli_lines(out, lines, 0, len, start_line, prefix);
    } else {
        push_cli_lines(out, lines, 0, 4, start_line, prefix);
        push_str(out, gap);
        push_str(out, "... (");
        push_decimal(out, (len - 7) as u128);
        push_str(out, " more lines)\n");
        push_cli_lines(out, lines, len - 3, len, start_line, prefix);
        assert(out@ =~= s0 + cli_partial(char_views(lines@), start_line as nat, prefix@, gap@));
    }
}

fn push_trimmed(out: &mut String, line: &[char])
    ensures
        final(out)@ == old(out)@ + trim(line@),
{
    let (lo, hi) = trim_bounds(line);
    let ghost s0 = out@;
    for i in lo..hi
        invariant
            lo <= hi <= line@.len(),
            out@ == s0 + line@.subrange(lo as int, i as int),
    {
        push_char(out, line[i]);
        assert(line@.subrange(lo as int, i + 1) =~= line@.subrange(lo as int, i as int).push(
            line@[i as int],
        ));
    }
}

/// The similarity line of a terminal entry.
pub open spec fn cli_similarity(d: Option<u64>) -> Seq<char> {
    match d {
        Some(x) => "║ Similarity: "@ + fixed_decimal(similarity(x), 4) + "\n"@,
        None => seq![],
    }
}

fn push_cli_similarity(out: &mut String, d: Option<u64>)
    ensures
        final(out)@ == old(out)@ + cli_similarity(d),
{
    if let Some(x) = d {
        push_str(out, "║ Similarity: ");
        push_similarity(out, x, 4);
        push_str(out, "\n");
    }
}

// ---------------------------------------------------------------------------
// Code blocks
// ---------------------------------------------------------------------------

/// One bullet per shown symbol.
pub open spec fn symbol_bullets(syms: Seq<Seq<char>>) -> Seq<char>
    decreases syms.len(),
{
    if syms.len() == 0 {
        seq![]
    } else {
        symbol_bullets(syms.drop_last()) + "║   • "@ + syms.last() + "\n"@
    }
}

/// The symbols part of a terminal code entry.
pub open spec fn cli_symbols(symbols: Seq<Seq<char>>) -> Seq<char> {
    if symbols.len() > 0 {
        "║ Symbols:\n"@ + symbol_bullets(display_symbols(symbols))
    } else {
        seq![]
    }
}

fn push_cli_symbols(out: &mut String, symbols: &Vec<String>)
    ensures
        final(out)@ == old(out)@ + cli_symbols(symbols@.map_values(|s: String| s@)),
{
    if symbols.len() > 0 {
        push_str(out, "║ Symbols:\n");
        let shown = display_symbol_list(symbols);
        let ghost sv = shown@.map_values(|s: String| s@);
        let ghost s0 = out@;
        for i in 0..shown.len()
            invariant
                sv == shown@.map_values(|s: String| s@),
                out@ == s0 + symbol_bullets(sv.take(i as int)),
        {
            push_str(out, "║   • ");
            push_str(out, shown[i].as_str());
            push_str(out, "\n");
            assert(sv.take(i + 1).drop_last() =~= sv.take(i as int));
        }
        assert(sv.take(shown@.len() as int) =~= sv);
    }
}

/// The content of a terminal code entry for a detail level.
pub open spec fn cli_code_content(content: Seq<char>, start_line: nat, detail: Seq<char>) -> Seq<char> {
    let ls = lines_of(content);
    if detail == "signatures"@ {
        if ls.len() > 0 {
            "║ │ "@ + pad_left(decimal(start_line), 4, ' ') + " │ "@ + trim(ls[0]) + "\n"@
        } else {
            seq![]
        }
    } else if detail == "full"@ {
        cli_lines(ls, 0, ls.len() as int, start_line, "║ │ "@)
    } else {
        cli_partial(ls, start_line, "║ │ "@, "║ │      │ "@)
    }
}

#[verifier::rlimit(40)]
fn push_cli_code_content(out: &mut String, content: &str, start_line: usize, detail_level: &str)
    ensures
        final(out)@ == old(out)@ + cli_code_content(content@, start_line as nat, detail_level@),
{
    let ghost s0 = out@;
    let chars = to_chars(content);
    let lines = split_lines(chars.as_slice());
    if detail_is(detail_level, "signatures") {
        if lines.len() > 0 {
            push_str(out, "║ │ ");
            push_padded(out, start_line as u128, 4, ' ');
            push_str(out, " │ ");
            push_trimmed(out, lines[0].as_slice());
            push_str(out, "\n");
            assert(lines@[0]@ == char_views(lines@)[0]);
            assert(out@ =~= s0 + cli_code_content(content@, start_line as nat, detail_level@));
        }
    } else if detail_is(detail_level, "full") {
        push_cli_lines(out, &lines, 0, lines.len(), start_line, "║ │ ");
    } else {
        push_cli_partial(out, &lines, start_line, "║ │ ", "║ │      │ ");
    }
}

/// The title lines of a terminal code entry: file and position.
pub open spec fn cli_code_title(idx: nat, n: nat, path: Seq<char>) -> Seq<char> {
    "╔══════════════════ File: "@ + path + " ══════════════════\n"@ + "║\n"@ + "║ Result "@
        + decimal(idx + 1) + " of "@ + decimal(n) + "\n"@
}

/// The language and line range of a terminal code entry.
pub open spec fn cli_code_meta(language: Seq<char>, s: usize, e: usize) -> Seq<char> {
    "║ Language: "@ + language + "\n"@ + "║ Lines: "@ + decimal(s as nat) + "-"@ + decimal(e as nat)
        + "\n"@
}

/// The head of a terminal code entry: file, position, language, lines,
/// similarity and symbols.
pub open spec fn cli_code_head(idx: nat, n: nat, b: CodeBlock) -> Seq<char> {
    cli_code_title(idx, n, b.path@) + cli_code_meta(b.language@, b.start_line, b.end_line)
        + cli_similarity(b.distance) + cli_symbols(b.symbols@.map_values(|s: String| s@))
}

/// One terminal code entry.
#[verifier::opaque]
pub open spec fn cli_code_entry(idx: nat, n: nat, b: CodeBlock, detail: Seq<char>) -> Seq<char> {
    cli_code_head(idx, n, b) + "║ Content:\n"@ + "║ ┌────────────────────────────────────\n"@
        + cli_code_content(b.content@, b.start_line as nat, detail)
        + "║ └────────────────────────────────────\n"@ + "╚════════════════════════════════════════\n\n"@
}

/// The first `k` terminal code entries.
pub open spec fn cli_code_entries(blocks: Seq<CodeBlock>, detail: Seq<char>, k: nat) -> Seq<char>
    decreases k,
{
    if k == 0 || k > blocks.len() {
        seq![]
    } else {
        cli_code_entries(blocks, detail, (k - 1) as nat) + cli_code_entry(
            (k - 1) as nat,
            blocks.len(),
            blocks[k - 1],
            detail,
        )
    }
}

/// The terminal listing of code blocks, in the given order.
pub open spec fn cli_code_blocks(blocks: Seq<CodeBlock>, detail: Seq<char>) -> Seq<char> {
    if blocks.len() == 0 {
        "No code blocks found for the query.\n"@
    } else {
        "Found "@ + decimal(blocks.len()) + " code blocks:\n\n"@ + cli_code_entries(
            blocks,
            detail,
            blocks.len(),
        )
    }
}

#[verifier::rlimit(40)]
fn push_cli_code_head(out: &mut String, idx: usize, n: usize, b: &CodeBlock)
    requires
        idx < usize::MAX,
    ensures
        final(out)@ == old(out)@ + cli_code_head(idx as nat, n as nat, *b),
{
    let ghost s0 = out@;
    push_str(out, "╔══════════════════ File: ");
    push_str(out, b.path.as_str());
    push_str(out, " ══════════════════\n");
    push_str(out, "║\n");
    push_str(out, "║ Result ");
    push_decimal(out, idx as u128 + 1);
    push_str(out, " of ");
    push_decimal(out, n as u128);
    push_str(out, "\n");
    assert(out@ =~= s0 + cli_code_title(idx as nat, n as nat, b.path@));
    let ghost s1 = out@;
    push_str(out, "║ Language: ");
    push_str(out, b.language.as_str());
    push_str(out, "\n");
    push_str(out, "║ Lines: ");
    push_decimal(out, b.start_line as u128);
    push_str(out, "-");
    push_decimal(out, b.end_line as u128);
    push_str(out, "\n");
    assert(out@ =~= s1 + cli_code_meta(b.language@, b.start_line, b.end_line));
    let ghost s2 = out@;
    push_cli_similarity(out, b.distance);
    push_cli_symbols(out, &b.symbols);
    assert(out@ =~= s0 + cli_code_head(idx as nat, n as nat, *b));
}

#[verifier::rlimit(40)]
fn push_cli_code_entry(out: &mut String, idx: usize, n: usize, b: &CodeBlock, detail_level: &str)
    requires
        idx < usize::MAX,
    ensures
        final(out)@ == old(out)@ + cli_code_entry(idx as nat, n as nat, *b, detail_level@),
{
    let ghost s0 = out@;
    push_cli_code_head(out, idx, n, b);
    push_str(out, "║ Content:\n");
    push_str(out, "║ ┌────────────────────────────────────\n");
    push_cli_code_content(out, b.content.as_str(), b.start_line, detail_level);
    push_str(out, "║ └────────────────────────────────────\n");
    push_str(out, "╚════════════════════════════════════════\n\n");
    proof {
        reveal(cli_code_entry);
    }
    assert(out@ =~= s0 + cli_code_entry(idx as nat, n as nat, *b, detail_level@));
}

/// The terminal listing of code blocks with a detail level: `signatures`
/// shows the first line, `full` every line, any other level the first and
/// last lines of long blocks.
#[verifier::rlimit(40)]
pub fn render_code_blocks_with_config(blocks: &[CodeBlock], detail_level: &str) -> (r: String)
    ensures
        r@ == cli_code_blocks(blocks@, detail_level@),
{
    if blocks.len() == 0 {
        return "No code blocks found for the query.\n".to_owned();
    }
    let mut out = String::new();
    push_str(&mut out, "Found ");
    push_decimal(&mut out, blocks.len() as u128);
    push_str(&mut out, " code blocks:\n\n");
    let ghost head = out@;
    for i in 0..blocks.len()
        invariant
            out@ == head + cli_code_entries(blocks@, detail_level@, i as nat),
    {
        push_cli_code_entry(&mut out, i, blocks.len(), &blocks[i], detail_level);
    }
    out
}

/// The terminal listing of code blocks at the `partial` detail level.
pub fn render_code_blocks(blocks: &[CodeBlock]) -> (r: String)
    ensures
        r@ == cli_code_blocks(blocks@, "partial"@),
{
    render_code_blocks_with_config(blocks, "partial")
}

proof fn lemma_cli_code_entries_prefix(blocks: Seq<CodeBlock>, detail: Seq<char>, n: nat, m: nat)
    requires
        n <= m <= blocks.len(),
    ensures
        cli_code_entries(blocks, detail, n).len() <= cli_code_entries(blocks, detail, m).len(),
        cli_code_entries(blocks, detail, m).subrange(0, cli_code_entries(blocks, detail, n).len() as int) == cli_code_entries(blocks, detail, n),
    decreases m,
{
    if n < m {
        lemma_cli_code_entries_prefix(blocks, detail, n, (m - 1) as nat);
        let p = cli_code_entries(blocks, detail, (m - 1) as nat);
        let q = cli_code_entries(blocks, detail, n);
        assert((p + cli_code_entry((m - 1) as nat, blocks.len(), blocks[m - 1], detail)).subrange(0, q.len() as int) =~= p.subrange(0, q.len() as int));
    }
}

/// The terminal listing of code blocks is a header that counts them and an
/// entry for each block, in order and numbered from 1, each starting where
/// the ones before it end, with nothing after the last. Without blocks it is
/// a short note.
pub proof fn law_cli_code_listing(blocks: Seq<CodeBlock>, detail: Seq<char>)
    ensures
        blocks.len() == 0 ==> cli_code_blocks(blocks, detail) == "No code blocks found for the query.\n"@,
        blocks.len() > 0 ==> {
            let out = cli_code_blocks(blocks, detail);
            let h = "Found "@ + decimal(blocks.len()) + " code blocks:\n\n"@;
            &&& out.subrange(0, h.len() as int) == h
            &&& out.len() == h.len() + cli_code_entries(blocks, detail, blocks.len()).len()
            &&& forall|i: int|
                0 <= i < blocks.len() ==> out.subrange(
                    (h.len() + cli_code_entries(blocks, detail, i as nat).len()) as int,
                    (h.len() + cli_code_entries(blocks, detail, (i + 1) as nat).len()) as int,
                ) == cli_code_entry(i as nat, blocks.len(), #[trigger] blocks[i], detail)
        },
{
    let n = blocks.len();
    if n > 0 {
        let h = "Found "@ + decimal(blocks.len()) + " code blocks:\n\n"@;
        let all = cli_code_entries(blocks, detail, n);
        let out = cli_code_blocks(blocks, detail);
        assert(out == h + all);
        assert(out.subrange(0, h.len() as int) =~= h);
        assert forall|i: int| 0 <= i < n implies out.subrange(
            (h.len() + cli_code_entries(blocks, detail, i as nat).len()) as int,
            (h.len() + cli_code_entries(blocks, detail, (i + 1) as nat).len()) as int,
        ) == cli_code_entry(i as nat, blocks.len(), #[trigger] blocks[i], detail) by {
            lemma_cli_code_entries_prefix(blocks, detail, (i + 1) as nat, n);
            let a = cli_code_entries(blocks, detail, i as nat);
            let b = cli_code_entries(blocks, detail, (i + 1) as nat);
            assert(b == a + cli_code_entry(i as nat, blocks.len(), blocks[i], detail));
            assert(all.subrange(0, b.len() as int) == b);
            assert(out.subrange((h.len() + a.len()) as int, (h.len() + b.len()) as int) =~= all.subrange(
                a.len() as int,
                b.len() as int,
            ));
            assert(all.subrange(a.len() as int, b.len() as int) =~= b.subrange(a.len() as int, b.len() as int));
        }
    }
}

// ---------------------------------------------------------------------------
// Text and document blocks, grouped by file
// ---------------------------------------------------------------------------

/// The top line of a file box.
pub open spec fn cli_file_top(path: Seq<char>) -> Seq<char> {
    "╔══════════════════ File: "@ + path + " ══════════════════\n"@
}

/// The bottom line of a file box.
pub open spec fn cli_file_bottom() -> Seq<char> {
    "╚══════════════════════════════════════════════\n\n"@
}

/// The separator after block `k` of `m` in a file box (none after the last).
pub open spec fn cli_separator(k: nat, m: nat) -> Seq<char> {
    if k + 1 < m {
        "║\n╠══════════════════════════════════════════════\n"@
    } else {
        seq![]
    }
}

/// The heading lines of block `k` of `m` in a file box.
pub open spec fn cli_block_heading(kind: Seq<char>, k: nat, m: nat, s: usize, e: usize, d: Option<u64>) -> Seq<
    char,
> {
    "║\n"@ + "║ Block "@ + decimal(k + 1) + " of "@ + decimal(m) + ": "@ + kind + "\n"@ + "║ Lines: "@
        + decimal(s as nat) + "-"@ + decimal(e as nat) + "\n"@ + cli_similarity(d) + "║\n"@
}

#[verifier::rlimit(40)]
fn push_cli_block_heading(out: &mut String, kind: &str, k: usize, m: usize, s: usize, e: usize, d: Option<u64>)
    requires
        k < usize::MAX,
    ensures
        final(out)@ == old(out)@ + cli_block_heading(kind@, k as nat, m as nat, s, e, d),
{
    let ghost s0 = out@;
    push_str(out, "║\n");
    push_str(out, "║ Block ");
    push_decimal(out, k as u128 + 1);
    push_str(out, " of ");
    push_decimal(out, m as u128);
    push_str(out, ": ");
    push_str(out, kind);
    push_str(out, "\n");
    push_str(out, "║ Lines: ");
    push_decimal(out, s as u128);
    push_str(out, "-");
    push_decimal(out, e as u128);
    push_str(out, "\n");
    let ghost s1 = out@;
    push_cli_similarity(out, d);
    push_str(out, "║\n");
    assert(out@ =~= s0 + cli_block_heading(kind@, k as nat, m as nat, s, e, d));
}

fn push_cli_separator(out: &mut String, k: usize, m: usize)
    ensures
        final(out)@ == old(out)@ + cli_separator(k as nat, m as nat),
{
    if k < m && k < m - 1 {
        push_str(out, "║\n╠══════════════════════════════════════════════\n");
    }
}

/// The content of a terminal text entry for a detail level.
pub open spec fn cli_text_content(content: Seq<char>, start_line: nat, detail: Seq<char>) -> Seq<char> {
    let ls = lines_of(content);
    if detail == "signatures"@ {
        if ls.len() > 0 {
            "║ "@ + pad_left(decimal(start_line), 4, ' ') + " │ "@ + trim(ls[0]) + "\n"@
        } else {
            seq![]
        }
    } else if detail == "full"@ {
        cli_lines(ls, 0, ls.len() as int, start_line, "║ "@)
    } else {
        cli_partial(ls, start_line, "║ "@, "║      │ "@)
    }
}

#[verifier::rlimit(40)]
fn push_cli_text_content(out: &mut String, content: &str, start_line: usize, detail_level: &str)
    ensures
        final(out)@ == old(out)@ + cli_text_content(content@, start_line as nat, detail_level@),
{
    let ghost s0 = out@;
    let chars = to_chars(content);
    let lines = split_lines(chars.as_slice());
    if detail_is(detail_level, "signatures") {
        if lines.len() > 0 {
            push_str(out, "║ ");
            push_padded(out, start_line as u128, 4, ' ');
            push_str(out, " │ ");
            push_trimmed(out, lines[0].as_slice());
            push_str(out, "\n");
            assert(lines@[0]@ == char_views(lines@)[0]);
            assert(out@ =~= s0 + cli_text_content(content@, start_line as nat, detail_level@));
        }
    } else if detail_is(detail_level, "full") {
        push_cli_lines(out, &lines, 0, lines.len(), start_line, "║ ");
    } else {
        push_cli_partial(out, &lines, start_line, "║ ", "║      │ ");
    }
}

/// One terminal text entry, block `k` of `m` in its file.
#[verifier::opaque]
pub open spec fn cli_text_entry(k: nat, m: nat, b: TextBlock, detail: Seq<char>) -> Seq<char> {
    cli_block_heading("Text Block"@, k, m, b.start_line, b.end_line, b.distance) + cli_text_content(
        b.content@,
        b.start_line as nat,
        detail,
    ) + cli_separator(k, m)
}

/// The first `n` entries of a file box of text blocks.
pub open spec fn cli_text_items(blocks: Seq<TextBlock>, idx: Seq<int>, n: nat, detail: Seq<char>) -> Seq<char>
    decreases n,
{
    if n == 0 || n > idx.len() {
        seq![]
    } else {
        cli_text_items(blocks, idx, (n - 1) as nat, detail) + cli_text_entry(
            (n - 1) as nat,
            idx.len(),
            blocks[idx[n - 1]],
            detail,
        )
    }
}

/// The first `n` file boxes of text blocks.
pub open spec fn cli_text_groups(
    blocks: Seq<TextBlock>,
    groups: Seq<(Seq<char>, Seq<int>)>,
    n: nat,
    detail: Seq<char>,
) -> Seq<char>
    decreases n,
{
    if n == 0 || n > groups.len() {
        seq![]
    } else {
        cli_text_groups(blocks, groups, (n - 1) as nat, detail) + cli_file_top(groups[n - 1].0)
            + cli_text_items(blocks, groups[n - 1].1, groups[n - 1].1.len(), detail)
            + cli_file_bottom()
    }
}

/// The terminal listing of text blocks, grouped by file (files in the order
/// in which they first occur).
pub open spec fn cli_text_blocks(blocks: Seq<TextBlock>, detail: Seq<char>) -> Seq<char> {
    if blocks.len() == 0 {
        "No text blocks found.\n"@
    } else {
        let groups = group_by_path(blocks);
        "Found "@ + decimal(blocks.len()) + " text blocks:\n\n"@ + cli_text_groups(
            blocks,
            groups,
            groups.len(),
            detail,
        )
    }
}

#[verifier::rlimit(40)]
fn push_cli_text_entry(out: &mut String, k: usize, m: usize, b: &TextBlock, detail_level: &str)
    requires
        k < usize::MAX,
    ensures
        final(out)@ == old(out)@ + cli_text_entry(k as nat, m as nat, *b, detail_level@),
{
    let ghost s0 = out@;
    push_cli_block_heading(out, "Text Block", k, m, b.start_line, b.end_line, b.distance);
    push_cli_text_content(out, b.content.as_str(), b.start_line, detail_level);
    push_cli_separator(out, k, m);
    proof {
        reveal(cli_text_entry);
    }
    assert(out@ =~= s0 + cli_text_entry(k as nat, m as nat, *b, detail_level@));
}

/// The terminal listing of text blocks with a detail level.
#[verifier::rlimit(40)]
pub fn render_text_blocks_with_config(blocks: &[TextBlock], detail_level: &str) -> (r: String)
    ensures
        r@ == cli_text_blocks(blocks@, detail_level@),
{
    if blocks.len() == 0 {
        return "No text blocks found.\n".to_owned();
    }
    let groups = group_blocks(blocks);
    let ghost gs = group_views(groups@);
    let mut out = String::new();
    push_str(&mut out, "Found ");
    push_decimal(&mut out, blocks.len() as u128);
    push_str(&mut out, " text blocks:\n\n");
    let ghost head = out@;
    for g in 0..groups.len()
        invariant
            gs == group_views(groups@),
            gs == group_by_path(blocks@),
            forall|a: int, k: int|
                0 <= a < groups@.len() && 0 <= k < groups@[a].1@.len() ==> #[trigger] groups@[a].1@[k]
                    < blocks@.len(),
            out@ == head + cli_text_groups(blocks@, gs, g as nat, detail_level@),
    {
        let ghost before = out@;
        push_str(&mut out, "╔══════════════════ File: ");
        push_str(&mut out, groups[g].0.as_str());
        push_str(&mut out, " ══════════════════\n");
        let ghost mid = out@;
        let idx = &groups[g].1;
        let m = idx.len();
        for k in 0..m
            invariant
                gs == group_views(groups@),
                idx == &groups@[g as int].1,
                m == idx@.len(),
                g < groups@.len(),
                forall|a: int, k: int|
                    0 <= a < groups@.len() && 0 <= k < groups@[a].1@.len() ==> #[trigger] groups@[a].1@[k]
                        < blocks@.len(),
                out@ == mid + cli_text_items(blocks@, gs[g as int].1, k as nat, detail_level@),
        {
            let bi = idx[k];
            assert(gs[g as int].1[k as int] == bi as int);
            push_cli_text_entry(&mut out, k, m, &blocks[bi], detail_level);
        }
        push_str(&mut out, "╚══════════════════════════════════════════════\n\n");
        assert(out@ =~= before + cli_file_top(gs[g as int].0) + cli_text_items(
            blocks@,
            gs[g as int].1,
            gs[g as int].1.len(),
            detail_level@,
        ) + cli_file_bottom());
    }
    out
}

/// The title line of a terminal document entry, when there is a title.
pub open spec fn cli_title(title: Seq<char>) -> Seq<char> {
    if title.len() > 0 {
        "║ Title: "@ + title + "\n"@
    } else {
        seq![]
    }
}

/// The content of a terminal document entry for a detail level.
pub open spec fn cli_doc_content(title: Seq<char>, content: Seq<char>, start_line: nat, detail: Seq<char>) -> Seq<
    char,
> {
    let ls = lines_of(content);
    if detail == "signatures"@ {
        if title.len() > 0 {
            cli_title(title)
        } else if ls.len() > 0 {
            "║ "@ + decimal(start_line) + ": "@ + trim(ls[0]) + "\n"@
        } else {
            seq![]
        }
    } else if detail == "full"@ {
        cli_title(title) + cli_lines(ls, 0, ls.len() as int, start_line, "║ "@)
    } else {
        cli_title(title) + cli_partial(ls, start_line, "║ "@, "║      │ "@)
    }
}

fn push_cli_title(out: &mut String, title: &String)
    ensures
        final(out)@ == old(out)@ + cli_title(title@),
{
    let chars = to_chars(title.as_str());
    if chars.len() > 0 {
        push_str(out, "║ Title: ");
        push_str(out, title.as_str());
        push_str(out, "\n");
    }
}

#[verifier::rlimit(40)]
fn push_cli_doc_content(out: &mut String, title: &String, content: &str, start_line: usize, detail_level: &str)
    ensures
        final(out)@ == old(out)@ + cli_doc_content(title@, content@, start_line as nat, detail_level@),
{
    let ghost s0 = out@;
    let chars = to_chars(content);
    let lines = split_lines(chars.as_slice());
    let title_chars = to_chars(title.as_str());
    if detail_is(detail_level, "signatures") {
        if title_chars.len() > 0 {
            push_cli_title(out, title);
        } else if lines.len() > 0 {
            push_str(out, "║ ");
            push_decimal(out, start_line as u128);
            push_str(out, ": ");
            push_trimmed(out, lines[0].as_slice());
            push_str(out, "\n");
            assert(lines@[0]@ == char_views(lines@)[0]);
            assert(out@ =~= s0 + cli_doc_content(title@, content@, start_line as nat, detail_level@));
        }
    } else if detail_is(detail_level, "full") {
        push_cli_title(out, title);
        push_cli_lines(out, &lines, 0, lines.len(), start_line, "║ ");
    } else {
        push_cli_title(out, title);
        push_cli_partial(out, &lines, start_line, "║ ", "║      │ ");
    }
}

/// One terminal document entry, block `k` of `m` in its file.
#[verifier::opaque]
pub open spec fn cli_doc_entry(k: nat, m: nat, b: DocumentBlock, detail: Seq<char>) -> Seq<char> {
    cli_block_heading("Document Block"@, k, m, b.start_line, b.end_line, b.distance) + cli_doc_content(
        b.title@,
        b.content@,
        b.start_line as nat,
        detail,
    ) + cli_separator(k, m)
}

/// The first `n` entries of a file box of document blocks.
pub open spec fn cli_doc_items(blocks: Seq<DocumentBlock>, idx: Seq<int>, n: nat, detail: Seq<char>) -> Seq<char>
    decreases n,
{
    if n == 0 || n > idx.len() {
        seq![]
    } else {
        cli_doc_items(blocks, idx, (n - 1) as nat, detail) + cli_doc_entry(
            (n - 1) as nat,
            idx.len(),
            blocks[idx[n - 1]],
            detail,
        )
    }
}

/// The first `n` file boxes of document blocks.
pub open spec fn cli_doc_groups(
    blocks: Seq<DocumentBlock>,
    groups: Seq<(Seq<char>, Seq<int>)>,
    n: nat,
    detail: Seq<char>,
) -> Seq<char>
    decreases n,
{
    if n == 0 || n > groups.len() {
        seq![]
    } else {
        cli_doc_groups(blocks, groups, (n - 1) as nat, detail) + cli_file_top(groups[n - 1].0)
            + cli_doc_items(blocks, groups[n - 1].1, groups[n - 1].1.len(), detail)
            + cli_file_bottom()
    }
}

/// The terminal listing of document blocks, grouped by file.
pub open spec fn cli_doc_blocks(blocks: Seq<DocumentBlock>, detail: Seq<char>) -> Seq<char> {
    if blocks.len() == 0 {
        "No document blocks found.\n"@
    } else {
        let groups = group_by_path(blocks);
        "Found "@ + decimal(blocks.len()) + " document blocks:\n\n"@ + cli_doc_groups(
            blocks,
            groups,
            groups.len(),
            detail,
        )
    }
}

#[verifier::rlimit(40)]
fn push_cli_doc_entry(out: &mut String, k: usize, m: usize, b: &DocumentBlock, detail_level: &str)
    requires
        k < usize::MAX,
    ensures
        final(out)@ == old(out)@ + cli_doc_entry(k as nat, m as nat, *b, detail_level@),
{
    let ghost s0 = out@;
    push_cli_block_heading(out, "Document Block", k, m, b.start_line, b.end_line, b.distance);
    push_cli_doc_content(out, &b.title, b.content.as_str(), b.start_line, detail_level);
    push_cli_separator(out, k, m);
    proof {
        reveal(cli_doc_entry);
    }
    assert(out@ =~= s0 + cli_doc_entry(k as nat, m as nat, *b, detail_level@));
}

/// The terminal listing of document blocks with a detail level.
#[verifier::rlimit(40)]
pub fn render_document_blocks_with_config(blocks: &[DocumentBlock], detail_level: &str) -> (r: String)
    ensures
        r@ == cli_doc_blocks(blocks@, detail_level@),
{
    if blocks.len() == 0 {
        return "No document blocks found.\n".to_owned();
    }
    let groups = group_blocks(blocks);
    let ghost gs = group_views(groups@);
    let mut out = String::new();
    push_str(&mut out, "Found ");
    push_decimal(&mut out, blocks.len() as u128);
    push_str(&mut out, " document blocks:\n\n");
    let ghost head = out@;
    for g in 0..groups.len()
        invariant
            gs == group_views(groups@),
            gs == group_by_path(blocks@),
            forall|a: int, k: int|
                0 <= a < groups@.len() && 0 <= k < groups@[a].1@.len() ==> #[trigger] groups@[a].1@[k]
                    < blocks@.len(),
            out@ == head + cli_doc_groups(blocks@, gs, g as nat, detail_level@),
    {
        let ghost before = out@;
        push_str(&mut out, "╔══════════════════ File: ");
        push_str(&mut out, groups[g].0.as_str());
        push_str(&mut out, " ══════════════════\n");
        let ghost mid = out@;
        let idx = &groups[g].1;
        let m = idx.len();
        for k in 0..m
            invariant
                gs == group_views(groups@),
                idx == &groups@[g as int].1,
                m == idx@.len(),
                g < groups@.len(),
                forall|a: int, k: int|
                    0 <= a < groups@.len() && 0 <= k < groups@[a].1@.len() ==> #[trigger] groups@[a].1@[k]
                        < blocks@.len(),
                out@ == mid + cli_doc_items(blocks@, gs[g as int].1, k as nat, detail_level@),
        {
            let bi = idx[k];
            assert(gs[g as int].1[k as int] == bi as int);
            push_cli_doc_entry(&mut out, k, m, &blocks[bi], detail_level);
        }
        push_str(&mut out, "╚══════════════════════════════════════════════\n\n");
        assert(out@ =~= before + cli_file_top(gs[g as int].0) + cli_doc_items(
            blocks@,
            gs[g as int].1,
            gs[g as int].1.len(),
            detail_level@,
        ) + cli_file_bottom());
    }
    out
}

proof fn lemma_cli_text_items_prefix(blocks: Seq<TextBlock>, idx: Seq<int>, n: nat, m: nat, detail: Seq<char>)
    requires
        n <= m <= idx.len(),
    ensures
        cli_text_items(blocks, idx, n, detail).len() <= cli_text_items(blocks, idx, m, detail).len(),
        cli_text_items(blocks, idx, m, detail).subrange(0, cli_text_items(blocks, idx, n, detail).len() as int)
            == cli_text_items(blocks, idx, n, detail),
    decreases m,
{
    if n < m {
        lemma_cli_text_items_prefix(blocks, idx, n, (m - 1) as nat, detail);
        let p = cli_text_items(blocks, idx, (m - 1) as nat, detail);
        let q = cli_text_items(blocks, idx, n, detail);
        assert((p + cli_text_entry((m - 1) as nat, idx.len(), blocks[idx[m - 1]], detail)).subrange(0, q.len() as int)
            =~= p.subrange(0, q.len() as int));
    }
}

proof fn lemma_cli_text_groups_prefix(
    blocks: Seq<TextBlock>,
    groups: Seq<(Seq<char>, Seq<int>)>,
    n: nat,
    m: nat,
    detail: Seq<char>,
)
    requires
        n <= m <= groups.len(),
    ensures
        cli_text_groups(blocks, groups, n, detail).len() <= cli_text_groups(blocks, groups, m, detail).len(),
        cli_text_groups(blocks, groups, m, detail).subrange(0, cli_text_groups(blocks, groups, n, detail).len() as int)
            == cli_text_groups(blocks, groups, n, detail),
    decreases m,
{
    if n < m {
        lemma_cli_text_groups_prefix(blocks, groups, n, (m - 1) as nat, detail);
        let p = cli_text_groups(blocks, groups, (m - 1) as nat, detail);
        let q = cli_text_groups(blocks, groups, n, detail);
        let g = groups[m - 1];
        assert((p + cli_file_top(g.0) + cli_text_items(blocks, g.1, g.1.len(), detail) + cli_file_bottom()).subrange(
            0,
            q.len() as int,
        ) =~= p.subrange(0, q.len() as int));
    }
}

/// The terminal listing of text blocks is a header that counts them, then a
/// box per file (see `law_grouping`), in order: the file's top line, an
/// entry for each of the file's blocks, in order, numbered within the file,
/// and the bottom line. Each box starts where the ones before it end, each
/// entry where the ones before it in its box end, and nothing else follows.
/// Without blocks it is a short note.
pub proof fn law_cli_text_listing(blocks: Seq<TextBlock>, detail: Seq<char>)
    ensures
        blocks.len() == 0 ==> cli_text_blocks(blocks, detail) == "No text blocks found.\n"@,
        blocks.len() > 0 ==> {
            let out = cli_text_blocks(blocks, detail);
            let gs = group_by_path(blocks);
            let h = "Found "@ + decimal(blocks.len()) + " text blocks:\n\n"@;
            &&& out.subrange(0, h.len() as int) == h
            &&& out.len() == h.len() + cli_text_groups(blocks, gs, gs.len(), detail).len()
            &&& forall|g: int|
                0 <= g < gs.len() ==> out.subrange(
                    (h.len() + cli_text_groups(blocks, gs, g as nat, detail).len()) as int,
                    (h.len() + cli_text_groups(blocks, gs, (g + 1) as nat, detail).len()) as int,
                ) == cli_file_top((#[trigger] gs[g]).0) + cli_text_items(blocks, gs[g].1, gs[g].1.len(), detail)
                    + cli_file_bottom()
            &&& forall|g: int, k: int|
                0 <= g < gs.len() && 0 <= k < gs[g].1.len() ==> cli_text_items(
                    blocks,
                    gs[g].1,
                    gs[g].1.len(),
                    detail,
                ).subrange(
                    cli_text_items(blocks, gs[g].1, k as nat, detail).len() as int,
                    cli_text_items(blocks, gs[g].1, (k + 1) as nat, detail).len() as int,
                ) == cli_text_entry(k as nat, gs[g].1.len(), blocks[#[trigger] gs[g].1[k]], detail)
        },
{
    let n = blocks.len();
    if n > 0 {
        let gs = group_by_path(blocks);
        let h = "Found "@ + decimal(n) + " text blocks:\n\n"@;
        let all = cli_text_groups(blocks, gs, gs.len(), detail);
        let out = cli_text_blocks(blocks, detail);
        assert(out == h + all);
        assert(out.subrange(0, h.len() as int) =~= h);
        assert forall|g: int| 0 <= g < gs.len() implies out.subrange(
            (h.len() + cli_text_groups(blocks, gs, g as nat, detail).len()) as int,
            (h.len() + cli_text_groups(blocks, gs, (g + 1) as nat, detail).len()) as int,
        ) == cli_file_top((#[trigger] gs[g]).0) + cli_text_items(blocks, gs[g].1, gs[g].1.len(), detail)
            + cli_file_bottom() by {
            lemma_cli_text_groups_prefix(blocks, gs, (g + 1) as nat, gs.len(), detail);
            let a = cli_text_groups(blocks, gs, g as nat, detail);
            let e = cli_file_top(gs[g].0) + cli_text_items(blocks, gs[g].1, gs[g].1.len(), detail) + cli_file_bottom();
            let b = cli_text_groups(blocks, gs, (g + 1) as nat, detail);
            assert(b =~= a + e);
            assert(all.subrange(0, b.len() as int) == b);
            assert(out.subrange((h.len() + a.len()) as int, (h.len() + b.len()) as int) =~= all.subrange(
                a.len() as int,
                b.len() as int,
            ));
            assert(all.subrange(a.len() as int, b.len() as int) =~= b.subrange(a.len() as int, b.len() as int));
            assert(b.subrange(a.len() as int, b.len() as int) =~= e);
        }
        assert forall|g: int, k: int| 0 <= g < gs.len() && 0 <= k < gs[g].1.len() implies cli_text_items(
            blocks,
            gs[g].1,
            gs[g].1.len(),
            detail,
        ).subrange(
            cli_text_items(blocks, gs[g].1, k as nat, detail).len() as int,
            cli_text_items(blocks, gs[g].1, (k + 1) as nat, detail).len() as int,
        ) == cli_text_entry(k as nat, gs[g].1.len(), blocks[#[trigger] gs[g].1[k]], detail) by {
            let idx = gs[g].1;
            lemma_cli_text_items_prefix(blocks, idx, (k + 1) as nat, idx.len(), detail);
            let whole = cli_text_items(blocks, idx, idx.len(), detail);
            let a = cli_text_items(blocks, idx, k as nat, detail);
            let e = cli_text_entry(k as nat, idx.len(), blocks[idx[k]], detail);
            let b = cli_text_items(blocks, idx, (k + 1) as nat, detail);
            assert(b == a + e);
            assert(whole.subrange(0, b.len() as int) == b);
            assert(whole.subrange(a.len() as int, b.len() as int) =~= b.subrange(a.len() as int, b.len() as int));
            assert(b.subrange(a.len() as int, b.len() as int) =~= e);
        }
    }
}

proof fn lemma_cli_doc_items_prefix(blocks: Seq<DocumentBlock>, idx: Seq<int>, n: nat, m: nat, detail: Seq<char>)
    requires
        n <= m <= idx.len(),
    ensures
        cli_doc_items(blocks, idx, n, detail).len() <= cli_doc_items(blocks, idx, m, detail).len(),
        cli_doc_items(blocks, idx, m, detail).subrange(0, cli_doc_items(blocks, idx, n, detail).len() as int)
            == cli_doc_items(blocks, idx, n, detail),
    decreases m,
{
    if n < m {
        lemma_cli_doc_items_prefix(blocks, idx, n, (m - 1) as nat, detail);
        let p = cli_doc_items(blocks, idx, (m - 1) as nat, detail);
        let q = cli_doc_items(blocks, idx, n, detail);
        assert((p + cli_doc_entry((m - 1) as nat, idx.len(), blocks[idx[m - 1]], detail)).subrange(0, q.len() as int)
            =~= p.subrange(0, q.len() as int));
    }
}

proof fn lemma_cli_doc_groups_prefix(
    blocks: Seq<DocumentBlock>,
    groups: Seq<(Seq<char>, Seq<int>)>,
    n: nat,
    m: nat,
    detail: Seq<char>,
)
    requires
        n <= m <= groups.len(),
    ensures
        cli_doc_groups(blocks, groups, n, detail).len() <= cli_doc_groups(blocks, groups, m, detail).len(),
        cli_doc_groups(blocks, groups, m, detail).subrange(0, cli_doc_groups(blocks, groups, n, detail).len() as int)
            == cli_doc_groups(blocks, groups, n, detail),
    decreases m,
{
    if n < m {
        lemma_cli_doc_groups_prefix(blocks, groups, n, (m - 1) as nat, detail);
        let p = cli_doc_groups(blocks, groups, (m - 1) as nat, detail);
        let q = cli_doc_groups(blocks, groups, n, detail);
        let g = groups[m - 1];
        assert((p + cli_file_top(g.0) + cli_doc_items(blocks, g.1, g.1.len(), detail) + cli_file_bottom()).subrange(
            0,
            q.len() as int,
        ) =~= p.subrange(0, q.len() as int));
    }
}

/// The terminal listing of document blocks is a header that counts them, then a
/// box per file (see `law_grouping`), in order: the file's top line, an
/// entry for each of the file's blocks, in order, numbered within the file,
/// and the bottom line. Each box starts where the ones before it end, each
/// entry where the ones before it in its box end, and nothing else follows.
/// Without blocks it is a short note.
pub proof fn law_cli_doc_listing(blocks: Seq<DocumentBlock>, detail: Seq<char>)
    ensures
        blocks.len() == 0 ==> cli_doc_blocks(blocks, detail) == "No document blocks found.\n"@,
        blocks.len() > 0 ==> {
            let out = cli_doc_blocks(blocks, detail);
            let gs = group_by_path(blocks);
            let h = "Found "@ + decimal(blocks.len()) + " document blocks:\n\n"@;
            &&& out.subrange(0, h.len() as int) == h
            &&& out.len() == h.len() + cli_doc_groups(blocks, gs, gs.len(), detail).len()
            &&& forall|g: int|
                0 <= g < gs.len() ==> out.subrange(
                    (h.len() + cli_doc_groups(blocks, gs, g as nat, detail).len()) as int,
                    (h.len() + cli_doc_groups(blocks, gs, (g + 1) as nat, detail).len()) as int,
                ) == cli_file_top((#[trigger] gs[g]).0) + cli_doc_items(blocks, gs[g].1, gs[g].1.len(), detail)
                    + cli_file_bottom()
            &&& forall|g: int, k: int|
                0 <= g < gs.len() && 0 <= k < gs[g].1.len() ==> cli_doc_items(
                    blocks,
                    gs[g].1,
                    gs[g].1.len(),
                    detail,
                ).subrange(
                    cli_doc_items(blocks, gs[g].1, k as nat, detail).len() as int,
                    cli_doc_items(blocks, gs[g].1, (k + 1) as nat, detail).len() as int,
                ) == cli_doc_entry(k as nat, gs[g].1.len(), blocks[#[trigger] gs[g].1[k]], detail)
        },
{
    let n = blocks.len();
    if n > 0 {
        let gs = group_by_path(blocks);
        let h = "Found "@ + decimal(n) + " document blocks:\n\n"@;
        let all = cli_doc_groups(blocks, gs, gs.len(), detail);
        let out = cli_doc_blocks(blocks, detail);
        assert(out == h + all);
        assert(out.subrange(0, h.len() as int) =~= h);
        assert forall|g: int| 0 <= g < gs.len() implies out.subrange(
            (h.len() + cli_doc_groups(blocks, gs, g as nat, detail).len()) as int,
            (h.len() + cli_doc_groups(blocks, gs, (g + 1) as nat, detail).len()) as int,
        ) == cli_file_top((#[trigger] gs[g]).0) + cli_doc_items(blocks, gs[g].1, gs[g].1.len(), detail)
            + cli_file_bottom() by {
            lemma_cli_doc_groups_prefix(blocks, gs, (g + 1) as nat, gs.len(), detail);
            let a = cli_doc_groups(blocks, gs, g as nat, detail);
            let e = cli_file_top(gs[g].0) + cli_doc_items(blocks, gs[g].1, gs[g].1.len(), detail) + cli_file_bottom();
            let b = cli_doc_groups(blocks, gs, (g + 1) as nat, detail);
            assert(b =~= a + e);
            assert(all.subrange(0, b.len() as int) == b);
            assert(out.subrange((h.len() + a.len()) as int, (h.len() + b.len()) as int) =~= all.subrange(
                a.len() as int,
                b.len() as int,
            ));
            assert(all.subrange(a.len() as int, b.len() as int) =~= b.subrange(a.len() as int, b.len() as int));
            assert(b.subrange(a.len() as int, b.len() as int) =~= e);
        }
        assert forall|g: int, k: int| 0 <= g < gs.len() && 0 <= k < gs[g].1.len() implies cli_doc_items(
            blocks,
            gs[g].1,
            gs[g].1.len(),
            detail,
        ).subrange(
            cli_doc_items(blocks, gs[g].1, k as nat, detail).len() as int,
            cli_doc_items(blocks, gs[g].1, (k + 1) as nat, detail).len() as int,
        ) == cli_doc_entry(k as nat, gs[g].1.len(), blocks[#[trigger] gs[g].1[k]], detail) by {
            let idx = gs[g].1;
            lemma_cli_doc_items_prefix(blocks, idx, (k + 1) as nat, idx.len(), detail);
            let whole = cli_doc_items(blocks, idx, idx.len(), detail);
            let a = cli_doc_items(blocks, idx, k as nat, detail);
            let e = cli_doc_entry(k as nat, idx.len(), blocks[idx[k]], detail);
            let b = cli_doc_items(blocks, idx, (k + 1) as nat, detail);
            assert(b == a + e);
            assert(whole.subrange(0, b.len() as int) == b);
            assert(whole.subrange(a.len() as int, b.len() as int) =~= b.subrange(a.len() as int, b.len() as int));
            assert(b.subrange(a.len() as int, b.len() as int) =~= e);
        }
    }
}

// ---------------------------------------------------------------------------
// Compact listing
// ---------------------------------------------------------------------------

/// The similarity of a compact entry: a percentage with one decimal, or
/// `N/A` without a distance.
pub open spec fn compact_similarity(d: Option<u64>) -> Seq<char> {
    match d {
        Some(x) => fixed_decimal(similarity(x) * 100, 1) + "%"@,
        None => "N/A"@,
    }
}

/// The symbols line of a compact entry: up to five symbols, sorted and each
/// once.
pub open spec fn compact_symbols(symbols: Seq<Seq<char>>) -> Seq<char> {
    if symbols.len() > 0 {
        let su = sorted_unique(symbols);
        let shown = if su.len() > 5 {
            su.take(5)
        } else {
            su
        };
        "    "@ + crate::text::join(shown, ", "@) + "\n"@
    } else {
        seq![]
    }
}

/// The preview line of a compact entry: the trimmed first line, cut to 80
/// characters with an ellipsis when longer.
pub open spec fn compact_preview(content: Seq<char>) -> Seq<char> {
    let ls = lines_of(content);
    if ls.len() > 0 {
        let t = trim(ls[0]);
        if t.len() > 80 {
            "    "@ + t.take(80) + "…"@ + "\n"@
        } else {
            "    "@ + t + "\n"@
        }
    } else {
        seq![]
    }
}

/// One compact entry.
#[verifier::opaque]
pub open spec fn compact_entry(idx: nat, b: CodeBlock) -> Seq<char> {
    "["@ + decimal(idx + 1) + "] "@ + b.path@ + ":"@ + decimal(b.start_line as nat) + "-"@ + decimal(
        b.end_line as nat,
    ) + " | "@ + b.language@ + " | "@ + compact_similarity(b.distance) + "\n"@ + compact_symbols(
        b.symbols@.map_values(|s: String| s@),
    ) + compact_preview(b.content@) + "\n"@
}

/// The first `k` compact entries.
pub open spec fn compact_entries(blocks: Seq<CodeBlock>, k: nat) -> Seq<char>
    decreases k,
{
    if k == 0 || k > blocks.len() {
        seq![]
    } else {
        compact_entries(blocks, (k - 1) as nat) + compact_entry((k - 1) as nat, blocks[k - 1])
    }
}

/// The compact listing of code blocks.
pub open spec fn compact_blocks(blocks: Seq<CodeBlock>) -> Seq<char> {
    if blocks.len() == 0 {
        "No results found.\n"@
    } else {
        decimal(blocks.len()) + " results\n\n"@ + compact_entries(blocks, blocks.len())
    }
}

fn push_compact_similarity(out: &mut String, d: Option<u64>)
    ensures
        final(out)@ == old(out)@ + compact_similarity(d),
{
    match d {
        Some(x) => {
            if x > 1_000_000 {
                push_fixed_percent(out, true, (x - 1_000_000) as u128);
            } else {
                push_fixed_percent(out, false, (1_000_000 - x) as u128);
            }
            push_str(out, "%");
        },
        None => {
            push_str(out, "N/A");
        },
    }
}

fn push_fixed_percent(out: &mut String, negative: bool, magnitude: u128)
    requires
        magnitude <= 0xffff_ffff_ffff_ffff,
    ensures
        final(out)@ == old(out)@ + fixed_decimal(
            (if negative {
                -(magnitude as int)
            } else {
                magnitude as int
            }) * 100,
            1,
        ),
{
    crate::text::push_fixed(out, negative, magnitude * 100, 1);
    assert((if negative {
        -((magnitude * 100) as int)
    } else {
        (magnitude * 100) as int
    }) == (if negative {
        -(magnitude as int)
    } else {
        magnitude as int
    }) * 100);
}

fn push_compact_symbols(out: &mut String, symbols: &Vec<String>)
    ensures
        final(out)@ == old(out)@ + compact_symbols(symbols@.map_values(|s: String| s@)),
{
    if symbols.len() > 0 {
        let su = crate::symbols::sorted_unique_list(symbols);
        let ghost suv = char_views(su@);
        let n = if su.len() > 5 {
            5
        } else {
            su.len()
        };
        let ghost shown = if suv.len() > 5 {
            suv.take(5)
        } else {
            suv
        };
        let mut parts: Vec<String> = Vec::new();
        for i in 0..n
            invariant
                n <= su@.len(),
                suv == char_views(su@),
                parts@.map_values(|s: String| s@) == suv.take(i as int),
        {
            let ghost before = parts@.map_values(|s: String| s@);
            let t = crate::text::string_of(su[i].as_slice());
            parts.push(t);
            assert(parts@.map_values(|s: String| s@) =~= before.push(suv[i as int]));
            assert(suv.take(i + 1) =~= suv.take(i as int).push(suv[i as int]));
        }
        assert(suv.take(n as int) =~= shown);
        push_str(out, "    ");
        crate::text::push_joined(out, parts.as_slice(), ", ");
        push_str(out, "\n");
    }
}

#[verifier::rlimit(40)]
fn push_compact_preview(out: &mut String, content: &str)
    ensures
        final(out)@ == old(out)@ + compact_preview(content@),
{
    let chars = to_chars(content);
    let lines = split_lines(chars.as_slice());
    if lines.len() > 0 {
        let ghost s0 = out@;
        let line = &lines[0];
        assert(line@ == char_views(lines@)[0]);
        let (lo, hi) = trim_bounds(line.as_slice());
        let ghost t = line@.subrange(lo as int, hi as int);
        push_str(out, "    ");
        let cut = if hi - lo > 80 {
            lo + 80
        } else {
            hi
        };
        let ghost s1 = out@;
        for i in lo..cut
            invariant
                lo <= cut <= hi <= line@.len(),
                out@ == s1 + line@.subrange(lo as int, i as int),
        {
            push_char(out, line[i]);
            assert(line@.subrange(lo as int, i + 1) =~= line@.subrange(lo as int, i as int).push(
                line@[i as int],
            ));
        }
        if hi - lo > 80 {
            push_str(out, "…");
            assert(line@.subrange(lo as int, cut as int) =~= t.take(80));
        }
        push_str(out, "\n");
        assert(out@ =~= s0 + compact_preview(content@));
    }
}

#[verifier::rlimit(60)]
fn push_compact_entry(out: &mut String, idx: usize, b: &CodeBlock)
    requires
        idx < usize::MAX,
    ensures
        final(out)@ == old(out)@ + compact_entry(idx as nat, *b),
{
    let ghost s0 = out@;
    push_str(out, "[");
    push_decimal(out, idx as u128 + 1);
    push_str(out, "] ");
    push_str(out, b.path.as_str());
    push_str(out, ":");
    push_decimal(out, b.start_line as u128);
    push_str(out, "-");
    push_decimal(out, b.end_line as u128);
    push_str(out, " | ");
    push_str(out, b.language.as_str());
    push_str(out, " | ");
    push_compact_similarity(out, b.distance);
    push_str(out, "\n");
    let ghost s1 = out@;
    push_compact_symbols(out, &b.symbols);
    push_compact_preview(out, b.content.as_str());
    push_str(out, "\n");
    proof {
        reveal(compact_entry);
    }
    assert(out@ =~= s0 + compact_entry(idx as nat, *b));
}

/// The compact listing of code blocks, for narrow terminals.
#[verifier::rlimit(40)]
pub fn render_code_blocks_compact(blocks: &[CodeBlock]) -> (r: String)
    ensures
        r@ == compact_blocks(blocks@),
{
    if blocks.len() == 0 {
        return "No results found.\n".to_owned();
    }
    let mut out = String::new();
    push_decimal(&mut out, blocks.len() as u128);
    push_str(&mut out, " results\n\n");
    let ghost head = out@;
    for i in 0..blocks.len()
        invariant
            out@ == head + compact_entries(blocks@, i as nat),
    {
        push_compact_entry(&mut out, i, &blocks[i]);
    }
    out
}

proof fn lemma_compact_entries_prefix(blocks: Seq<CodeBlock>, n: nat, m: nat)
    requires
        n <= m <= blocks.len(),
    ensures
        compact_entries(blocks, n).len() <= compact_entries(blocks, m).len(),
        compact_entries(blocks, m).subrange(0, compact_entries(blocks, n).len() as int) == compact_entries(blocks, n),
    decreases m,
{
    if n < m {
        lemma_compact_entries_prefix(blocks, n, (m - 1) as nat);
        let p = compact_entries(blocks, (m - 1) as nat);
        let q = compact_entries(blocks, n);
        assert((p + compact_entry((m - 1) as nat, blocks[m - 1])).subrange(0, q.len() as int) =~= p.subrange(0, q.len() as int));
    }
}

/// The compact listing is a count of the blocks and an entry for each block,
/// in order and numbered from 1, each starting where the ones before it end,
/// with nothing after the last. Without blocks it is a short note.
pub proof fn law_compact_listing(blocks: Seq<CodeBlock>)
    ensures
        blocks.len() == 0 ==> compact_blocks(blocks) == "No results found.\n"@,
        blocks.len() > 0 ==> {
            let out = compact_blocks(blocks);
            let h = decimal(blocks.len()) + " results\n\n"@;
            &&& out.subrange(0, h.len() as int) == h
            &&& out.len() == h.len() + compact_entries(blocks, blocks.len()).len()
            &&& forall|i: int|
                0 <= i < blocks.len() ==> out.subrange(
                    (h.len() + compact_entries(blocks, i as nat).len()) as int,
                    (h.len() + compact_entries(blocks, (i + 1) as nat).len()) as int,
                ) == compact_entry(i as nat, #[trigger] blocks[i])
        },
{
    let n = blocks.len();
    if n > 0 {
        let h = decimal(blocks.len()) + " results\n\n"@;
        let all = compact_entries(blocks, n);
        let out = compact_blocks(blocks);
        assert(out == h + all);
        assert(out.subrange(0, h.len() as int) =~= h);
        assert forall|i: int| 0 <= i < n implies out.subrange(
            (h.len() + compact_entries(blocks, i as nat).len()) as int,
            (h.len() + compact_entries(blocks, (i + 1) as nat).len()) as int,
        ) == compact_entry(i as nat, #[trigger] blocks[i]) by {
            lemma_compact_entries_prefix(blocks, (i + 1) as nat, n);
            let a = compact_entries(blocks, i as nat);
            let b = compact_entries(blocks, (i + 1) as nat);
            assert(b == a + compact_entry(i as nat, blocks[i]));
            assert(all.subrange(0, b.len() as int) == b);
            assert(out.subrange((h.len() + a.len()) as int, (h.len() + b.len()) as int) =~= all.subrange(
                a.len() as int,
                b.len() as int,
            ));
            assert(all.subrange(a.len() as int, b.len() as int) =~= b.subrange(a.len() as int, b.len() as int));
        }
    }
}

} // verus!
