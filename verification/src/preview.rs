use vstd::prelude::*;
use crate::text::{
    char_views, decimal, is_blank, join, lines_of, push_chars, push_decimal, push_joined, push_str,
    range_starts_with, split_lines, starts_with, string_of, to_chars, trim, trim_bounds,
};

verus! {

broadcast use vstd::seq_lib::group_seq_properties;

/// The views of a sequence of strings.
pub open spec fn string_views(v: Seq<String>) -> Seq<Seq<char>> {
    v.map_values(|s: String| s@)
}

/// Whether a trimmed line begins like a comment in one of the common
/// languages (`//`, `#`, `/*`, `*`, `<!--`, `--`, `%`, `;`, `"""`, `'''`).
pub open spec fn is_comment_start(t: Seq<char>) -> bool {
    ||| starts_with(t, "//"@)
    ||| starts_with(t, "#"@)
    ||| starts_with(t, "/*"@)
    ||| starts_with(t, "*"@)
    ||| starts_with(t, "<!--"@)
    ||| starts_with(t, "--"@)
    ||| starts_with(t, "%"@)
    ||| starts_with(t, ";"@)
    ||| starts_with(t, "\"\"\""@)
    ||| starts_with(t, "'''"@)
}

/// Whether a code preview skips the line: it is blank or a comment.
pub open spec fn skipped_code_line(line: Seq<char>) -> bool {
    is_blank(line) || is_comment_start(trim(line))
}

/// The index of the first line at or after `i` that is neither blank nor a
/// comment; `0` when there is none.
pub open spec fn first_code_line_from(ls: Seq<Seq<char>>, i: int) -> int
    decreases ls.len() - i,
{
    if i < 0 || i >= ls.len() {
        0
    } else if !skipped_code_line(ls[i]) {
        i
    } else {
        first_code_line_from(ls, i + 1)
    }
}

/// The index of the first line at or after `i` that is not blank; `0` when
/// there is none.
pub open spec fn first_text_line_from(ls: Seq<Seq<char>>, i: int) -> int
    decreases ls.len() - i,
{
    if i < 0 || i >= ls.len() {
        0
    } else if !is_blank(ls[i]) {
        i
    } else {
        first_text_line_from(ls, i + 1)
    }
}

/// A line with its number: `"{n}: {line}"`.
pub open spec fn numbered_line(n: nat, line: Seq<char>) -> Seq<char> {
    decimal(n) + ": "@ + line
}

/// Lines `lo..hi` of `ls`, each with its number (`start_line` is the number
/// of line `0`).
pub open spec fn numbered_range(ls: Seq<Seq<char>>, lo: int, hi: int, start_line: nat) -> Seq<
    Seq<char>,
> {
    Seq::new((hi - lo) as nat, |i: int| numbered_line((start_line + lo + i) as nat, ls[lo + i]))
}

/// The number of lines shown at the start of a shortened preview.
pub open spec fn head_end(start: int, len: int) -> int {
    if start + 4 < len {
        start + 4
    } else {
        len
    }
}

/// The preview that `get_code_preview` gives: the whole content when it has
/// at most ten lines; otherwise up to four lines from the first line that is
/// neither blank nor a comment, then the rest when at most three lines
/// remain, or an omission marker and the last three lines.
pub open spec fn code_preview(content: Seq<char>) -> Seq<char> {
    let ls = lines_of(content);
    let len = ls.len() as int;
    if len <= 10 {
        content
    } else {
        let s = first_code_line_from(ls, 0);
        let head = ls.subrange(s, head_end(s, len));
        let tail = if s + 4 < len {
            if len - (s + 4) > 3 {
                seq!["// ... [content omitted] ..."@] + ls.subrange(len - 3, len)
            } else {
                ls.subrange(s + 4, len)
            }
        } else {
            seq![]
        };
        join(head + tail, "\n"@)
    }
}

/// The numbered preview of `content` (see `text_preview`, `code_preview_with_lines`)
/// for a given first shown line `s`.
pub open spec fn numbered_preview(ls: Seq<Seq<char>>, s: int, start_line: nat) -> Seq<char> {
    let len = ls.len() as int;
    let head = numbered_range(ls, s, head_end(s, len), start_line);
    let tail = if s + 4 < len {
        if len - (s + 4) > 3 {
            seq!["... ("@ + decimal((len - (s + 4)) as nat) + " more lines)"@] + numbered_range(
                ls,
                len - 3,
                len,
                start_line,
            )
        } else {
            numbered_range(ls, s + 4, len, start_line)
        }
    } else {
        seq![]
    };
    join(head + tail, "\n"@)
}

/// The preview that `get_text_preview_with_lines` and
/// `get_doc_preview_with_lines` give: all lines numbered when there are at
/// most ten; otherwise up to four numbered lines from the first non-blank
/// line, then the rest when at most three lines remain, or a count of the
/// omitted lines and the last three lines.
pub open spec fn text_preview(content: Seq<char>, start_line: nat) -> Seq<char> {
    let ls = lines_of(content);
    if ls.len() <= 10 {
        join(numbered_range(ls, 0, ls.len() as int, start_line), "\n"@)
    } else {
        numbered_preview(ls, first_text_line_from(ls, 0), start_line)
    }
}

/// The preview that `get_code_preview_with_lines` gives: as `text_preview`,
/// but the shown part starts at the first line that is neither blank nor a
/// comment.
pub open spec fn code_preview_with_lines(content: Seq<char>, start_line: nat) -> Seq<char> {
    let ls = lines_of(content);
    if ls.len() <= 10 {
        join(numbered_range(ls, 0, ls.len() as int, start_line), "\n"@)
    } else {
        numbered_preview(ls, first_code_line_from(ls, 0), start_line)
    }
}

// ---------------------------------------------------------------------------
// Executable parts
// ---------------------------------------------------------------------------

fn is_blank_line(line: &[char]) -> (r: bool)
    ensures
        r == is_blank(line@),
{
    let (lo, hi) = trim_bounds(line);
    lo == hi
}

fn skips_as_code(line: &[char]) -> (r: bool)
    ensures
        r == skipped_code_line(line@),
{
    let (lo, hi) = trim_bounds(line);
    if lo == hi {
        return true;
    }
    let ghost t = line@.subrange(lo as int, hi as int);
    let p1 = to_chars("//");
    let p2 = to_chars("#");
    let p3 = to_chars("/*");
    let p4 = to_chars("*");
    let p5 = to_chars("<!--");
    let p6 = to_chars("--");
    let p7 = to_chars("%");
    let p8 = to_chars(";");
    let p9 = to_chars("\"\"\"");
    let p10 = to_chars("'''");
    range_starts_with(line, lo, hi, p1.as_slice()) || range_starts_with(line, lo, hi, p2.as_slice())
        || range_starts_with(line, lo, hi, p3.as_slice()) || range_starts_with(
        line,
        lo,
        hi,
        p4.as_slice(),
    ) || range_starts_with(line, lo, hi, p5.as_slice()) || range_starts_with(
        line,
        lo,
        hi,
        p6.as_slice(),
    ) || range_starts_with(line, lo, hi, p7.as_slice()) || range_starts_with(
        line,
        lo,
        hi,
        p8.as_slice(),
    ) || range_starts_with(line, lo, hi, p9.as_slice()) || range_starts_with(
        line,
        lo,
        hi,
        p10.as_slice(),
    )
}

fn first_code_line(lines: &Vec<Vec<char>>) -> (r: usize)
    ensures
        r == first_code_line_from(char_views(lines@), 0),
        lines@.len() > 0 ==> r < lines@.len(),
{
    let ghost ls = char_views(lines@);
    let mut i: usize = 0;
    while i < lines.len()
        invariant
            ls == char_views(lines@),
            0 <= i <= lines@.len(),
            first_code_line_from(ls, 0) == first_code_line_from(ls, i as int),
        decreases lines@.len() - i,
    {
        if !skips_as_code(lines[i].as_slice()) {
            return i;
        }
        i = i + 1;
    }
    0
}

fn first_text_line(lines: &Vec<Vec<char>>) -> (r: usize)
    ensures
        r == first_text_line_from(char_views(lines@), 0),
        lines@.len() > 0 ==> r < lines@.len(),
{
    let ghost ls = char_views(lines@);
    let mut i: usize = 0;
    while i < lines.len()
        invariant
            ls == char_views(lines@),
            0 <= i <= lines@.len(),
            first_text_line_from(ls, 0) == first_text_line_from(ls, i as int),
        decreases lines@.len() - i,
    {
        if !is_blank_line(lines[i].as_slice()) {
            return i;
        }
        i = i + 1;
    }
    0
}

/// Appends lines `lo..hi` as strings.
fn push_plain_lines(parts: &mut Vec<String>, lines: &Vec<Vec<char>>, lo: usize, hi: usize)
    requires
        lo <= hi <= lines@.len(),
    ensures
        string_views(final(parts)@) == string_views(old(parts)@) + char_views(lines@).subrange(
            lo as int,
            hi as int,
        ),
{
    let ghost p0 = string_views(parts@);
    for i in lo..hi
        invariant
            lo <= hi <= lines@.len(),
            string_views(parts@) == p0 + char_views(lines@).subrange(lo as int, i as int),
    {
        let ghost before = string_views(parts@);
        let line = string_of(lines[i].as_slice());
        assert(line@ == char_views(lines@)[i as int]);
        parts.push(line);
        assert(string_views(parts@) =~= before.push(line@));
        assert(string_views(parts@) =~= p0 + char_views(lines@).subrange(lo as int, i + 1));
    }
}

/// The string `"{n}: {line}"`.
fn numbered(n: u128, line: &[char]) -> (r: String)
    ensures
        r@ == numbered_line(n as nat, line@),
{
    let mut s = String::new();
    push_decimal(&mut s, n);
    push_str(&mut s, ": ");
    push_chars(&mut s, line);
    s
}

/// Appends lines `lo..hi`, each with its number.
pub fn push_numbered_lines(
    parts: &mut Vec<String>,
    lines: &Vec<Vec<char>>,
    lo: usize,
    hi: usize,
    start_line: usize,
)
    requires
        lo <= hi <= lines@.len(),
    ensures
        string_views(final(parts)@) == string_views(old(parts)@) + numbered_range(
            char_views(lines@),
            lo as int,
            hi as int,
            start_line as nat,
        ),
{
    let ghost p0 = string_views(parts@);
    let ghost ls = char_views(lines@);
    for i in lo..hi
        invariant
            lo <= hi <= lines@.len(),
            ls == char_views(lines@),
            string_views(parts@) == p0 + numbered_range(ls, lo as int, i as int, start_line as nat),
    {
        let n: u128 = start_line as u128 + i as u128;
        let ghost before = string_views(parts@);
        let line = numbered(n, lines[i].as_slice());
        assert(lines[i as int]@ == ls[i as int]);
        parts.push(line);
        assert(string_views(parts@) =~= before.push(line@));
        assert(string_views(parts@) =~= p0 + numbered_range(
            ls,
            lo as int,
            i + 1,
            start_line as nat,
        ));
    }
}

/// The parts joined by newlines.
pub fn join_parts(parts: &Vec<String>) -> (r: String)
    ensures
        r@ == join(string_views(parts@), "\n"@),
{
    let mut out = String::new();
    push_joined(&mut out, parts.as_slice(), "\n");
    out
}

/// A short preview of code content: comments and blank lines at the start
/// are skipped, and long content is cut down to its first and last lines.
pub fn get_code_preview(content: &str, _language: &str) -> (r: String)
    ensures
        r@ == code_preview(content@),
{
    let chars = to_chars(content);
    let lines = split_lines(chars.as_slice());
    let ghost ls = char_views(lines@);
    let len = lines.len();
    if len <= 10 {
        return content.to_owned();
    }
    let s = first_code_line(&lines);
    let mut parts: Vec<String> = Vec::new();
    let head_end = if len - s > 4 {
        s + 4
    } else {
        len
    };
    push_plain_lines(&mut parts, &lines, s, head_end);
    if len - s > 4 {
        if len - (s + 4) > 3 {
            parts.push("// ... [content omitted] ...".to_owned());
            push_plain_lines(&mut parts, &lines, len - 3, len);
        } else {
            push_plain_lines(&mut parts, &lines, s + 4, len);
        }
    }
    proof {
        let head = ls.subrange(s as int, head_end as int);
        let tail: Seq<Seq<char>> = if s + 4 < len {
            if len - (s + 4) > 3 {
                seq!["// ... [content omitted] ..."@] + ls.subrange(len - 3, len as int)
            } else {
                ls.subrange(s + 4, len as int)
            }
        } else {
            seq![]
        };
        assert(string_views(parts@) =~= head + tail);
    }
    join_parts(&parts)
}

fn numbered_preview_exec(lines: &Vec<Vec<char>>, s: usize, start_line: usize) -> (r: String)
    requires
        s < lines@.len(),
    ensures
        r@ == numbered_preview(char_views(lines@), s as int, start_line as nat),
{
    let ghost ls = char_views(lines@);
    let len = lines.len();
    let mut parts: Vec<String> = Vec::new();
    let head_end = if len - s > 4 {
        s + 4
    } else {
        len
    };
    push_numbered_lines(&mut parts, lines, s, head_end, start_line);
    if len - s > 4 {
        let remaining = len - (s + 4);
        if remaining > 3 {
            let mut marker = String::new();
            push_str(&mut marker, "... (");
            push_decimal(&mut marker, remaining as u128);
            push_str(&mut marker, " more lines)");
            parts.push(marker);
            push_numbered_lines(&mut parts, lines, len - 3, len, start_line);
        } else {
            push_numbered_lines(&mut parts, lines, s + 4, len, start_line);
        }
    }
    proof {
        let head = numbered_range(ls, s as int, head_end as int, start_line as nat);
        let tail: Seq<Seq<char>> = if s + 4 < len {
            if len - (s + 4) > 3 {
                seq!["... ("@ + decimal((len - (s + 4)) as nat) + " more lines)"@] + numbered_range(
                    ls,
                    len - 3,
                    len as int,
                    start_line as nat,
                )
            } else {
                numbered_range(ls, s + 4, len as int, start_line as nat)
            }
        } else {
            seq![]
        };
        assert(string_views(parts@) =~= head + tail);
    }
    join_parts(&parts)
}

fn all_numbered(lines: &Vec<Vec<char>>, start_line: usize) -> (r: String)
    ensures
        r@ == join(numbered_range(char_views(lines@), 0, lines@.len() as int, start_line as nat), "\n"@),
{
    let mut parts: Vec<String> = Vec::new();
    push_numbered_lines(&mut parts, lines, 0, lines.len(), start_line);
    assert(string_views(parts@) =~= numbered_range(
        char_views(lines@),
        0,
        lines@.len() as int,
        start_line as nat,
    ));
    join_parts(&parts)
}

/// A numbered preview of text content: blank lines at the start are
/// skipped, and long content is cut down to its first and last lines.
pub fn get_text_preview_with_lines(content: &str, start_line: usize) -> (r: String)
    ensures
        r@ == text_preview(content@, start_line as nat),
{
    let chars = to_chars(content);
    let lines = split_lines(chars.as_slice());
    if lines.len() <= 10 {
        return all_numbered(&lines, start_line);
    }
    let s = first_text_line(&lines);
    numbered_preview_exec(&lines, s, start_line)
}

/// A numbered preview of documentation content; the same as the preview of
/// text content.
pub fn get_doc_preview_with_lines(content: &str, start_line: usize) -> (r: String)
    ensures
        r@ == text_preview(content@, start_line as nat),
{
    get_text_preview_with_lines(content, start_line)
}

/// A numbered preview of code content: comments and blank lines at the start
/// are skipped, and long content is cut down to its first and last lines.
pub fn get_code_preview_with_lines(content: &str, start_line: usize, _language: &str) -> (r: String)
    ensures
        r@ == code_preview_with_lines(content@, start_line as nat),
{
    let chars = to_chars(content);
    let lines = split_lines(chars.as_slice());
    if lines.len() <= 10 {
        return all_numbered(&lines, start_line);
    }
    let s = first_code_line(&lines);
    numbered_preview_exec(&lines, s, start_line)
}

// ---------------------------------------------------------------------------
// Laws of the previews
// ---------------------------------------------------------------------------

proof fn lemma_first_text_line_bounds(ls: Seq<Seq<char>>, i: int)
    requires
        0 <= i,
        ls.len() > 0,
    ensures
        0 <= first_text_line_from(ls, i) < ls.len(),
    decreases ls.len() - i,
{
    if i < ls.len() && is_blank(ls[i]) {
        lemma_first_text_line_bounds(ls, i + 1);
    }
}

proof fn lemma_first_code_line_bounds(ls: Seq<Seq<char>>, i: int)
    requires
        0 <= i,
        ls.len() > 0,
    ensures
        0 <= first_code_line_from(ls, i) < ls.len(),
    decreases ls.len() - i,
{
    if i < ls.len() && skipped_code_line(ls[i]) {
        lemma_first_code_line_bounds(ls, i + 1);
    }
}

/// The first line at or after `i` that is not blank: every line before it
/// (from `i`) is blank; when every line from `i` is blank it is `0`.
proof fn lemma_first_text_line(ls: Seq<Seq<char>>, i: int)
    requires
        0 <= i,
    ensures
        forall|k: int| i <= k < first_text_line_from(ls, i) ==> is_blank(#[trigger] ls[k]),
        (exists|k: int| i <= k < ls.len() && !is_blank(#[trigger] ls[k])) ==> i <= first_text_line_from(ls, i)
            < ls.len() && !is_blank(ls[first_text_line_from(ls, i)]),
        (forall|k: int| i <= k < ls.len() ==> is_blank(#[trigger] ls[k])) ==> first_text_line_from(ls, i)
            == 0,
    decreases ls.len() - i,
{
    if i < ls.len() && is_blank(ls[i]) {
        lemma_first_text_line(ls, i + 1);
        if exists|k: int| i <= k < ls.len() && !is_blank(#[trigger] ls[k]) {
            let k = choose|k: int| i <= k < ls.len() && !is_blank(#[trigger] ls[k]);
            assert(i + 1 <= k);
        }
        if forall|k: int| i <= k < ls.len() ==> is_blank(#[trigger] ls[k]) {
            assert(forall|k: int| i + 1 <= k < ls.len() ==> is_blank(#[trigger] ls[k]));
        }
    }
}

/// The first line at or after `i` that is neither blank nor a comment:
/// every line before it (from `i`) is skipped; when every line from `i` is
/// skipped it is `0`.
proof fn lemma_first_code_line(ls: Seq<Seq<char>>, i: int)
    requires
        0 <= i,
    ensures
        forall|k: int| i <= k < first_code_line_from(ls, i) ==> skipped_code_line(#[trigger] ls[k]),
        (exists|k: int| i <= k < ls.len() && !skipped_code_line(#[trigger] ls[k])) ==> i
            <= first_code_line_from(ls, i) < ls.len() && !skipped_code_line(ls[first_code_line_from(ls, i)]),
        (forall|k: int| i <= k < ls.len() ==> skipped_code_line(#[trigger] ls[k])) ==> first_code_line_from(
            ls,
            i,
        ) == 0,
    decreases ls.len() - i,
{
    if i < ls.len() && skipped_code_line(ls[i]) {
        lemma_first_code_line(ls, i + 1);
        if exists|k: int| i <= k < ls.len() && !skipped_code_line(#[trigger] ls[k]) {
            let k = choose|k: int| i <= k < ls.len() && !skipped_code_line(#[trigger] ls[k]);
            assert(i + 1 <= k);
        }
        if forall|k: int| i <= k < ls.len() ==> skipped_code_line(#[trigger] ls[k]) {
            assert(forall|k: int| i + 1 <= k < ls.len() ==> skipped_code_line(#[trigger] ls[k]));
        }
    }
}

/// The lines `lo..hi` followed by the lines `hi..end` are the lines `lo..end`.
proof fn lemma_numbered_range_split(ls: Seq<Seq<char>>, lo: int, mid: int, hi: int, start_line: nat)
    requires
        0 <= lo <= mid <= hi <= ls.len(),
    ensures
        numbered_range(ls, lo, mid, start_line) + numbered_range(ls, mid, hi, start_line)
            == numbered_range(ls, lo, hi, start_line),
{
    assert(numbered_range(ls, lo, mid, start_line) + numbered_range(ls, mid, hi, start_line)
        =~= numbered_range(ls, lo, hi, start_line));
}

/// A shortened numbered preview loses no line silently: from the first shown
/// line `s`, when at most seven lines are left they are all shown, each with
/// its number (`start_line` plus its index); when more are left, the first
/// four are shown, then a marker counting every line after them, then the
/// last three, each with its number.
pub proof fn law_numbered_preview(ls: Seq<Seq<char>>, s: int, start_line: nat)
    requires
        0 <= s < ls.len(),
    ensures
        ls.len() - s <= 7 ==> numbered_preview(ls, s, start_line) == join(
            numbered_range(ls, s, ls.len() as int, start_line),
            "\n"@,
        ),
        ls.len() - s > 7 ==> numbered_preview(ls, s, start_line) == join(
            numbered_range(ls, s, s + 4, start_line) + seq![
                "... ("@ + decimal((ls.len() - s - 4) as nat) + " more lines)"@,
            ] + numbered_range(ls, ls.len() - 3, ls.len() as int, start_line),
            "\n"@,
        ),
        forall|k: int|
            s <= k < ls.len() && ls.len() - s <= 7 ==> numbered_range(ls, s, ls.len() as int, start_line)[k
                - s] == numbered_line((start_line + k) as nat, #[trigger] ls[k]),
{
    let len = ls.len() as int;
    if s + 4 < len {
        lemma_numbered_range_split(ls, s, s + 4, len, start_line);
        let a = numbered_range(ls, s, s + 4, start_line);
        let b: Seq<Seq<char>> = seq!["... ("@ + decimal((len - (s + 4)) as nat) + " more lines)"@];
        let c = numbered_range(ls, len - 3, len, start_line);
        assert(a + (b + c) =~= (a + b) + c);
    } else {
        assert(numbered_range(ls, s, len, start_line) + Seq::<Seq<char>>::empty() =~= numbered_range(
            ls,
            s,
            len,
            start_line,
        ));
    }
}

/// A numbered text or document preview shows every line when there are at
/// most ten; otherwise it starts at the first line that is not blank (line
/// `0` when all are) and shows every line from there to the end when at
/// most seven are left, else the first four, a count of the lines left out
/// and the last three.
pub proof fn law_text_preview(content: Seq<char>, start_line: nat)
    ensures
        lines_of(content).len() <= 10 ==> text_preview(content, start_line) == join(
            numbered_range(lines_of(content), 0, lines_of(content).len() as int, start_line),
            "\n"@,
        ),
        lines_of(content).len() > 10 ==> {
            let ls = lines_of(content);
            let s = first_text_line_from(ls, 0);
            &&& 0 <= s < ls.len()
            &&& forall|k: int| 0 <= k < s ==> is_blank(#[trigger] ls[k])
            &&& (exists|k: int| 0 <= k < ls.len() && !is_blank(#[trigger] ls[k])) ==> !is_blank(ls[s])
            &&& (forall|k: int| 0 <= k < ls.len() ==> is_blank(#[trigger] ls[k])) ==> s == 0
            &&& (ls.len() - s <= 7 ==> text_preview(content, start_line) == join(
                numbered_range(ls, s, ls.len() as int, start_line),
                "\n"@,
            ))
            &&& (ls.len() - s > 7 ==> text_preview(content, start_line) == join(
                numbered_range(ls, s, s + 4, start_line) + seq![
                    "... ("@ + decimal((ls.len() - s - 4) as nat) + " more lines)"@,
                ] + numbered_range(ls, ls.len() - 3, ls.len() as int, start_line),
                "\n"@,
            ))
        },
{
    let ls = lines_of(content);
    if ls.len() > 10 {
        lemma_first_text_line_bounds(ls, 0);
        lemma_first_text_line(ls, 0);
        law_numbered_preview(ls, first_text_line_from(ls, 0), start_line);
    }
}

/// A numbered code preview shows every line when there are at most ten;
/// otherwise it starts at the first line that is neither blank nor a
/// comment (line `0` when there is none) and shows every line from there to
/// the end when at most seven are left, else the first four, a count of the
/// lines left out and the last three.
pub proof fn law_code_preview_with_lines(content: Seq<char>, start_line: nat)
    ensures
        lines_of(content).len() <= 10 ==> code_preview_with_lines(content, start_line) == join(
            numbered_range(lines_of(content), 0, lines_of(content).len() as int, start_line),
            "\n"@,
        ),
        lines_of(content).len() > 10 ==> {
            let ls = lines_of(content);
            let s = first_code_line_from(ls, 0);
            &&& 0 <= s < ls.len()
            &&& forall|k: int| 0 <= k < s ==> skipped_code_line(#[trigger] ls[k])
            &&& (exists|k: int| 0 <= k < ls.len() && !skipped_code_line(#[trigger] ls[k])) ==> !skipped_code_line(ls[s])
            &&& (forall|k: int| 0 <= k < ls.len() ==> skipped_code_line(#[trigger] ls[k])) ==> s == 0
            &&& (ls.len() - s <= 7 ==> code_preview_with_lines(content, start_line) == join(
                numbered_range(ls, s, ls.len() as int, start_line),
                "\n"@,
            ))
            &&& (ls.len() - s > 7 ==> code_preview_with_lines(content, start_line) == join(
                numbered_range(ls, s, s + 4, start_line) + seq![
                    "... ("@ + decimal((ls.len() - s - 4) as nat) + " more lines)"@,
                ] + numbered_range(ls, ls.len() - 3, ls.len() as int, start_line),
                "\n"@,
            ))
        },
{
    let ls = lines_of(content);
    if ls.len() > 10 {
        lemma_first_code_line_bounds(ls, 0);
        lemma_first_code_line(ls, 0);
        law_numbered_preview(ls, first_code_line_from(ls, 0), start_line);
    }
}

/// A code preview is the whole content when it has at most ten lines;
/// otherwise it starts at the first line that is neither blank nor a
/// comment (line `0` when there is none) and is every line from there to the
/// end when at most seven are left, and else the first four, an omission
/// marker and the last three.
pub proof fn law_code_preview(content: Seq<char>)
    ensures
        lines_of(content).len() <= 10 ==> code_preview(content) == content,
        lines_of(content).len() > 10 ==> {
            let ls = lines_of(content);
            let s = first_code_line_from(ls, 0);
            &&& 0 <= s < ls.len()
            &&& forall|k: int| 0 <= k < s ==> skipped_code_line(#[trigger] ls[k])
            &&& (exists|k: int| 0 <= k < ls.len() && !skipped_code_line(#[trigger] ls[k])) ==> !skipped_code_line(ls[s])
            &&& (forall|k: int| 0 <= k < ls.len() ==> skipped_code_line(#[trigger] ls[k])) ==> s == 0
            &&& (ls.len() - s <= 7 ==> code_preview(content) == join(ls.subrange(s, ls.len() as int), "\n"@))
            &&& (ls.len() - s > 7 ==> code_preview(content) == join(
                ls.subrange(s, s + 4) + seq!["// ... [content omitted] ..."@] + ls.subrange(
                    ls.len() - 3,
                    ls.len() as int,
                ),
                "\n"@,
            ))
        },
{
    let ls = lines_of(content);
    if ls.len() > 10 {
        lemma_first_code_line_bounds(ls, 0);
        lemma_first_code_line(ls, 0);
        let s = first_code_line_from(ls, 0);
        let len = ls.len() as int;
        if s + 4 < len {
            assert(ls.subrange(s, s + 4) + ls.subrange(s + 4, len) =~= ls.subrange(s, len));
            let a = ls.subrange(s, s + 4);
            let b: Seq<Seq<char>> = seq!["// ... [content omitted] ..."@];
            let c = ls.subrange(len - 3, len);
            assert(a + (b + c) =~= (a + b) + c);
        } else {
            assert(ls.subrange(s, len) + Seq::<Seq<char>>::empty() =~= ls.subrange(s, len));
        }
    }
}

} // verus!
