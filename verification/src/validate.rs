use vstd::prelude::*;
use vstd::utf8::{encode_scalar, encode_utf8};
use crate::format_text::detail_is;
use crate::output_format::OutputFormat;
use crate::text::{decimal, push_decimal, push_str, to_chars, trim, trim_bounds};

verus! {

broadcast use vstd::seq_lib::group_seq_properties;

// ---------------------------------------------------------------------------
// Detail level
// ---------------------------------------------------------------------------

/// The detail levels that output can be rendered at.
pub open spec fn is_detail_level(s: Seq<char>) -> bool {
    s == "signatures"@ || s == "partial"@ || s == "full"@
}

/// The message that rejects an unknown detail level.
pub open spec fn detail_level_error(s: Seq<char>) -> Seq<char> {
    "Invalid detail level '"@ + s + "'. Use 'signatures', 'partial', or 'full'."@
}

/// Accepts `signatures`, `partial` and `full`; anything else is refused
/// with a message that names the accepted values.
pub fn validate_detail_level(s: &str) -> (r: Result<String, String>)
    ensures
        match r {
            Ok(v) => is_detail_level(s@) && v@ == s@,
            Err(m) => !is_detail_level(s@) && m@ == detail_level_error(s@),
        },
{
    if detail_is(s, "signatures") || detail_is(s, "partial") || detail_is(s, "full") {
        Ok(s.to_owned())
    } else {
        let mut m = String::new();
        push_str(&mut m, "Invalid detail level '");
        push_str(&mut m, s);
        push_str(&mut m, "'. Use 'signatures', 'partial', or 'full'.");
        Err(m)
    }
}

// ---------------------------------------------------------------------------
// Queries
// ---------------------------------------------------------------------------

/// The most queries that one search may carry (octolib's `MAX_QUERIES`).
#[verifier::external_body]
fn octolib_max_queries() -> (n: usize)
    ensures
        n == 5,
{
    octolib::embedding::constants::MAX_QUERIES
}

/// The most queries that one search may carry.
pub open spec fn max_queries() -> nat {
    5
}

/// The length of `s` in UTF-8 bytes (`str::len`).
pub open spec fn utf8_len(s: Seq<char>) -> nat {
    encode_utf8(s).len()
}

/// The number of bytes that `c` takes in UTF-8.
pub open spec fn utf8_width(c: char) -> nat {
    let u = c as u32;
    if u < 0x80 {
        1
    } else if u < 0x800 {
        2
    } else if u < 0x10000 {
        3
    } else {
        4
    }
}

proof fn lemma_scalar_width(c: char)
    ensures
        encode_scalar(c as u32).len() == utf8_width(c),
{
    broadcast use vstd::utf8::char_is_scalar;

}

proof fn lemma_utf8_len_push(s: Seq<char>, c: char)
    ensures
        utf8_len(s.push(c)) == utf8_len(s) + utf8_width(c),
    decreases s.len(),
{
    lemma_scalar_width(c);
    if s.len() == 0 {
        assert(s.push(c).drop_first() =~= seq![]);
        assert(encode_utf8(seq![]) =~= Seq::<u8>::empty());
        assert(encode_utf8(s) =~= Seq::<u8>::empty());
    } else {
        lemma_utf8_len_push(s.drop_first(), c);
        assert(s.push(c).drop_first() =~= s.drop_first().push(c));
        assert(s.push(c)[0] == s[0]);
    }
}

/// Why a list of queries was refused.
#[derive(Clone, Copy, Debug, PartialEq, Eq, Structural)]
pub enum QueryError {
    /// No query was given.
    Empty,
    /// More queries than allowed were given.
    TooMany { max: usize, got: usize },
    /// The query at this position (counted from 1) is shorter than 3 bytes
    /// once trimmed.
    TooShort { position: usize },
    /// The query at this position (counted from 1) is longer than 500 bytes
    /// once trimmed.
    TooLong { position: usize },
}

/// The first query from index `i` on whose trimmed length is out of bounds.
pub open spec fn query_check_from(qs: Seq<Seq<char>>, i: int) -> Option<QueryError>
    decreases qs.len() - i,
{
    if i < 0 || i >= qs.len() {
        None
    } else if utf8_len(trim(qs[i])) < 3 {
        Some(QueryError::TooShort { position: (i + 1) as usize })
    } else if utf8_len(trim(qs[i])) > 500 {
        Some(QueryError::TooLong { position: (i + 1) as usize })
    } else {
        query_check_from(qs, i + 1)
    }
}

/// What refuses the list of queries `qs`, if anything does.
pub open spec fn query_check(qs: Seq<Seq<char>>) -> Option<QueryError> {
    if qs.len() == 0 {
        Some(QueryError::Empty)
    } else if qs.len() > max_queries() {
        Some(QueryError::TooMany { max: max_queries() as usize, got: qs.len() as usize })
    } else {
        query_check_from(qs, 0)
    }
}

/// Whether the trimmed query is between 3 and 500 bytes long.
pub open spec fn query_length_ok(q: Seq<char>) -> bool {
    3 <= utf8_len(trim(q)) <= 500
}

/// The views of a list of strings.
pub open spec fn query_views(qs: Seq<String>) -> Seq<Seq<char>> {
    qs.map_values(|s: String| s@)
}

proof fn lemma_query_check_from(qs: Seq<Seq<char>>, i: int)
    requires
        0 <= i <= qs.len(),
    ensures
        query_check_from(qs, i) is None <==> (forall|j: int| i <= j < qs.len() ==> query_length_ok(
            #[trigger] qs[j],
        )),
    decreases qs.len() - i,
{
    if i < qs.len() {
        lemma_query_check_from(qs, i + 1);
    }
}

/// The byte length of `q` once trimmed.
fn trimmed_utf8_len(q: &str) -> (n: u128)
    ensures
        n == utf8_len(trim(q@)),
{
    let cs = to_chars(q);
    let (lo, hi) = trim_bounds(cs.as_slice());
    let ghost t = cs@.subrange(lo as int, hi as int);
    let mut n: u128 = 0;
    let mut i = lo;
    assert(cs@.subrange(lo as int, lo as int) =~= Seq::<char>::empty());
    assert(encode_utf8(Seq::<char>::empty()) =~= Seq::<u8>::empty());
    while i < hi
        invariant
            lo <= i <= hi <= cs@.len(),
            n == utf8_len(cs@.subrange(lo as int, i as int)),
            n <= 4 * (i - lo),
        decreases hi - i,
    {
        let c = cs[i];
        proof {
            lemma_utf8_len_push(cs@.subrange(lo as int, i as int), c);
            assert(cs@.subrange(lo as int, i + 1) =~= cs@.subrange(lo as int, i as int).push(c));
        }
        let u = c as u32;
        let w: u128 = if u < 0x80 {
            1
        } else if u < 0x800 {
            2
        } else if u < 0x10000 {
            3
        } else {
            4
        };
        n = n + w;
        i = i + 1;
    }
    n
}

/// Checks a list of search queries: at least one and at most
/// octolib's `MAX_QUERIES` of them, each between 3 and 500 bytes long once
/// trimmed; the first query out of bounds is the one reported.
pub fn validate_queries(queries: &Vec<String>) -> (r: Result<(), QueryError>)
    ensures
        r == (match query_check(query_views(queries@)) {
            None => Ok(()),
            Some(e) => Err(e),
        }),
        r is Ok <==> (1 <= queries@.len() <= max_queries() && forall|i: int|
            0 <= i < queries@.len() ==> query_length_ok(#[trigger] queries@[i]@)),
{
    let ghost qs = query_views(queries@);
    proof {
        lemma_query_check_from(qs, 0);
        assert forall|i: int| 0 <= i < queries@.len() implies (query_length_ok(
            #[trigger] queries@[i]@,
        ) <==> query_length_ok(qs[i])) by {}
    }
    let max = octolib_max_queries();
    if queries.len() == 0 {
        return Err(QueryError::Empty);
    }
    if queries.len() > max {
        return Err(QueryError::TooMany { max, got: queries.len() });
    }
    let mut i: usize = 0;
    while i < queries.len()
        invariant
            i <= queries@.len(),
            1 <= queries@.len() <= max_queries(),
            qs == query_views(queries@),
            query_check(qs) == query_check_from(qs, i as int),
        decreases queries@.len() - i,
    {
        let n = trimmed_utf8_len(queries[i].as_str());
        if n < 3 {
            return Err(QueryError::TooShort { position: i + 1 });
        }
        if n > 500 {
            return Err(QueryError::TooLong { position: i + 1 });
        }
        i = i + 1;
    }
    Ok(())
}

/// Checks only the number of queries, as the multi-query searches of the
/// MCP server do: at least one and at most octolib's `MAX_QUERIES`.
pub fn validate_query_count(count: usize) -> (r: Result<(), QueryError>)
    ensures
        count == 0 ==> r == Err::<(), QueryError>(QueryError::Empty),
        count > max_queries() ==> r == Err::<(), QueryError>(
            QueryError::TooMany { max: max_queries() as usize, got: count },
        ),
        1 <= count <= max_queries() ==> r is Ok,
{
    let max = octolib_max_queries();
    if count == 0 {
        Err(QueryError::Empty)
    } else if count > max {
        Err(QueryError::TooMany { max, got: count })
    } else {
        Ok(())
    }
}

/// The message that reports a refused list of queries.
pub open spec fn query_error_message(e: QueryError) -> Seq<char> {
    match e {
        QueryError::Empty => "At least one query is required"@,
        QueryError::TooMany { max, got } => "Maximum "@ + decimal(max as nat) + " queries allowed, got "@
            + decimal(got as nat) + ". Use fewer, more specific terms."@,
        QueryError::TooShort { position } => "Query "@ + decimal(position as nat)
            + " must be at least 3 characters long"@,
        QueryError::TooLong { position } => "Query "@ + decimal(position as nat)
            + " must be no more than 500 characters long"@,
    }
}

impl QueryError {
    /// The message that reports this error.
    pub fn message(&self) -> (r: String)
        ensures
            r@ == query_error_message(*self),
    {
        let mut m = String::new();
        match self {
            QueryError::Empty => {
                push_str(&mut m, "At least one query is required");
            },
            QueryError::TooMany { max, got } => {
                push_str(&mut m, "Maximum ");
                push_decimal(&mut m, *max as u128);
                push_str(&mut m, " queries allowed, got ");
                push_decimal(&mut m, *got as u128);
                push_str(&mut m, ". Use fewer, more specific terms.");
            },
            QueryError::TooShort { position } => {
                push_str(&mut m, "Query ");
                push_decimal(&mut m, *position as u128);
                push_str(&mut m, " must be at least 3 characters long");
            },
            QueryError::TooLong { position } => {
                push_str(&mut m, "Query ");
                push_decimal(&mut m, *position as u128);
                push_str(&mut m, " must be no more than 500 characters long");
            },
        }
        m
    }
}

// ---------------------------------------------------------------------------
// Search mode
// ---------------------------------------------------------------------------

/// Which kinds of blocks a search looks at.
#[derive(Clone, Copy, Debug, PartialEq, Eq, Structural)]
pub enum SearchMode {
    /// Code, documents and text.
    All,
    /// Code blocks only.
    Code,
    /// Document blocks only.
    Docs,
    /// Text blocks only.
    Text,
}

/// The search mode that `s` names, if it names one.
pub open spec fn search_mode_of(s: Seq<char>) -> Option<SearchMode> {
    if s == "all"@ {
        Some(SearchMode::All)
    } else if s == "code"@ {
        Some(SearchMode::Code)
    } else if s == "docs"@ {
        Some(SearchMode::Docs)
    } else if s == "text"@ {
        Some(SearchMode::Text)
    } else {
        None
    }
}

/// The name of a search mode.
pub open spec fn mode_name(m: SearchMode) -> Seq<char> {
    match m {
        SearchMode::All => "all"@,
        SearchMode::Code => "code"@,
        SearchMode::Docs => "docs"@,
        SearchMode::Text => "text"@,
    }
}

impl SearchMode {
    /// The name of the mode, as the mode argument spells it.
    pub fn name(&self) -> (r: String)
        ensures
            r@ == mode_name(*self),
    {
        match self {
            SearchMode::All => "all".to_owned(),
            SearchMode::Code => "code".to_owned(),
            SearchMode::Docs => "docs".to_owned(),
            SearchMode::Text => "text".to_owned(),
        }
    }
}

/// The message that rejects an unknown search mode.
pub open spec fn search_mode_error(s: Seq<char>) -> Seq<char> {
    "Invalid search mode '"@ + s + "'. Use 'all', 'code', 'docs', or 'text'."@
}

/// Reads a search mode: `all`, `code`, `docs` or `text`.
pub fn parse_search_mode(mode: &str) -> (r: Result<SearchMode, String>)
    ensures
        match r {
            Ok(m) => search_mode_of(mode@) == Some(m),
            Err(msg) => search_mode_of(mode@) is None && msg@ == search_mode_error(mode@),
        },
{
    if detail_is(mode, "all") {
        Ok(SearchMode::All)
    } else if detail_is(mode, "code") {
        Ok(SearchMode::Code)
    } else if detail_is(mode, "docs") {
        Ok(SearchMode::Docs)
    } else if detail_is(mode, "text") {
        Ok(SearchMode::Text)
    } else {
        let mut m = String::new();
        push_str(&mut m, "Invalid search mode '");
        push_str(&mut m, mode);
        push_str(&mut m, "'. Use 'all', 'code', 'docs', or 'text'.");
        Err(m)
    }
}

// ---------------------------------------------------------------------------
// Detail level and output format together
// ---------------------------------------------------------------------------

/// The message that refuses a detail level given with JSON output.
pub open spec fn detail_with_json_error() -> Seq<char> {
    "--detail-level is not supported with JSON format. Use --format=cli or --format=text instead."@
}

/// The message that refuses a detail level given with Markdown output.
pub open spec fn detail_with_markdown_error() -> Seq<char> {
    "--detail-level is not supported with Markdown format. Use --format=cli or --format=text instead."@
}

/// The detail level that a search renders at: the one asked for, or
/// `partial`. Asking for one together with JSON or Markdown output is
/// refused.
pub fn effective_detail_level(detail_level: &Option<String>, format: OutputFormat) -> (r: Result<
    String,
    String,
>)
    ensures
        match detail_level {
            Some(d) => match r {
                Ok(v) => !(format is Json) && !(format is Md) && v@ == d@,
                Err(m) => (format is Json && m@ == detail_with_json_error()) || (format is Md
                    && m@ == detail_with_markdown_error()),
            },
            None => r matches Ok(v) && v@ == "partial"@,
        },
{
    match detail_level {
        Some(d) => {
            if format.is_json() {
                let mut m = String::new();
                push_str(
                    &mut m,
                    "--detail-level is not supported with JSON format. Use --format=cli or --format=text instead.",
                );
                Err(m)
            } else if format.is_md() {
                let mut m = String::new();
                push_str(
                    &mut m,
                    "--detail-level is not supported with Markdown format. Use --format=cli or --format=text instead.",
                );
                Err(m)
            } else {
                Ok(d.clone())
            }
        },
        None => Ok("partial".to_owned()),
    }
}

} // verus!
