use vstd::prelude::*;
use crate::search_output::{div_ceil3, results_per_type};
use crate::text::push_str;
use crate::validate::{
    mode_name, parse_search_mode, search_mode_error, search_mode_of, SearchMode,
};

verus! {

/// What a search asks the store for: for each kind of block, how many
/// results at most, or `None` when that kind is not searched; the language
/// that the code query is restricted to, if any; and the threshold, in
/// millionths, that every query of the search is given.
#[derive(Clone, Debug, PartialEq, Eq)]
pub struct StorePlan {
    pub code_limit: Option<usize>,
    pub doc_limit: Option<usize>,
    pub text_limit: Option<usize>,
    pub code_language: Option<String>,
    pub threshold: i64,
}

/// A store plan as values: code, document and text limits, the language of
/// the code query and the threshold.
pub type PlanView = (Option<usize>, Option<usize>, Option<usize>, Option<Seq<char>>, int);

/// The view of a store plan.
pub open spec fn plan_view(p: StorePlan) -> PlanView {
    (
        p.code_limit,
        p.doc_limit,
        p.text_limit,
        match p.code_language {
            Some(l) => Some(l@),
            None => None,
        },
        p.threshold as int,
    )
}

/// The view of an optional string slice.
pub open spec fn opt_view(o: Option<&str>) -> Option<Seq<char>> {
    match o {
        Some(s) => Some(s@),
        None => None,
    }
}

/// The store plan of a search in `mode` with `limit` results for a kind
/// searched alone and `split` results per kind when all are searched;
/// kinds whose embedding is missing are not searched, a code query, when
/// there is one, is restricted to `language`, and every query gets
/// `threshold`.
pub open spec fn plan_for(
    mode: SearchMode,
    limit: usize,
    split: usize,
    has_code: bool,
    has_text: bool,
    language: Option<Seq<char>>,
    threshold: int,
) -> PlanView {
    let code = if !has_code {
        None
    } else {
        match mode {
            SearchMode::Code => Some(limit),
            SearchMode::All => Some(split),
            _ => None,
        }
    };
    let docs = if !has_text {
        None
    } else {
        match mode {
            SearchMode::Docs => Some(limit),
            SearchMode::All => Some(split),
            _ => None,
        }
    };
    let text = if !has_text {
        None
    } else {
        match mode {
            SearchMode::Text => Some(limit),
            SearchMode::All => Some(split),
            _ => None,
        }
    };
    (code, docs, text, if code is Some {
        language
    } else {
        None
    }, threshold)
}

fn exec_plan_for(
    mode: SearchMode,
    limit: usize,
    split: usize,
    has_code: bool,
    has_text: bool,
    language: Option<&str>,
    threshold: i64,
) -> (r: StorePlan)
    ensures
        plan_view(r) == plan_for(mode, limit, split, has_code, has_text, opt_view(language), threshold as int),
{
    let code_limit = if !has_code {
        None
    } else {
        match mode {
            SearchMode::Code => Some(limit),
            SearchMode::All => Some(split),
            _ => None,
        }
    };
    let doc_limit = if !has_text {
        None
    } else {
        match mode {
            SearchMode::Docs => Some(limit),
            SearchMode::All => Some(split),
            _ => None,
        }
    };
    let text_limit = if !has_text {
        None
    } else {
        match mode {
            SearchMode::Text => Some(limit),
            SearchMode::All => Some(split),
            _ => None,
        }
    };
    let code_language = match (code_limit, language) {
        (Some(_), Some(l)) => Some(l.to_owned()),
        _ => None,
    };
    StorePlan { code_limit, doc_limit, text_limit, code_language, threshold }
}

// ---------------------------------------------------------------------------
// Multi-query searches
// ---------------------------------------------------------------------------

/// How many results each query of a multi-query search asks for: twice the
/// result limit, shared among the queries (rounded down).
pub fn per_query_limit(max_results: usize, query_count: usize) -> (r: usize)
    requires
        2 * max_results <= usize::MAX,
    ensures
        r == (2 * max_results) / (if query_count == 0 {
            1
        } else {
            query_count as int
        }),
{
    let n = if query_count == 0 {
        1
    } else {
        query_count
    };
    (max_results * 2) / n
}

/// The message that refuses an unknown mode once a search is under way.
pub open spec fn unknown_mode_error(mode: Seq<char>) -> Seq<char> {
    "Invalid search mode: "@ + mode
}

fn unknown_mode(mode: &str) -> (r: String)
    ensures
        r@ == unknown_mode_error(mode@),
{
    let mut m = String::new();
    push_str(&mut m, "Invalid search mode: ");
    push_str(&mut m, mode);
    m
}

/// What one query of a multi-query search asks the store for, given which
/// embeddings it has: a kind searched alone gets the per-query limit; when
/// all kinds are searched each gets a third of it, rounded up. The code
/// query is restricted to the language filter, if one is given, and every
/// query gets the distance threshold one minus the similarity threshold
/// (both in millionths).
pub fn query_search_plan(
    mode: &str,
    per_query_limit: usize,
    similarity_threshold: i64,
    has_code: bool,
    has_text: bool,
    language_filter: Option<&str>,
) -> (r: Result<StorePlan, String>)
    requires
        similarity_threshold > i64::MIN + 1_000_000,
    ensures
        match search_mode_of(mode@) {
            Some(m) => r matches Ok(p) && plan_view(p) == plan_for(
                m,
                per_query_limit,
                div_ceil3(per_query_limit as nat) as usize,
                has_code,
                has_text,
                opt_view(language_filter),
                1_000_000 - similarity_threshold,
            ),
            None => r matches Err(e) && e@ == unknown_mode_error(mode@),
        },
{
    match parse_search_mode(mode) {
        Ok(m) => {
            let split = results_per_type(SearchMode::All, per_query_limit);
            Ok(
                exec_plan_for(
                    m,
                    per_query_limit,
                    split,
                    has_code,
                    has_text,
                    language_filter,
                    1_000_000 - similarity_threshold,
                ),
            )
        },
        Err(_) => Err(unknown_mode(mode)),
    }
}

/// Which query embeddings a multi-query search makes: code embeddings
/// (made without an input type) and text embeddings (made as queries); when
/// code and text use the same model, one batch serves both.
#[derive(Clone, Copy, Debug, PartialEq, Eq, Structural)]
pub struct EmbeddingPlan {
    pub code: bool,
    pub text: bool,
    pub shared: bool,
}

/// The embeddings that a multi-query search in `mode` makes.
pub open spec fn embedding_plan_for(mode: SearchMode, same_model: bool) -> EmbeddingPlan {
    match mode {
        SearchMode::Code => EmbeddingPlan { code: true, text: false, shared: false },
        SearchMode::Docs => EmbeddingPlan { code: false, text: true, shared: false },
        SearchMode::Text => EmbeddingPlan { code: false, text: true, shared: false },
        SearchMode::All => EmbeddingPlan { code: true, text: true, shared: same_model },
    }
}

/// Decides which query embeddings a multi-query search makes; an unknown
/// mode is refused.
pub fn embedding_plan(mode: &str, same_model: bool) -> (r: Result<EmbeddingPlan, String>)
    ensures
        match search_mode_of(mode@) {
            Some(m) => r == Ok::<EmbeddingPlan, String>(embedding_plan_for(m, same_model)),
            None => r matches Err(e) && e@ == unknown_mode_error(mode@),
        },
{
    match parse_search_mode(mode) {
        Ok(SearchMode::Code) => Ok(EmbeddingPlan { code: true, text: false, shared: false }),
        Ok(SearchMode::Docs) => Ok(EmbeddingPlan { code: false, text: true, shared: false }),
        Ok(SearchMode::Text) => Ok(EmbeddingPlan { code: false, text: true, shared: false }),
        Ok(SearchMode::All) => Ok(EmbeddingPlan { code: true, text: true, shared: same_model }),
        Err(_) => Err(unknown_mode(mode)),
    }
}

// ---------------------------------------------------------------------------
// Single-query searches
// ---------------------------------------------------------------------------

/// The message that reports a missing embedding for a mode.
pub open spec fn missing_embedding_error(code: bool, mode: Seq<char>) -> Seq<char> {
    (if code {
        "No code embeddings generated for "@
    } else {
        "No text embeddings generated for "@
    }) + mode + " search mode"@
}

fn missing_embedding(code: bool, mode: &str) -> (r: String)
    ensures
        r@ == missing_embedding_error(code, mode@),
{
    let mut m = String::new();
    if code {
        push_str(&mut m, "No code embeddings generated for ");
    } else {
        push_str(&mut m, "No text embeddings generated for ");
    }
    push_str(&mut m, mode);
    push_str(&mut m, " search mode");
    m
}

/// The single-query searches of the MCP server.
#[derive(Clone, Copy, Debug, PartialEq, Eq, Structural)]
pub enum SingleSearch {
    /// Markdown report, code in full (`search_codebase`).
    Markdown,
    /// Markdown report with a detail level (`search_codebase_with_details`).
    MarkdownWithDetail,
    /// Plain-text report with a detail level and a language filter
    /// (`search_codebase_with_details_text`).
    TextWithDetail,
}

/// What a single-query search asks the store for. The embeddings that the
/// mode needs must be there: code for `code`, text for `docs` and `text`,
/// both for `all` (code checked first). A kind searched alone gets
/// `max_results`; in an `all` search each kind gets all of it for
/// `Markdown` and a third of it, rounded up, otherwise. Only
/// `TextWithDetail` restricts the code query to the language filter. The
/// Markdown searches give every query the similarity threshold itself;
/// `TextWithDetail` gives it the distance threshold, one minus the
/// similarity threshold (all in millionths).
pub open spec fn single_search_plan(
    search: SingleSearch,
    mode: Seq<char>,
    max_results: usize,
    similarity_threshold: int,
    has_code: bool,
    has_text: bool,
    language: Option<Seq<char>>,
) -> Result<PlanView, Seq<char>> {
    match search_mode_of(mode) {
        None => Err(search_mode_error(mode)),
        Some(m) => {
            let needs_code = m is Code || m is All;
            let needs_text = !(m is Code);
            if needs_code && !has_code {
                Err(missing_embedding_error(true, mode))
            } else if needs_text && !has_text {
                Err(missing_embedding_error(false, mode))
            } else {
                let split = if search is Markdown {
                    max_results
                } else {
                    div_ceil3(max_results as nat) as usize
                };
                let lang = if search is TextWithDetail {
                    language
                } else {
                    None
                };
                let threshold = if search is TextWithDetail {
                    1_000_000 - similarity_threshold
                } else {
                    similarity_threshold
                };
                Ok(plan_for(m, max_results, split, has_code, has_text, lang, threshold))
            }
        },
    }
}

/// Decides what a single-query search asks the store for; see
/// `single_search_plan`.
pub fn plan_single_search(
    search: SingleSearch,
    mode: &str,
    max_results: usize,
    similarity_threshold: i64,
    has_code: bool,
    has_text: bool,
    language_filter: Option<&str>,
) -> (r: Result<StorePlan, String>)
    requires
        similarity_threshold > i64::MIN + 1_000_000,
    ensures
        match r {
            Ok(p) => single_search_plan(
                search,
                mode@,
                max_results,
                similarity_threshold as int,
                has_code,
                has_text,
                opt_view(language_filter),
            ) == Ok::<PlanView, Seq<char>>(plan_view(p)),
            Err(e) => single_search_plan(
                search,
                mode@,
                max_results,
                similarity_threshold as int,
                has_code,
                has_text,
                opt_view(language_filter),
            ) == Err::<PlanView, Seq<char>>(e@),
        },
{
    let m = match parse_search_mode(mode) {
        Ok(m) => m,
        Err(e) => {
            return Err(e);
        },
    };
    let needs_code = m.searches_code();
    let needs_text = !matches!(m, SearchMode::Code);
    if needs_code && !has_code {
        return Err(missing_embedding(true, mode));
    }
    if needs_text && !has_text {
        return Err(missing_embedding(false, mode));
    }
    let split = match search {
        SingleSearch::Markdown => max_results,
        _ => results_per_type(SearchMode::All, max_results),
    };
    let (lang, threshold) = match search {
        SingleSearch::TextWithDetail => (language_filter, 1_000_000 - similarity_threshold),
        _ => (None, similarity_threshold),
    };
    Ok(exec_plan_for(m, max_results, split, has_code, has_text, lang, threshold))
}

/// The message that reports a missing embedding in a multi-query search of
/// the MCP server.
pub open spec fn mcp_missing_embedding_error(code: bool, mode: Seq<char>) -> Seq<char> {
    (if code {
        "No code embeddings for "@
    } else {
        "No text embeddings for "@
    }) + mode + " search"@
}

/// What one query of a multi-query search of the MCP server asks the store
/// for: every kind that the mode searches, each with the per-query limit and
/// the fixed threshold 1.01 (1010000 millionths), which lets every hit
/// through.
/// The embeddings that the mode needs must be there: code for `code`, text
/// for `docs` and `text`, both for `all` (code checked first).
pub open spec fn mcp_query_plan(mode: SearchMode, limit: usize, has_code: bool, has_text: bool) -> Result<
    PlanView,
    Seq<char>,
> {
    let needs_code = mode is Code || mode is All;
    let needs_text = !(mode is Code);
    if needs_code && !has_code {
        Err(mcp_missing_embedding_error(true, mode_name(mode)))
    } else if needs_text && !has_text {
        Err(mcp_missing_embedding_error(false, mode_name(mode)))
    } else {
        Ok(plan_for(mode, limit, limit, has_code, has_text, None, 1_010_000))
    }
}

/// Decides what one query of a multi-query search of the MCP server asks
/// the store for; see `mcp_query_plan`.
pub fn plan_mcp_query_search(mode: SearchMode, limit: usize, has_code: bool, has_text: bool) -> (r:
    Result<StorePlan, String>)
    ensures
        match r {
            Ok(p) => mcp_query_plan(mode, limit, has_code, has_text) == Ok::<PlanView, Seq<char>>(
                plan_view(p),
            ),
            Err(e) => mcp_query_plan(mode, limit, has_code, has_text) == Err::<PlanView, Seq<char>>(
                e@,
            ),
        },
{
    let needs_code = mode.searches_code();
    let needs_text = !matches!(mode, SearchMode::Code);
    let name = mode.name();
    if needs_code && !has_code {
        let mut e = String::new();
        push_str(&mut e, "No code embeddings for ");
        push_str(&mut e, name.as_str());
        push_str(&mut e, " search");
        return Err(e);
    }
    if needs_text && !has_text {
        let mut e = String::new();
        push_str(&mut e, "No text embeddings for ");
        push_str(&mut e, name.as_str());
        push_str(&mut e, " search");
        return Err(e);
    }
    Ok(exec_plan_for(mode, limit, limit, has_code, has_text, None, 1_010_000))
}

// ---------------------------------------------------------------------------
// Laws of the plans
// ---------------------------------------------------------------------------

/// A plan searches every kind that its mode names and for which the
/// embedding is there, and no other: `code`, `docs` and `text` search their
/// own kind with the limit, `all` searches every kind with the split. Only
/// a code query is restricted to the language, and every query gets the
/// threshold.
pub proof fn law_plan_kinds(
    mode: SearchMode,
    limit: usize,
    split: usize,
    has_code: bool,
    has_text: bool,
    language: Option<Seq<char>>,
    threshold: int,
)
    ensures
        mode is Code && has_code ==> plan_for(mode, limit, split, has_code, has_text, language, threshold).0
            == Some(limit),
        mode is Docs && has_text ==> plan_for(mode, limit, split, has_code, has_text, language, threshold).1
            == Some(limit),
        mode is Text && has_text ==> plan_for(mode, limit, split, has_code, has_text, language, threshold).2
            == Some(limit),
        mode is All && has_code ==> plan_for(mode, limit, split, has_code, has_text, language, threshold).0
            == Some(split),
        mode is All && has_text ==> plan_for(mode, limit, split, has_code, has_text, language, threshold).1
            == Some(split) && plan_for(mode, limit, split, has_code, has_text, language, threshold).2
            == Some(split),
        !has_code || mode is Docs || mode is Text ==> plan_for(mode, limit, split, has_code, has_text, language, threshold).0 is None,
        !has_text || mode is Code || mode is Text ==> plan_for(mode, limit, split, has_code, has_text, language, threshold).1 is None,
        !has_text || mode is Code || mode is Docs ==> plan_for(mode, limit, split, has_code, has_text, language, threshold).2 is None,
        plan_for(mode, limit, split, has_code, has_text, language, threshold).0 is Some ==> plan_for(
            mode,
            limit,
            split,
            has_code,
            has_text,
            language,
            threshold,
        ).3 == language,
        plan_for(mode, limit, split, has_code, has_text, language, threshold).0 is None ==> plan_for(
            mode,
            limit,
            split,
            has_code,
            has_text,
            language,
            threshold,
        ).3 is None,
        plan_for(mode, limit, split, has_code, has_text, language, threshold).4 == threshold,
{
}

/// A single-query search whose mode is known and whose needed embeddings
/// are there is planned: a search of one kind asks for that kind with
/// `max_results`; an `all` search asks for every kind. The Markdown
/// searches give the similarity threshold itself, the text search one minus
/// it.
pub proof fn law_single_search_plan(
    search: SingleSearch,
    mode: Seq<char>,
    max_results: usize,
    similarity_threshold: int,
    has_code: bool,
    has_text: bool,
    language: Option<Seq<char>>,
)
    ensures
        search_mode_of(mode) == Some(SearchMode::Text) && has_text ==> (single_search_plan(
            search,
            mode,
            max_results,
            similarity_threshold,
            has_code,
            has_text,
            language,
        ) matches Ok(v) && v.2 == Some(max_results) && v.0 is None && v.1 is None),
        search_mode_of(mode) == Some(SearchMode::Docs) && has_text ==> (single_search_plan(
            search,
            mode,
            max_results,
            similarity_threshold,
            has_code,
            has_text,
            language,
        ) matches Ok(v) && v.1 == Some(max_results) && v.0 is None && v.2 is None),
        search_mode_of(mode) == Some(SearchMode::Code) && has_code ==> (single_search_plan(
            search,
            mode,
            max_results,
            similarity_threshold,
            has_code,
            has_text,
            language,
        ) matches Ok(v) && v.0 == Some(max_results) && v.1 is None && v.2 is None),
        search_mode_of(mode) == Some(SearchMode::All) && has_code && has_text ==> (single_search_plan(
            search,
            mode,
            max_results,
            similarity_threshold,
            has_code,
            has_text,
            language,
        ) matches Ok(v) && v.0 == Some(if search is Markdown {
            max_results
        } else {
            ((max_results + 2) / 3) as usize
        }) && v.1 == v.0 && v.2 == v.0),
        search_mode_of(mode) == Some(SearchMode::Code) && has_code ==> (single_search_plan(
            search,
            mode,
            max_results,
            similarity_threshold,
            has_code,
            has_text,
            language,
        ) matches Ok(v) && v.3 == (if search is TextWithDetail {
            language
        } else {
            None
        })),
        single_search_plan(
            search,
            mode,
            max_results,
            similarity_threshold,
            has_code,
            has_text,
            language,
        ) matches Ok(v) ==> v.4 == (if search is TextWithDetail {
            1_000_000 - similarity_threshold
        } else {
            similarity_threshold
        }),
{
    let split = if search is Markdown {
        max_results
    } else {
        div_ceil3(max_results as nat) as usize
    };
    let lang = if search is TextWithDetail {
        language
    } else {
        None
    };
    let threshold = if search is TextWithDetail {
        1_000_000 - similarity_threshold
    } else {
        similarity_threshold
    };
    if let Some(m) = search_mode_of(mode) {
        law_plan_kinds(m, max_results, split, has_code, has_text, lang, threshold);
    }
}

} // verus!
