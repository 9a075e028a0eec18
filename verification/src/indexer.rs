use vstd::prelude::*;
use crate::format_text::detail_is;
use crate::text::{push_decimal, push_str, to_chars};

verus! {

broadcast use vstd::seq_lib::group_seq_properties;

// ---------------------------------------------------------------------------
// Where `.noindex` files are looked for
// ---------------------------------------------------------------------------

/// Walks a project the way the indexer does: respecting `.gitignore` files
/// and, when the project has any, `.noindex` files.
pub struct NoindexWalker;

/// The places, relative to the project root, where a `.noindex` file makes
/// the walker honour `.noindex` files: the root and the common top-level
/// directories.
pub open spec fn noindex_probe_list() -> Seq<Seq<char>> {
    seq![
        ".noindex"@,
        "src/.noindex"@,
        "lib/.noindex"@,
        "tests/.noindex"@,
        "test/.noindex"@,
        "docs/.noindex"@,
        "doc/.noindex"@,
        "examples/.noindex"@,
        "example/.noindex"@,
        "target/.noindex"@,
        "build/.noindex"@,
        "dist/.noindex"@,
        "node_modules/.noindex"@,
        ".git/.noindex"@,
        "vendor/.noindex"@,
    ]
}

impl NoindexWalker {
    /// The paths, relative to the project root and in the order in which
    /// they are checked, whose existence means that the project uses
    /// `.noindex` files.
    pub fn noindex_probe_paths() -> (r: Vec<String>)
        ensures
            r@.map_values(|s: String| s@) == noindex_probe_list(),
    {
        let mut v: Vec<String> = Vec::new();
        v.push(".noindex".to_owned());
        v.push("src/.noindex".to_owned());
        v.push("lib/.noindex".to_owned());
        v.push("tests/.noindex".to_owned());
        v.push("test/.noindex".to_owned());
        v.push("docs/.noindex".to_owned());
        v.push("doc/.noindex".to_owned());
        v.push("examples/.noindex".to_owned());
        v.push("example/.noindex".to_owned());
        v.push("target/.noindex".to_owned());
        v.push("build/.noindex".to_owned());
        v.push("dist/.noindex".to_owned());
        v.push("node_modules/.noindex".to_owned());
        v.push(".git/.noindex".to_owned());
        v.push("vendor/.noindex".to_owned());
        assert(v@.map_values(|s: String| s@) =~= noindex_probe_list());
        v
    }

    /// Whether the project uses `.noindex` files, given whether each of the
    /// probe paths exists (in the order of `noindex_probe_paths`).
    pub fn uses_noindex(exists: &Vec<bool>) -> (r: bool)
        ensures
            r == exists@.contains(true),
    {
        let mut i: usize = 0;
        while i < exists.len()
            invariant
                0 <= i <= exists@.len(),
                forall|j: int| 0 <= j < i ==> !exists@[j],
            decreases exists@.len() - i,
        {
            if exists[i] {
                assert(exists@[i as int] == true);
                return true;
            }
            i = i + 1;
        }
        false
    }
}

// ---------------------------------------------------------------------------
// File counting
// ---------------------------------------------------------------------------

/// The extensions that the quick file count takes for indexable.
pub open spec fn quick_indexable(e: Seq<char>) -> bool {
    ||| e == "rs"@
    ||| e == "js"@
    ||| e == "ts"@
    ||| e == "jsx"@
    ||| e == "tsx"@
    ||| e == "py"@
    ||| e == "go"@
    ||| e == "java"@
    ||| e == "c"@
    ||| e == "cpp"@
    ||| e == "h"@
    ||| e == "hpp"@
    ||| e == "cs"@
    ||| e == "php"@
    ||| e == "rb"@
    ||| e == "swift"@
    ||| e == "kt"@
    ||| e == "scala"@
    ||| e == "r"@
    ||| e == "m"@
    ||| e == "mm"@
    ||| e == "md"@
    ||| e == "markdown"@
    ||| e == "txt"@
    ||| e == "json"@
    ||| e == "yaml"@
    ||| e == "yml"@
    ||| e == "toml"@
    ||| e == "xml"@
    ||| e == "html"@
    ||| e == "css"@
    ||| e == "scss"@
    ||| e == "sass"@
    ||| e == "less"@
    ||| e == "sql"@
    ||| e == "sh"@
    ||| e == "bash"@
    ||| e == "zsh"@
    ||| e == "fish"@
    ||| e == "vim"@
    ||| e == "lua"@
    ||| e == "pl"@
    ||| e == "pm"@
    ||| e == "t"@
    ||| e == "pod"@
    ||| e == "raku"@
    ||| e == "rakumod"@
    ||| e == "rakudoc"@
    ||| e == "nix"@
    ||| e == "dhall"@
    ||| e == "tf"@
    ||| e == "tfvars"@
    ||| e == "hcl"@
    ||| e == "vue"@
    ||| e == "svelte"@
    ||| e == "elm"@
    ||| e == "purs"@
    ||| e == "hs"@
    ||| e == "lhs"@
    ||| e == "ml"@
    ||| e == "mli"@
    ||| e == "fs"@
    ||| e == "fsi"@
    ||| e == "fsx"@
    ||| e == "clj"@
    ||| e == "cljs"@
    ||| e == "cljc"@
    ||| e == "edn"@
    ||| e == "ex"@
    ||| e == "exs"@
    ||| e == "erl"@
    ||| e == "hrl"@
    ||| e == "zig"@
    ||| e == "v"@
    ||| e == "vsh"@
    ||| e == "nim"@
    ||| e == "nims"@
    ||| e == "cr"@
    ||| e == "jl"@
    ||| e == "d"@
    ||| e == "dart"@
    ||| e == "pas"@
    ||| e == "pp"@
    ||| e == "inc"@
    ||| e == "asm"@
    ||| e == "s"@
    ||| e == "S"@
    ||| e == "rst"@
    ||| e == "adoc"@
    ||| e == "tex"@
    ||| e == "bib"@
    ||| e == "org"@
    ||| e == "wiki"@
    ||| e == "pod6"@
    ||| e == "rakutest"@
    ||| e == "cfg"@
    ||| e == "conf"@
    ||| e == "config"@
    ||| e == "ini"@
    ||| e == "env"@
    ||| e == "properties"@
    ||| e == "gradle"@
    ||| e == "cmake"@
    ||| e == "make"@
    ||| e == "makefile"@
    ||| e == "dockerfile"@
    ||| e == "containerfile"@
    ||| e == "vagrantfile"@
    ||| e == "gemfile"@
    ||| e == "rakefile"@
    ||| e == "guardfile"@
    ||| e == "podfile"@
    ||| e == "fastfile"@
    ||| e == "brewfile"@
}

/// Whether the quick file count takes a file with extension `ext` for
/// indexable.
pub fn is_quick_indexable_extension(ext: &str) -> (r: bool)
    ensures
        r == quick_indexable(ext@),
{
    detail_is(ext, "rs") ||
    detail_is(ext, "js") ||
    detail_is(ext, "ts") ||
    detail_is(ext, "jsx") ||
    detail_is(ext, "tsx") ||
    detail_is(ext, "py") ||
    detail_is(ext, "go") ||
    detail_is(ext, "java") ||
    detail_is(ext, "c") ||
    detail_is(ext, "cpp") ||
    detail_is(ext, "h") ||
    detail_is(ext, "hpp") ||
    detail_is(ext, "cs") ||
    detail_is(ext, "php") ||
    detail_is(ext, "rb") ||
    detail_is(ext, "swift") ||
    detail_is(ext, "kt") ||
    detail_is(ext, "scala") ||
    detail_is(ext, "r") ||
    detail_is(ext, "m") ||
    detail_is(ext, "mm") ||
    detail_is(ext, "md") ||
    detail_is(ext, "markdown") ||
    detail_is(ext, "txt") ||
    detail_is(ext, "json") ||
    detail_is(ext, "yaml") ||
    detail_is(ext, "yml") ||
    detail_is(ext, "toml") ||
    detail_is(ext, "xml") ||
    detail_is(ext, "html") ||
    detail_is(ext, "css") ||
    detail_is(ext, "scss") ||
    detail_is(ext, "sass") ||
    detail_is(ext, "less") ||
    detail_is(ext, "sql") ||
    detail_is(ext, "sh") ||
    detail_is(ext, "bash") ||
    detail_is(ext, "zsh") ||
    detail_is(ext, "fish") ||
    detail_is(ext, "vim") ||
    detail_is(ext, "lua") ||
    detail_is(ext, "pl") ||
    detail_is(ext, "pm") ||
    detail_is(ext, "t") ||
    detail_is(ext, "pod") ||
    detail_is(ext, "raku") ||
    detail_is(ext, "rakumod") ||
    detail_is(ext, "rakudoc") ||
    detail_is(ext, "nix") ||
    detail_is(ext, "dhall") ||
    detail_is(ext, "tf") ||
    detail_is(ext, "tfvars") ||
    detail_is(ext, "hcl") ||
    detail_is(ext, "vue") ||
    detail_is(ext, "svelte") ||
    detail_is(ext, "elm") ||
    detail_is(ext, "purs") ||
    detail_is(ext, "hs") ||
    detail_is(ext, "lhs") ||
    detail_is(ext, "ml") ||
    detail_is(ext, "mli") ||
    detail_is(ext, "fs") ||
    detail_is(ext, "fsi") ||
    detail_is(ext, "fsx") ||
    detail_is(ext, "clj") ||
    detail_is(ext, "cljs") ||
    detail_is(ext, "cljc") ||
    detail_is(ext, "edn") ||
    detail_is(ext, "ex") ||
    detail_is(ext, "exs") ||
    detail_is(ext, "erl") ||
    detail_is(ext, "hrl") ||
    detail_is(ext, "zig") ||
    detail_is(ext, "v") ||
    detail_is(ext, "vsh") ||
    detail_is(ext, "nim") ||
    detail_is(ext, "nims") ||
    detail_is(ext, "cr") ||
    detail_is(ext, "jl") ||
    detail_is(ext, "d") ||
    detail_is(ext, "dart") ||
    detail_is(ext, "pas") ||
    detail_is(ext, "pp") ||
    detail_is(ext, "inc") ||
    detail_is(ext, "asm") ||
    detail_is(ext, "s") ||
    detail_is(ext, "S") ||
    detail_is(ext, "rst") ||
    detail_is(ext, "adoc") ||
    detail_is(ext, "tex") ||
    detail_is(ext, "bib") ||
    detail_is(ext, "org") ||
    detail_is(ext, "wiki") ||
    detail_is(ext, "pod6") ||
    detail_is(ext, "rakutest") ||
    detail_is(ext, "cfg") ||
    detail_is(ext, "conf") ||
    detail_is(ext, "config") ||
    detail_is(ext, "ini") ||
    detail_is(ext, "env") ||
    detail_is(ext, "properties") ||
    detail_is(ext, "gradle") ||
    detail_is(ext, "cmake") ||
    detail_is(ext, "make") ||
    detail_is(ext, "makefile") ||
    detail_is(ext, "dockerfile") ||
    detail_is(ext, "containerfile") ||
    detail_is(ext, "vagrantfile") ||
    detail_is(ext, "gemfile") ||
    detail_is(ext, "rakefile") ||
    detail_is(ext, "guardfile") ||
    detail_is(ext, "podfile") ||
    detail_is(ext, "fastfile") ||
    detail_is(ext, "brewfile")
}
// ---------------------------------------------------------------------------
// File names and extensions of paths
// ---------------------------------------------------------------------------

/// The index of the last `c` in `s`, or -1 when there is none.
pub open spec fn last_index_of(s: Seq<char>, c: char) -> int
    decreases s.len(),
{
    if s.len() == 0 {
        -1
    } else if s.last() == c {
        s.len() - 1
    } else {
        last_index_of(s.drop_last(), c)
    }
}

/// Where the last occurrence lies, when there is one.
pub proof fn lemma_last_index_of(s: Seq<char>, c: char)
    ensures
        -1 <= last_index_of(s, c) < s.len(),
        last_index_of(s, c) >= 0 ==> s[last_index_of(s, c)] == c,
    decreases s.len(),
{
    if s.len() > 0 && s.last() != c {
        lemma_last_index_of(s.drop_last(), c);
    }
}

/// The last component of a path, as `Path::file_name` gives it: trailing
/// slashes and `.` components are skipped; a path that ends in `..`, and
/// one with no component, has none.
pub open spec fn file_name_of(p: Seq<char>) -> Option<Seq<char>>
    decreases p.len(),
{
    if p.len() == 0 {
        None
    } else if p.last() == '/' {
        file_name_of(p.drop_last())
    } else {
        let k = last_index_of(p, '/');
        let piece = p.subrange(k + 1, p.len() as int);
        if piece == seq!['.'] {
            if k < 0 {
                None
            } else {
                proof {
                    lemma_last_index_of(p, '/');
                }
                file_name_of(p.subrange(0, k + 1))
            }
        } else if piece == seq!['.', '.'] {
            None
        } else {
            Some(piece)
        }
    }
}

/// The extension of a file name: what follows its last `.`, when that dot
/// is not the first character.
pub open spec fn extension_of(name: Seq<char>) -> Option<Seq<char>> {
    let d = last_index_of(name, '.');
    if d <= 0 {
        None
    } else {
        Some(name.subrange(d + 1, name.len() as int))
    }
}

/// The extension of a path, as `Path::extension` gives it.
pub open spec fn path_extension_of(p: Seq<char>) -> Option<Seq<char>> {
    match file_name_of(p) {
        Some(n) => extension_of(n),
        None => None,
    }
}

/// The position of the last `c` in `cs[lo..hi]`.
fn last_index(cs: &[char], lo: usize, hi: usize, c: char) -> (r: Option<usize>)
    requires
        lo <= hi <= cs@.len(),
    ensures
        match r {
            Some(k) => lo <= k < hi && last_index_of(cs@.subrange(lo as int, hi as int), c) == k
                - lo,
            None => last_index_of(cs@.subrange(lo as int, hi as int), c) == -1,
        },
{
    let mut k = hi;
    while k > lo && cs[k - 1] != c
        invariant
            lo <= k <= hi <= cs@.len(),
            last_index_of(cs@.subrange(lo as int, hi as int), c) == last_index_of(
                cs@.subrange(lo as int, k as int),
                c,
            ),
        decreases k,
    {
        assert(cs@.subrange(lo as int, k as int).drop_last() =~= cs@.subrange(lo as int, k - 1));
        k = k - 1;
    }
    if k == lo {
        assert(cs@.subrange(lo as int, k as int) =~= Seq::<char>::empty());
        None
    } else {
        Some(k - 1)
    }
}

/// Where the file name of the path `cs` lies in it.
fn file_name_range(cs: &[char]) -> (r: Option<(usize, usize)>)
    ensures
        match r {
            Some((lo, hi)) => lo <= hi <= cs@.len() && file_name_of(cs@) == Some(
                cs@.subrange(lo as int, hi as int),
            ),
            None => file_name_of(cs@) is None,
        },
{
    let mut end = cs.len();
    assert(cs@.subrange(0, end as int) =~= cs@);
    loop
        invariant
            end <= cs@.len(),
            file_name_of(cs@) == file_name_of(cs@.subrange(0, end as int)),
        decreases end,
    {
        let ghost p = cs@.subrange(0, end as int);
        if end == 0 {
            assert(p =~= Seq::<char>::empty());
            return None;
        }
        if cs[end - 1] == '/' {
            assert(p.drop_last() =~= cs@.subrange(0, end - 1));
            end = end - 1;
            continue;
        }
        let k = last_index(cs, 0, end, '/');
        let lo = match k {
            Some(k) => k + 1,
            None => 0,
        };
        proof {
            lemma_last_index_of(p, '/');
            assert(p.subrange(last_index_of(p, '/') + 1, p.len() as int) =~= cs@.subrange(
                lo as int,
                end as int,
            ));
        }
        let ghost piece = cs@.subrange(lo as int, end as int);
        if end - lo == 1 && cs[lo] == '.' {
            assert(piece =~= seq!['.']);
            match k {
                None => {
                    return None;
                },
                Some(k) => {
                    assert(p.subrange(0, k + 1) =~= cs@.subrange(0, k + 1));
                    end = k + 1;
                    continue;
                },
            }
        }
        assert(piece != seq!['.']) by {
            if piece == seq!['.'] {
                assert(piece.len() == 1 && piece[0] == '.');
            }
        }
        if end - lo == 2 && cs[lo] == '.' && cs[lo + 1] == '.' {
            assert(piece =~= seq!['.', '.']);
            return None;
        }
        assert(piece != seq!['.', '.']) by {
            if piece == seq!['.', '.'] {
                assert(piece.len() == 2 && piece[0] == '.' && piece[1] == '.');
            }
        }
        return Some((lo, end));
    }
}

/// The extension of a path (`Path::extension` on a path given as a
/// string).
pub fn path_extension(path: &str) -> (r: Option<String>)
    ensures
        r matches Some(e) ==> path_extension_of(path@) == Some(e@),
        r is None ==> path_extension_of(path@) is None,
{
    let cs = to_chars(path);
    match file_name_range(cs.as_slice()) {
        None => None,
        Some((lo, hi)) => {
            let ghost name = cs@.subrange(lo as int, hi as int);
            match last_index(cs.as_slice(), lo, hi, '.') {
                None => None,
                Some(d) => {
                    if d == lo {
                        None
                    } else {
                        let mut e = String::new();
                        let mut i = d + 1;
                        while i < hi
                            invariant
                                d < i <= hi <= cs@.len(),
                                e@ == cs@.subrange(d + 1, i as int),
                            decreases hi - i,
                        {
                            crate::text::push_char(&mut e, cs[i]);
                            assert(cs@.subrange(d + 1, i + 1) =~= cs@.subrange(d + 1, i as int).push(
                                cs@[i as int],
                            ));
                            i = i + 1;
                        }
                        assert(name.subrange(d - lo + 1, name.len() as int) =~= cs@.subrange(
                            d + 1,
                            hi as int,
                        ));
                        Some(e)
                    }
                },
            }
        },
    }
}

/// How many of the paths have an extension.
pub open spec fn count_with_extension(paths: Seq<Seq<char>>) -> nat
    decreases paths.len(),
{
    if paths.len() == 0 {
        0
    } else {
        count_with_extension(paths.drop_last()) + if path_extension_of(paths.last()) is Some {
            1nat
        } else {
            0nat
        }
    }
}

/// How many of the paths have an extension that the quick count takes for
/// indexable.
pub open spec fn count_quick_indexable(paths: Seq<Seq<char>>) -> nat
    decreases paths.len(),
{
    if paths.len() == 0 {
        0
    } else {
        count_quick_indexable(paths.drop_last()) + match path_extension_of(paths.last()) {
            Some(e) => if quick_indexable(e) {
                1nat
            } else {
                0nat
            },
            None => 0nat,
        }
    }
}

/// The quick count of indexable files. With the files changed since the
/// last indexed commit (`changed`, their paths joined to the project root),
/// every one that has an extension counts; otherwise, of the files that the
/// walker found (`walked`), those whose extension is on the quick list.
pub fn fast_count_indexable_files(changed: Option<&Vec<String>>, walked: &Vec<String>) -> (n: usize)
    ensures
        match changed {
            Some(c) => n == count_with_extension(c@.map_values(|s: String| s@)),
            None => n == count_quick_indexable(walked@.map_values(|s: String| s@)),
        },
{
    match changed {
        Some(paths) => {
            let ghost ps = paths@.map_values(|s: String| s@);
            let mut n: usize = 0;
            for i in 0..paths.len()
                invariant
                    ps == paths@.map_values(|s: String| s@),
                    n == count_with_extension(ps.take(i as int)),
                    n <= i,
            {
                assert(ps.take(i + 1).drop_last() =~= ps.take(i as int));
                if path_extension(paths[i].as_str()).is_some() {
                    n = n + 1;
                }
            }
            assert(ps.take(paths@.len() as int) =~= ps);
            n
        },
        None => {
            let ghost ps = walked@.map_values(|s: String| s@);
            let mut n: usize = 0;
            for i in 0..walked.len()
                invariant
                    ps == walked@.map_values(|s: String| s@),
                    n == count_quick_indexable(ps.take(i as int)),
                    n <= i,
            {
                assert(ps.take(i + 1).drop_last() =~= ps.take(i as int));
                match path_extension(walked[i].as_str()) {
                    Some(e) => {
                        if is_quick_indexable_extension(e.as_str()) {
                            n = n + 1;
                        }
                    },
                    None => {},
                }
            }
            assert(ps.take(walked@.len() as int) =~= ps);
            n
        },
    }
}

// ---------------------------------------------------------------------------
// Decisions of the indexing run
// ---------------------------------------------------------------------------

/// Whether a flush is due after a batch: when forced, or once the number
/// of batches processed since the last flush reaches the configured
/// frequency.
pub open spec fn flush_due(batches_processed: usize, flush_frequency: usize, force: bool) -> bool {
    force || batches_processed >= flush_frequency
}

/// Flushes the store through `flush` when a flush is due, and says whether
/// it flushed. The batch counter starts again from zero after a flush that
/// succeeded; after a failed flush it is kept and the failure is returned.
pub fn flush_if_needed<E, F: FnOnce() -> Result<(), E>>(
    batches_processed: &mut usize,
    flush_frequency: usize,
    force: bool,
    flush: F,
) -> (r: Result<bool, E>)
    requires
        call_requires(flush, ()),
    ensures
        flush_due(*old(batches_processed), flush_frequency, force) ==> exists|out: Result<(), E>|
            call_ensures(flush, (), out) && r == (match out {
                Ok(_) => Ok::<bool, E>(true),
                Err(e) => Err::<bool, E>(e),
            }),
        !flush_due(*old(batches_processed), flush_frequency, force) ==> r == Ok::<bool, E>(false),
        *final(batches_processed) == (if flush_due(*old(batches_processed), flush_frequency, force)
            && r is Ok {
            0
        } else {
            *old(batches_processed)
        }),
{
    if force || *batches_processed >= flush_frequency {
        let out = flush();
        match out {
            Ok(()) => {
                *batches_processed = 0;
                Ok(true)
            },
            Err(e) => Err(e),
        }
    } else {
        Ok(false)
    }
}

/// Whether a file can be skipped as unchanged: unless reindexing is forced,
/// a file whose modification time is known and not later than the one
/// stored at its last indexing.
pub fn file_unchanged(force_reindex: bool, actual_mtime: Option<u64>, stored_mtime: Option<u64>) -> (r:
    bool)
    ensures
        r == (!force_reindex && actual_mtime is Some && stored_mtime is Some && actual_mtime->0
            <= stored_mtime->0),
{
    if force_reindex {
        return false;
    }
    match (actual_mtime, stored_mtime) {
        (Some(a), Some(s)) => a <= s,
        _ => false,
    }
}

/// How an indexing run uses git to limit its work.
#[derive(Clone, Debug, PartialEq, Eq)]
pub enum GitIndexPlan {
    /// The project is not a git repository: every file is looked at.
    NoRepository,
    /// Reindexing is forced: every file is looked at.
    Forced,
    /// No commit was indexed yet: every file is looked at, to set a
    /// baseline.
    FirstIndex,
    /// The current commit is unknown: every file is looked at.
    NoCurrentCommit,
    /// The indexed commit is the current one: nothing is reindexed.
    Unchanged,
    /// Only the files changed since the indexed commit `since` are
    /// reindexed.
    ChangedSince { since: String },
}

/// Decides how an indexing run uses git, from whether the project is a git
/// repository, whether reindexing is forced, the last indexed commit and the
/// current commit (each `None` when it could not be had).
pub fn plan_git_indexing(
    in_repository: bool,
    force_reindex: bool,
    last_commit: Option<String>,
    current_commit: Option<String>,
) -> (r: GitIndexPlan)
    ensures
        !in_repository ==> r is NoRepository,
        in_repository && force_reindex ==> r is Forced,
        in_repository && !force_reindex && last_commit is None ==> r is FirstIndex,
        in_repository && !force_reindex && last_commit is Some && current_commit is None
            ==> r is NoCurrentCommit,
        in_repository && !force_reindex ==> (last_commit matches Some(l) ==> (current_commit matches Some(
            c,
        ) ==> (if l@ == c@ {
            r is Unchanged
        } else {
            r matches GitIndexPlan::ChangedSince { since } && since@ == l@
        }))),
{
    if !in_repository {
        return GitIndexPlan::NoRepository;
    }
    if force_reindex {
        return GitIndexPlan::Forced;
    }
    match last_commit {
        None => GitIndexPlan::FirstIndex,
        Some(last) => match current_commit {
            None => GitIndexPlan::NoCurrentCommit,
            Some(current) => {
                if last == current {
                    GitIndexPlan::Unchanged
                } else {
                    GitIndexPlan::ChangedSince { since: last }
                }
            },
        },
    }
}

impl GitIndexPlan {
    /// Whether the run looks at every file of the project.
    pub fn indexes_all(&self) -> (r: bool)
        ensures
            r == (*self is NoRepository || *self is Forced || *self is FirstIndex
                || *self is NoCurrentCommit),
    {
        matches!(
            self,
            GitIndexPlan::NoRepository | GitIndexPlan::Forced | GitIndexPlan::FirstIndex
                | GitIndexPlan::NoCurrentCommit
        )
    }

    /// The line that a run which is not quiet prints about the plan, if
    /// any; for `ChangedSince` it needs the number of changed files.
    pub fn message(&self, changed_files: usize) -> (r: Option<String>)
        ensures
            match *self {
                GitIndexPlan::FirstIndex => r matches Some(m) && m@
                    == "📋 First-time git indexing: indexing all files"@,
                GitIndexPlan::NoCurrentCommit => r matches Some(m) && m@
                    == "⚠️  Could not get current commit hash, indexing all files"@,
                GitIndexPlan::Unchanged => r matches Some(m) && m@
                    == "✅ No commit changes since last index, skipping reindex"@,
                GitIndexPlan::ChangedSince { .. } => r matches Some(m) && m@
                    == "🚀 Git optimization: Commit changed, found "@ + crate::text::decimal(
                    changed_files as nat,
                ) + " files to reindex"@,
                _ => r is None,
            },
    {
        match self {
            GitIndexPlan::FirstIndex => Some("📋 First-time git indexing: indexing all files".to_owned()),
            GitIndexPlan::NoCurrentCommit => Some(
                "⚠️  Could not get current commit hash, indexing all files".to_owned(),
            ),
            GitIndexPlan::Unchanged => Some(
                "✅ No commit changes since last index, skipping reindex".to_owned(),
            ),
            GitIndexPlan::ChangedSince { .. } => {
                let mut m = String::new();
                push_str(&mut m, "🚀 Git optimization: Commit changed, found ");
                push_decimal(&mut m, changed_files as u128);
                push_str(&mut m, " files to reindex");
                Some(m)
            },
            _ => None,
        }
    }
}

/// How the knowledge graph is built at the end of an indexing run.
#[derive(Clone, Copy, Debug, PartialEq, Eq, Structural)]
pub enum GraphBuild {
    /// The knowledge graph is off, or there is nothing to build it from.
    Skip,
    /// From the code blocks indexed in this run.
    FromNewBlocks,
    /// From the code blocks already in the database, which the graph has not
    /// covered yet.
    FromExisting,
}

/// Decides how the knowledge graph is built after indexing: from this
/// run's new code blocks when there are any; otherwise from the database
/// when it holds code blocks and the graph still needs them.
pub fn plan_graph_build(
    graph_enabled: bool,
    new_code_blocks: usize,
    existing_code_blocks: usize,
    graph_needs_indexing: bool,
) -> (r: GraphBuild)
    ensures
        !graph_enabled ==> r == GraphBuild::Skip,
        graph_enabled && new_code_blocks > 0 ==> r == GraphBuild::FromNewBlocks,
        graph_enabled && new_code_blocks == 0 ==> r == (if existing_code_blocks > 0
            && graph_needs_indexing {
            GraphBuild::FromExisting
        } else {
            GraphBuild::Skip
        }),
{
    if !graph_enabled {
        GraphBuild::Skip
    } else if new_code_blocks > 0 {
        GraphBuild::FromNewBlocks
    } else if existing_code_blocks > 0 && graph_needs_indexing {
        GraphBuild::FromExisting
    } else {
        GraphBuild::Skip
    }
}

impl GraphBuild {
    /// The status shown while the graph is built, if it is.
    pub fn status_message(&self) -> (r: Option<String>)
        ensures
            match *self {
                GraphBuild::Skip => r is None,
                GraphBuild::FromNewBlocks => r matches Some(m) && m@
                    == "Building GraphRAG knowledge graph..."@,
                GraphBuild::FromExisting => r matches Some(m) && m@
                    == "Building GraphRAG from existing database..."@,
            },
    {
        match self {
            GraphBuild::Skip => None,
            GraphBuild::FromNewBlocks => Some("Building GraphRAG knowledge graph...".to_owned()),
            GraphBuild::FromExisting => Some("Building GraphRAG from existing database...".to_owned()),
        }
    }
}

/// Whether an indexing run records the indexed commit: when it processed
/// files, when it worked from the changed files of a commit, or when a full
/// run found nothing to index.
pub fn should_store_metadata(files_processed: usize, used_changed_files: bool, files_found: usize) -> (r:
    bool)
    ensures
        r == (files_processed > 0 || used_changed_files || (files_found == 0 && !used_changed_files)),
{
    files_processed > 0 || used_changed_files || (files_found == 0 && !used_changed_files)
}

/// The changed files that an indexing run restricts itself to, once it
/// knows its git plan: with `ChangedSince`, the files changed since that
/// commit when they could be read (`changed_files`). `None` means that the
/// run is not restricted to changed files: it looks at every file, except
/// with `Unchanged`, where it indexes nothing at all; a `ChangedSince` run
/// whose changed files could not be read falls back to looking at every
/// file.
pub fn files_to_reindex(plan: &GitIndexPlan, changed_files: Option<Vec<String>>) -> (r: Option<
    Vec<String>,
>)
    ensures
        (*plan is ChangedSince) ==> r == changed_files,
        !(*plan is ChangedSince) ==> r is None,
{
    match plan {
        GitIndexPlan::ChangedSince { .. } => changed_files,
        _ => None,
    }
}

/// Whether the store is flushed right after the blocks of the changed
/// files were removed: when there was at least one.
pub fn flush_after_cleanup(changed_files: &Vec<String>) -> (r: bool)
    ensures
        r == (changed_files@.len() > 0),
{
    changed_files.len() > 0
}

/// Whether a run whose commit is unchanged still builds the knowledge graph
/// from the database: when the graph is on and the database says it needs
/// indexing (`None` when that could not be checked, which counts as no).
pub fn unchanged_commit_graph_build(graph_enabled: bool, graph_needs_indexing: Option<bool>) -> (r:
    bool)
    ensures
        r == (graph_enabled && graph_needs_indexing == Some(true)),
{
    graph_enabled && match graph_needs_indexing {
        Some(v) => v,
        None => false,
    }
}

/// The counters of an indexing run.
#[derive(Clone, Copy, Debug, PartialEq, Eq, Structural)]
pub struct IndexCounters {
    /// Files indexed in this run.
    pub indexed_files: usize,
    /// Files skipped as unchanged.
    pub skipped_files: usize,
    /// Blocks sent for embedding.
    pub embedding_calls: usize,
    /// Batches processed since the store was last flushed.
    pub batches_processed: usize,
}

impl IndexCounters {
    /// Counters at the start of a run.
    pub fn new() -> (r: Self)
        ensures
            r == (IndexCounters {
                indexed_files: 0,
                skipped_files: 0,
                embedding_calls: 0,
                batches_processed: 0,
            }),
    {
        IndexCounters { indexed_files: 0, skipped_files: 0, embedding_calls: 0, batches_processed: 0 }
    }

    /// Counts a file skipped as unchanged.
    pub fn file_skipped(&mut self)
        requires
            old(self).skipped_files < usize::MAX,
        ensures
            *final(self) == (IndexCounters {
                skipped_files: (old(self).skipped_files + 1) as usize,
                ..*old(self)
            }),
    {
        self.skipped_files = self.skipped_files + 1;
    }

    /// Counts an indexed file; says whether progress is reported now, which
    /// happens every fifty files.
    pub fn file_indexed(&mut self) -> (r: bool)
        requires
            old(self).indexed_files < usize::MAX,
        ensures
            *final(self) == (IndexCounters {
                indexed_files: (old(self).indexed_files + 1) as usize,
                ..*old(self)
            }),
            r == ((old(self).indexed_files + 1) % 50 == 0),
    {
        self.indexed_files = self.indexed_files + 1;
        self.indexed_files % 50 == 0
    }

    /// Counts a processed batch of `blocks` blocks.
    pub fn batch_processed(&mut self, blocks: usize)
        requires
            old(self).embedding_calls + blocks <= usize::MAX,
            old(self).batches_processed < usize::MAX,
        ensures
            *final(self) == (IndexCounters {
                embedding_calls: (old(self).embedding_calls + blocks) as usize,
                batches_processed: (old(self).batches_processed + 1) as usize,
                ..*old(self)
            }),
    {
        self.embedding_calls = self.embedding_calls + blocks;
        self.batches_processed = self.batches_processed + 1;
    }
}

} // verus!
