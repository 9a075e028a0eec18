use octocode::indexer::{
    fast_count_indexable_files, file_unchanged, is_quick_indexable_extension, flush_if_needed,
    path_extension, plan_git_indexing, plan_graph_build, should_store_metadata, GitIndexPlan,
    GraphBuild, NoindexWalker, files_to_reindex, flush_after_cleanup, unchanged_commit_graph_build,
    IndexCounters,
};
use std::path::Path;

fn std_extension(p: &str) -> Option<String> {
    Path::new(p).extension().map(|e| e.to_str().unwrap().to_string())
}

#[test]
fn path_extension_agrees_with_std() {
    let cases = [
        "", "/", ".", "..", "a", "a.rs", "src/main.rs", "src/main.rs/", "dir/.bashrc", ".bashrc",
        "a.b.c", "archive.tar.gz", "foo.", "...", "a/..", "a/.", "a/b/.", "./x.py", "a//b.go",
        "name.with.dots/file", "/abs/path/lib.rs", "x/y.z/", "..rs", ".a.b", "a/./b.md", "é.txt",
        "dir.d/", "dir/..hidden",
    ];
    for c in cases.iter() {
        assert_eq!(path_extension(c), std_extension(c), "path {:?}", c);
    }
}

#[test]
fn quick_extensions() {
    for e in ["rs", "py", "md", "S", "brewfile", "tfvars", "pod6", "yml"] {
        assert!(is_quick_indexable_extension(e), "{}", e);
    }
    for e in ["", "RS", "exe", "png", "lock", "jpeg"] {
        assert!(!is_quick_indexable_extension(e), "{}", e);
    }
}

#[test]
fn count_changed_files_with_extension() {
    let changed = vec![
        "/p/src/a.rs".to_string(),
        "/p/Makefile".to_string(),
        "/p/img.png".to_string(),
        "/p/.env".to_string(),
    ];
    assert_eq!(fast_count_indexable_files(Some(&changed), &Vec::new()), 2);
}

#[test]
fn count_walked_files_on_quick_list() {
    let walked = vec![
        "/p/src/a.rs".to_string(),
        "/p/Makefile".to_string(),
        "/p/img.png".to_string(),
        "/p/docs/guide.md".to_string(),
        "/p/conf/app.toml".to_string(),
    ];
    assert_eq!(fast_count_indexable_files(None, &walked), 3);
}

#[test]
fn flush_decisions() {
    let mut calls = 0;
    let mut n = 3;
    assert_eq!(flush_if_needed(&mut n, 5, false, || -> Result<(), String> { calls += 1; Ok(()) }), Ok(false));
    assert_eq!((n, calls), (3, 0));
    let mut n = 5;
    assert_eq!(flush_if_needed(&mut n, 5, false, || -> Result<(), String> { calls += 1; Ok(()) }), Ok(true));
    assert_eq!((n, calls), (0, 1));
    let mut n = 1;
    assert_eq!(flush_if_needed(&mut n, 5, true, || -> Result<(), String> { Ok(()) }), Ok(true));
    assert_eq!(n, 0);
}

#[test]
fn failed_flush_keeps_the_count() {
    let mut n = 7;
    let r = flush_if_needed(&mut n, 5, false, || -> Result<(), String> { Err("disk full".to_string()) });
    assert_eq!(r, Err("disk full".to_string()));
    assert_eq!(n, 7);
}

#[test]
fn unchanged_files() {
    assert!(file_unchanged(false, Some(10), Some(10)));
    assert!(file_unchanged(false, Some(9), Some(10)));
    assert!(!file_unchanged(false, Some(11), Some(10)));
    assert!(!file_unchanged(true, Some(9), Some(10)));
    assert!(!file_unchanged(false, None, Some(10)));
    assert!(!file_unchanged(false, Some(9), None));
}

#[test]
fn git_plans() {
    let s = |x: &str| Some(x.to_string());
    assert_eq!(plan_git_indexing(false, false, s("a"), s("b")), GitIndexPlan::NoRepository);
    assert_eq!(plan_git_indexing(true, true, s("a"), s("b")), GitIndexPlan::Forced);
    assert_eq!(plan_git_indexing(true, false, None, s("b")), GitIndexPlan::FirstIndex);
    assert_eq!(plan_git_indexing(true, false, s("a"), None), GitIndexPlan::NoCurrentCommit);
    assert_eq!(plan_git_indexing(true, false, s("a"), s("a")), GitIndexPlan::Unchanged);
    let p = plan_git_indexing(true, false, s("a1"), s("b2"));
    assert_eq!(p, GitIndexPlan::ChangedSince { since: "a1".to_string() });
    assert!(!p.indexes_all());
    assert_eq!(
        p.message(4),
        Some("🚀 Git optimization: Commit changed, found 4 files to reindex".to_string())
    );
    assert!(GitIndexPlan::FirstIndex.indexes_all());
    assert_eq!(GitIndexPlan::Forced.message(0), None);
    assert_eq!(
        GitIndexPlan::Unchanged.message(0),
        Some("✅ No commit changes since last index, skipping reindex".to_string())
    );
}

#[test]
fn noindex_probes() {
    let paths = NoindexWalker::noindex_probe_paths();
    assert_eq!(paths.len(), 15);
    assert_eq!(paths[0], ".noindex");
    assert_eq!(paths[1], "src/.noindex");
    assert_eq!(paths[14], "vendor/.noindex");
    assert!(!NoindexWalker::uses_noindex(&vec![false; 15]));
    let mut e = vec![false; 15];
    e[13] = true;
    assert!(NoindexWalker::uses_noindex(&e));
}

#[test]
fn graph_builds() {
    assert_eq!(plan_graph_build(false, 5, 5, true), GraphBuild::Skip);
    assert_eq!(plan_graph_build(true, 5, 0, false), GraphBuild::FromNewBlocks);
    assert_eq!(plan_graph_build(true, 0, 7, true), GraphBuild::FromExisting);
    assert_eq!(plan_graph_build(true, 0, 7, false), GraphBuild::Skip);
    assert_eq!(plan_graph_build(true, 0, 0, true), GraphBuild::Skip);
    assert_eq!(
        GraphBuild::FromExisting.status_message(),
        Some("Building GraphRAG from existing database...".to_string())
    );
    assert_eq!(GraphBuild::Skip.status_message(), None);
}

#[test]
fn metadata_storage() {
    assert!(should_store_metadata(3, false, 10));
    assert!(should_store_metadata(0, true, 0));
    assert!(should_store_metadata(0, false, 0));
    assert!(!should_store_metadata(0, false, 12));
}

#[test]
fn reindex_scope_and_fallback() {
    let changed = vec!["a.rs".to_string()];
    let plan = GitIndexPlan::ChangedSince { since: "c1".to_string() };
    assert_eq!(files_to_reindex(&plan, Some(changed.clone())), Some(changed.clone()));
    assert_eq!(files_to_reindex(&plan, None), None);
    assert_eq!(files_to_reindex(&GitIndexPlan::FirstIndex, Some(changed.clone())), None);
    assert!(flush_after_cleanup(&changed));
    assert!(!flush_after_cleanup(&Vec::new()));
}

#[test]
fn unchanged_commit_graph() {
    assert!(unchanged_commit_graph_build(true, Some(true)));
    assert!(!unchanged_commit_graph_build(true, Some(false)));
    assert!(!unchanged_commit_graph_build(true, None));
    assert!(!unchanged_commit_graph_build(false, Some(true)));
}

#[test]
fn run_counters() {
    let mut c = IndexCounters::new();
    c.file_skipped();
    let mut logged = 0;
    for _ in 0..100 {
        if c.file_indexed() {
            logged += 1;
        }
    }
    c.batch_processed(16);
    c.batch_processed(4);
    assert_eq!(c, IndexCounters { indexed_files: 100, skipped_files: 1, embedding_calls: 20, batches_processed: 2 });
    assert_eq!(logged, 2);
}
